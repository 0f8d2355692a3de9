# nrtm_parser

Reads NRTMv2 and NRTMv3 update streams (Near Real Time Mirroring of RPSL
databases) and gives each `ADD` / `DEL` operation as a structured message with
its raw RPSL object.

Layout:

- `src/grammar.rs`: the NRTM operation grammar, as spec functions over the UTF-8
  bytes of the input (`nrtm_outcome`).
- `src/scanner.rs`: the executable scanner, proved to compute the grammar.
- `src/message.rs`: `try_parse_nrtm`, from the grammar's outcome to an
  `NRTMMessage` or a `ParseError` (`parse_agrees` is its contract).
- `src/text.rs`: pieces of a `&str` by byte positions.
- `src/delimiter.rs`: the regex delimiter codec that cuts a stream into chunks.
- `src/charset.rs`: character-set guessing (chardetng) and decoding
  (encoding_rs) of a chunk.
- `src/streaming.rs`: the per-chunk work of a stream reader: the delimiter
  codec, character-set guessing of a chunk and reading a chunk.
- `src/laws.rs`: laws of the grammar (a verdict survives more input, an
  incomplete input has no fault yet and can be completed, v2 and v3 exclude each
  other, an operation's text reads alone, comment lines before a header change
  nothing, a reading depends on its input alone).
- `app/lib.rs`: the asynchronous stream reader (`StreamingNRTMParser`) on tokio.
