//! What a reader of a whole NRTM stream does with each chunk of it.
//!
//! A stream is cut into chunks, each ending with the empty line after an RPSL
//! object, by a `re_delimiter_codec` codec (`new_nrtm_preparser`). Each chunk's
//! character set is guessed and the chunk decoded to text (`decode_chunk`), and
//! the text is read as one operation (`NRTMDec::parse_chunk`).
use vstd::prelude::*;
use vstd::string::StringSliceAdditionalSpecFns;

use crate::charset::{
    decode_with, decoded_text, detector_input, feed_detector, guess_charset, guessed_charset,
    new_detector, Iso2022Jp, Utf8Guess,
};
use crate::delimiter::{codec_max_length, codec_pattern, compile_regex, delimiter_codec};
use crate::grammar::ProtocolVersion;
use crate::message::{parse_agrees, try_parse_nrtm};
use crate::{NRTMMessage, ParseError};

pub use crate::delimiter::NRTM_DELIMITER;

verus! {

#[verifier::external_type_specification]
#[verifier::external_body]
pub struct ExREDelimiterCodecError(re_delimiter_codec::REDelimiterCodecError);

/// An error of a stream of operations: from cutting the stream into chunks, or from
/// reading a chunk as an operation.
#[derive(Debug)]
pub enum NRTMStreamError {
    REDelimiterCodec(re_delimiter_codec::REDelimiterCodecError),
    Parser(ParseError),
}

/// The codec that cuts an NRTM stream into chunks of at most `with_max_chunk_len`
/// bytes, each ending after `NRTM_DELIMITER`.
pub fn new_nrtm_preparser(with_max_chunk_len: usize) -> (r:
    re_delimiter_codec::REDelimiterCodec)
    ensures
        codec_pattern(r) == NRTM_DELIMITER@,
        codec_max_length(r) == with_max_chunk_len,
{
    let regex = compile_regex(NRTM_DELIMITER).unwrap();
    delimiter_codec(regex, with_max_chunk_len)
}

/// Decodes a chunk of a stream: NRTM has no character set of its own, so each chunk's
/// is guessed on its own (ISO-2022-JP and UTF-8 allowed, no top-level domain), and the
/// whole chunk is decoded from the guessed one.
pub fn decode_chunk(chunk: &[u8]) -> (text: String)
    ensures
        text@ == decoded_text(guessed_charset(chunk@, true, true, None, true), chunk@),
{
    let mut detector = new_detector(Iso2022Jp::Allow);
    feed_detector(&mut detector, chunk, true);
    assert(detector_input(detector) =~= chunk@);
    let charset = guess_charset(&detector, None, Utf8Guess::Allow);
    decode_with(&charset, chunk)
}

/// The per-chunk half of a stream reader for one protocol version.
#[derive(Clone, Copy)]
pub struct NRTMDec {
    version: ProtocolVersion,
    max_chunk_len: usize,
}

impl NRTMDec {
    pub closed spec fn version(&self) -> ProtocolVersion {
        self.version
    }

    pub closed spec fn max_chunk_len(&self) -> usize {
        self.max_chunk_len
    }

    /// A reader of NRTMv2 streams with chunks of at most `max_chunk_len` bytes.
    pub fn new_v2(max_chunk_len: usize) -> (r: Self)
        ensures
            r.version() == ProtocolVersion::V2,
            r.max_chunk_len() == max_chunk_len,
    {
        NRTMDec { version: ProtocolVersion::V2, max_chunk_len }
    }

    /// A reader of NRTMv3 streams with chunks of at most `max_chunk_len` bytes.
    pub fn new_v3(max_chunk_len: usize) -> (r: Self)
        ensures
            r.version() == ProtocolVersion::V3,
            r.max_chunk_len() == max_chunk_len,
    {
        NRTMDec { version: ProtocolVersion::V3, max_chunk_len }
    }

    /// The protocol version of the stream.
    pub fn protocol(&self) -> (r: ProtocolVersion)
        ensures
            r == self.version(),
    {
        self.version
    }

    /// The largest chunk that the stream may hold.
    pub fn chunk_limit(&self) -> (r: usize)
        ensures
            r == self.max_chunk_len(),
    {
        self.max_chunk_len
    }

    /// The codec that cuts this stream into chunks.
    pub fn preparser(&self) -> (r: re_delimiter_codec::REDelimiterCodec)
        ensures
            codec_pattern(r) == NRTM_DELIMITER@,
            codec_max_length(r) == self.max_chunk_len(),
    {
        new_nrtm_preparser(self.max_chunk_len)
    }

    /// Reads the decoded text of a chunk as one operation; a parse error becomes a
    /// stream error that the reader may recover from.
    pub fn parse_chunk(&self, text: &str) -> (r: Result<NRTMMessage, NRTMStreamError>)
        ensures
            chunk_agrees(text.spec_bytes(), self.version(), r),
    {
        match try_parse_nrtm(self.version, text) {
            Ok(message) => Ok(message),
            Err(e) => Err(NRTMStreamError::Parser(e)),
        }
    }
}

/// `r` is what reading one operation of version `v` from the chunk text `s` gives,
/// with a parse error carried as a stream error.
pub open spec fn chunk_agrees(s: Seq<u8>, v: ProtocolVersion, r: Result<NRTMMessage, NRTMStreamError>) -> bool {
    match r {
        Ok(m) => parse_agrees(s, v, Ok(m)),
        Err(NRTMStreamError::Parser(e)) => parse_agrees(s, v, Err(e)),
        Err(NRTMStreamError::REDelimiterCodec(_)) => false,
    }
}

} // verus!
