//! Parsing of NRTMv2 and NRTMv3 update streams.
//!
//! `NRTMV2Parser::try_parse` and `NRTMV3Parser::try_parse` read one operation
//! (an `ADD` or a `DEL` with its RPSL object) from the start of a piece of a
//! stream; `streaming` holds what a reader of a whole stream needs per chunk.
pub mod charset;
pub mod delimiter;
pub mod grammar;
pub mod laws;
pub mod message;
pub mod scanner;
pub mod streaming;
pub mod text;

use vstd::prelude::*;
use vstd::string::StringSliceAdditionalSpecFns;

pub use grammar::ProtocolVersion;

verus! {

/// The verb of an operation.
#[allow(non_camel_case_types, clippy::upper_case_acronyms)]
#[derive(Debug, Clone, Copy, PartialEq, Eq, Structural)]
pub enum Verb {
    ADD,
    DEL,
}

/// The kind of an operation: its verb, and for NRTMv3 its serial.
#[derive(Debug, Clone, Copy, PartialEq, Eq, Structural)]
pub enum OpType {
    V2(Verb),
    V3(Verb, u64),
}

/// A part of the input, by byte positions, with a copy of its text.
#[derive(Debug)]
pub struct Span {
    pub start_b: usize,
    pub end_b: usize,
    pub str: String,
}

/// One operation of an NRTM stream.
#[derive(Debug)]
pub struct NRTMMessage {
    pub update: OpType,
    /// The RPSL object, with the empty line that ends it.
    pub rpsl: String,
    /// The whole operation, from its verb to the end of its object.
    pub span: Span,
}

/// Where the input stops fitting the NRTM grammar.
#[derive(Debug, Clone, Copy, PartialEq, Eq, Structural)]
pub struct GrammarError {
    /// Byte position of the first byte that does not fit.
    pub pos: usize,
}

#[verifier::external_type_specification]
#[verifier::external_body]
pub struct ExParseIntError(std::num::ParseIntError);

#[verifier::external_type_specification]
#[verifier::external_body]
pub struct ExIoError(std::io::Error);

/// Why an operation could not be read.
#[derive(Debug)]
pub enum ParseError {
    /// No operation of the expected kind. Reading never gives it: input without a
    /// header of the version read is `Incomplete`, since an operation may still follow.
    NoMatch,
    /// The input ends before the operation does: more bytes may complete it.
    Incomplete,
    /// The input does not fit the grammar.
    Parser(GrammarError),
    /// The serial does not fit in 64 bits.
    MalformedSerial(Span, std::num::ParseIntError),
    /// Lines before the operation that may not stand there.
    LeadingGarbage(Span),
    IoError(std::io::Error),
}

impl From<std::io::Error> for ParseError {
    fn from(io_err: std::io::Error) -> (r: Self) {
        ParseError::IoError(io_err)
    }
}

impl vstd::std_specs::convert::FromSpecImpl<std::io::Error> for ParseError {
    open spec fn obeys_from_spec() -> bool {
        true
    }

    open spec fn from_spec(io_err: std::io::Error) -> Self {
        ParseError::IoError(io_err)
    }
}

/// A reader of single NRTM operations of one protocol version.
pub trait NRTMParser {
    /// The protocol version that this parser reads.
    spec fn protocol() -> ProtocolVersion;

    /// Reads the operation at the start of `input`.
    fn try_parse(input: &str) -> (r: Result<NRTMMessage, ParseError>)
        ensures
            message::parse_agrees(input.spec_bytes(), Self::protocol(), r),
    ;
}

/// Reader of NRTMv3 operations (`ADD <serial>` / `DEL <serial>`).
pub struct NRTMV3Parser {
    inner_decoder: streaming::NRTMDec,
}

impl NRTMV3Parser {
    /// A parser whose stream chunks hold at most `max_chunk_len` bytes.
    pub fn new(max_chunk_len: usize) -> (r: Self)
        ensures
            r.decoder().version() == ProtocolVersion::V3,
            r.decoder().max_chunk_len() == max_chunk_len,
    {
        NRTMV3Parser { inner_decoder: streaming::NRTMDec::new_v3(max_chunk_len) }
    }

    pub closed spec fn decoder(&self) -> streaming::NRTMDec {
        self.inner_decoder
    }

    /// The per-chunk decoder of this parser's stream.
    pub fn inner_decoder(&self) -> (r: &streaming::NRTMDec)
        ensures
            *r == self.decoder(),
    {
        &self.inner_decoder
    }
}

impl NRTMParser for NRTMV3Parser {
    open spec fn protocol() -> ProtocolVersion {
        ProtocolVersion::V3
    }

    fn try_parse(input: &str) -> (r: Result<NRTMMessage, ParseError>) {
        message::try_parse_nrtm(ProtocolVersion::V3, input)
    }
}

/// Reader of NRTMv2 operations (`ADD` / `DEL` without a serial).
pub struct NRTMV2Parser {
    inner_decoder: streaming::NRTMDec,
}

impl NRTMV2Parser {
    /// A parser whose stream chunks hold at most `max_chunk_len` bytes.
    pub fn new(max_chunk_len: usize) -> (r: Self)
        ensures
            r.decoder().version() == ProtocolVersion::V2,
            r.decoder().max_chunk_len() == max_chunk_len,
    {
        NRTMV2Parser { inner_decoder: streaming::NRTMDec::new_v2(max_chunk_len) }
    }

    pub closed spec fn decoder(&self) -> streaming::NRTMDec {
        self.inner_decoder
    }

    /// The per-chunk decoder of this parser's stream.
    pub fn inner_decoder(&self) -> (r: &streaming::NRTMDec)
        ensures
            *r == self.decoder(),
    {
        &self.inner_decoder
    }
}

impl NRTMParser for NRTMV2Parser {
    open spec fn protocol() -> ProtocolVersion {
        ProtocolVersion::V2
    }

    fn try_parse(input: &str) -> (r: Result<NRTMMessage, ParseError>) {
        message::try_parse_nrtm(ProtocolVersion::V2, input)
    }
}

} // verus!
