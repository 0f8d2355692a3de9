//! From the grammar's verdict on an input to a message or an error.
use vstd::prelude::*;
use vstd::string::StringSliceAdditionalSpecFns;
use vstd::utf8::encode_utf8;

use crate::grammar::{
    decimal_value, is_digit, lemma_find_operation_found, lemma_first_garbage_line, lemma_operation_facts, nrtm_outcome,
    Keyword, OperationShape, Outcome, ProtocolVersion,
};
use crate::scanner::{scan_nrtm, GrammarScan};
use crate::text::{lemma_ascii_adjacent_boundary, owned_piece, piece};
use crate::{GrammarError, NRTMMessage, OpType, ParseError, Span, Verb};

verus! {

broadcast use vstd::utf8::encode_utf8_valid_utf8;

pub open spec fn verb_of(k: Keyword) -> Verb {
    match k {
        Keyword::Add => Verb::ADD,
        Keyword::Del => Verb::DEL,
    }
}

/// `sp` is the part `[a, b)` of the input bytes `s`.
pub open spec fn span_is(sp: Span, s: Seq<u8>, a: int, b: int) -> bool {
    &&& sp.start_b == a
    &&& sp.end_b == b
    &&& encode_utf8(sp.str@) == s.subrange(a, b)
}

/// The kind of the complete operation `op` of `s` under version `v`.
pub open spec fn update_of(s: Seq<u8>, op: OperationShape, v: ProtocolVersion) -> OpType {
    match (v, op.serial) {
        (ProtocolVersion::V3, Some((a, b))) => OpType::V3(
            verb_of(op.keyword),
            decimal_value(s.subrange(a, b)) as u64,
        ),
        _ => OpType::V2(verb_of(op.keyword)),
    }
}

/// `m` is the complete operation `op` of the input bytes `s`.
pub open spec fn message_is(m: NRTMMessage, s: Seq<u8>, op: OperationShape, v: ProtocolVersion) -> bool {
    &&& m.update == update_of(s, op, v)
    &&& encode_utf8(m.rpsl@) == s.subrange(op.rpsl_start, op.end)
    &&& span_is(m.span, s, op.start, op.end)
}

/// `r` is what reading one operation of version `v` from the bytes `s` gives.
pub open spec fn parse_agrees(s: Seq<u8>, v: ProtocolVersion, r: Result<NRTMMessage, ParseError>) -> bool {
    match nrtm_outcome(s, v) {
        Outcome::Incomplete => r matches Err(ParseError::Incomplete),
        Outcome::Broken(f) => r matches Err(ParseError::Parser(e)) && e.pos == f,
        Outcome::Garbage(a, b) => r matches Err(ParseError::LeadingGarbage(sp)) && span_is(
            sp,
            s,
            a,
            b,
        ),
        Outcome::BadSerial(a, b) => r matches Err(ParseError::MalformedSerial(sp, _)) && span_is(
            sp,
            s,
            a,
            b,
        ),
        Outcome::Parsed(op) => r matches Ok(m) && message_is(m, s, op, v),
    }
}

/// Calls `str::parse::<u64>` (std's `FromStr` for `u64`). On a nonempty run of
/// ASCII digits its documentation has it return the run's decimal value, and an
/// error exactly when that value does not fit in a `u64`.
#[verifier::external_body]
fn parse_u64(digits: &str) -> (r: Result<u64, std::num::ParseIntError>)
    requires
        digits.spec_bytes().len() > 0,
        forall|k: int| 0 <= k < digits.spec_bytes().len() ==> is_digit(#[trigger] digits.spec_bytes()[k]),
    ensures
        r is Ok <==> decimal_value(digits.spec_bytes()) <= u64::MAX,
        r matches Ok(n) ==> n == decimal_value(digits.spec_bytes()),
{
    digits.parse::<u64>()
}

fn span_of(s: &str, a: usize, b: usize) -> (sp: Span)
    requires
        a <= b <= s.spec_bytes().len(),
        crate::text::ascii_adjacent(s.spec_bytes(), a as int),
        crate::text::ascii_adjacent(s.spec_bytes(), b as int),
    ensures
        span_is(sp, s.spec_bytes(), a as int, b as int),
{
    proof {
        lemma_ascii_adjacent_boundary(s.spec_bytes(), a as int);
        lemma_ascii_adjacent_boundary(s.spec_bytes(), b as int);
    }
    Span { start_b: a, end_b: b, str: owned_piece(s, a, b) }
}

/// Reads the operation of protocol version `v` at the start of `input`.
pub fn try_parse_nrtm(v: ProtocolVersion, input: &str) -> (r: Result<NRTMMessage, ParseError>)
    ensures
        parse_agrees(input.spec_bytes(), v, r),
{
    let bytes = input.as_bytes();
    let ghost s = input.spec_bytes();
    assert(bytes@ == s);
    match scan_nrtm(bytes, v) {
        GrammarScan::Incomplete => Err(ParseError::Incomplete),
        GrammarScan::Broken(f) => Err(ParseError::Parser(GrammarError { pos: f })),
        GrammarScan::Garbage(a, b) => {
            proof {
                lemma_find_operation_found(s, 0, v);
                lemma_first_garbage_line(s, 0, b as int);
            }
            Err(ParseError::LeadingGarbage(span_of(input, a, b)))
        },
        GrammarScan::Complete(op) => {
            proof {
                lemma_find_operation_found(s, 0, v);
                lemma_operation_facts(s, op.start as int, v);
            }
            let verb = match op.keyword {
                Keyword::Add => Verb::ADD,
                Keyword::Del => Verb::DEL,
            };
            let update = match op.serial {
                Some((a, b)) => {
                    proof {
                        lemma_ascii_adjacent_boundary(s, a as int);
                        lemma_ascii_adjacent_boundary(s, b as int);
                    }
                    let digits = piece(input, a, b);
                    assert(digits.spec_bytes() == s.subrange(a as int, b as int));
                    match parse_u64(digits) {
                        Ok(n) => OpType::V3(verb, n),
                        Err(e) => {
                            return Err(ParseError::MalformedSerial(span_of(input, a, b), e));
                        },
                    }
                },
                None => OpType::V2(verb),
            };
            proof {
                lemma_ascii_adjacent_boundary(s, op.rpsl_start as int);
                lemma_ascii_adjacent_boundary(s, op.end as int);
            }
            Ok(
                NRTMMessage {
                    update,
                    rpsl: owned_piece(input, op.rpsl_start, op.end),
                    span: span_of(input, op.start, op.end),
                },
            )
        },
    }
}

} // verus!
