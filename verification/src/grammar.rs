//! The NRTM operation grammar, over the UTF-8 bytes of the input.
//!
//! An NRTM update looks like
//!
//! ```text
//! % optional comment lines, '#' lines and empty lines
//! ADD 65776764          (NRTMv3: verb, one space, serial)
//!                       (empty line)
//! inetnum:  192.0.2.0 - 192.0.2.255
//!           continuation lines start with a space, a tab or '+'
//! # comment lines start with '#'
//! source:   RIPE
//!                       (empty line: end of the object)
//! ```
//!
//! NRTMv2 operations have no serial: the verb stands alone on its line.
//!
//! The operation starts at the first line that begins a whole header of the
//! version read: a line that only looks like one (`ADDRESS: ...`, a header of
//! the other version, a header cut short) is not one. Every line before the
//! operation must be empty or begin with `%` or `#`; any other line there is
//! leading garbage, and input without a header reads as incomplete, since one
//! may still follow. The RPSL object that follows the header is
//! a first attribute line (`name:` then a value), then attribute lines,
//! continuation lines or comment lines, and it ends at the first empty line.
//! Where the bytes stop fitting this shape, the grammar reports the position of
//! the first byte that does not fit; a position equal to the input's length
//! means that the input ended before the operation did.
use vstd::prelude::*;

verus! {

pub const NL: u8 = 10;
pub const TAB: u8 = 9;
pub const SPACE: u8 = 32;
pub const HASH: u8 = 35;
pub const PERCENT: u8 = 37;
pub const PLUS: u8 = 43;
pub const COLON: u8 = 58;

/// The two revisions of the protocol that this crate reads.
#[derive(Debug, Clone, Copy, PartialEq, Eq, Structural)]
pub enum ProtocolVersion {
    /// NRTMv2 (`ADD` / `DEL` without a serial)
    V2,
    /// NRTMv3 (`ADD <serial>` / `DEL <serial>`)
    V3,
}

/// The two NRTM verbs, as the grammar sees them.
#[derive(Debug, Clone, Copy, PartialEq, Eq, Structural)]
pub enum Keyword {
    Add,
    Del,
}

pub open spec fn is_letter(b: u8) -> bool {
    (65 <= b <= 90) || (97 <= b <= 122)
}

pub open spec fn is_digit(b: u8) -> bool {
    48 <= b <= 57
}

/// Bytes that may follow the first letter of an attribute name.
pub open spec fn is_name_byte(b: u8) -> bool {
    is_letter(b) || is_digit(b) || b == 45 || b == 95
}

/// First bytes of the lines that may stand before an operation.
pub open spec fn is_ignorable_start(b: u8) -> bool {
    b == NL || b == PERCENT || b == HASH
}

/// First bytes of the object lines that carry no attribute name.
pub open spec fn is_follow_up_start(b: u8) -> bool {
    b == SPACE || b == TAB || b == PLUS || b == HASH
}

/// Position of the first line feed at or after `i`, or the length of `s`.
pub open spec fn line_end(s: Seq<u8>, i: int) -> int
    decreases s.len() - i,
{
    if i >= s.len() {
        s.len() as int
    } else if s[i] == NL {
        i
    } else {
        line_end(s, i + 1)
    }
}

/// Position of the first byte at or after `i` that is not a name byte, or the length of `s`.
pub open spec fn name_end(s: Seq<u8>, i: int) -> int
    decreases s.len() - i,
{
    if i >= s.len() {
        s.len() as int
    } else if !is_name_byte(s[i]) {
        i
    } else {
        name_end(s, i + 1)
    }
}

/// Position of the first byte at or after `i` that is not an ASCII digit, or the length of `s`.
pub open spec fn digits_end(s: Seq<u8>, i: int) -> int
    decreases s.len() - i,
{
    if i >= s.len() {
        s.len() as int
    } else if !is_digit(s[i]) {
        i
    } else {
        digits_end(s, i + 1)
    }
}

pub proof fn lemma_line_end_bounds(s: Seq<u8>, i: int)
    requires
        0 <= i,
    ensures
        i <= s.len() ==> i <= line_end(s, i) <= s.len(),
        i > s.len() ==> line_end(s, i) == s.len(),
        line_end(s, i) < s.len() ==> s[line_end(s, i)] == NL,
        forall|k: int| i <= k < line_end(s, i) ==> s[k] != NL,
    decreases s.len() - i,
{
    if i < s.len() && s[i] != NL {
        lemma_line_end_bounds(s, i + 1);
    }
}

pub proof fn lemma_name_end_bounds(s: Seq<u8>, i: int)
    requires
        0 <= i <= s.len(),
    ensures
        i <= name_end(s, i) <= s.len(),
        name_end(s, i) < s.len() ==> !is_name_byte(s[name_end(s, i)]),
        forall|k: int| i <= k < name_end(s, i) ==> is_name_byte(#[trigger] s[k]),
    decreases s.len() - i,
{
    if i < s.len() && is_name_byte(s[i]) {
        lemma_name_end_bounds(s, i + 1);
    }
}

pub proof fn lemma_digits_end_bounds(s: Seq<u8>, i: int)
    requires
        0 <= i <= s.len(),
    ensures
        i <= digits_end(s, i) <= s.len(),
        digits_end(s, i) < s.len() ==> !is_digit(s[digits_end(s, i)]),
        forall|k: int| i <= k < digits_end(s, i) ==> is_digit(#[trigger] s[k]),
    decreases s.len() - i,
{
    if i < s.len() && is_digit(s[i]) {
        lemma_digits_end_bounds(s, i + 1);
    }
}

/// The verb that begins at `q`, if the three bytes there spell `ADD` or `DEL`.
pub open spec fn keyword_at(s: Seq<u8>, q: int) -> Option<Keyword> {
    if 0 <= q && q + 3 <= s.len() && s[q] == 65 && s[q + 1] == 68 && s[q + 2] == 68 {
        Some(Keyword::Add)
    } else if 0 <= q && q + 3 <= s.len() && s[q] == 68 && s[q + 1] == 69 && s[q + 2] == 76 {
        Some(Keyword::Del)
    } else {
        None
    }
}

/// A whole, well-formed header of version `v` (verb, for NRTMv3 a space and a serial,
/// then the end of its line and an empty line) begins at `q`.
pub open spec fn header_at(s: Seq<u8>, q: int, v: ProtocolVersion) -> bool {
    keyword_at(s, q) is Some && scan_header(s, q, v) is Ok
}

/// The first line start at or after the line start `q` where a header of version `v`
/// begins. Every other line is garbage to the operation, however it begins.
pub open spec fn find_operation(s: Seq<u8>, q: int, v: ProtocolVersion) -> Option<int>
    decreases s.len() - q,
{
    if q < 0 || q >= s.len() {
        None
    } else if header_at(s, q, v) {
        Some(q)
    } else {
        let e = line_end(s, q);
        if e >= s.len() {
            None
        } else {
            proof {
                lemma_line_end_bounds(s, q);
            }
            find_operation(s, e + 1, v)
        }
    }
}

/// The first line in `[q, p)` (with `q` a line start) that may not stand before an operation.
pub open spec fn first_garbage_line(s: Seq<u8>, q: int, p: int) -> Option<int>
    decreases s.len() - q,
{
    if q < 0 || q >= p || q >= s.len() {
        None
    } else if !is_ignorable_start(s[q]) {
        Some(q)
    } else {
        let e = line_end(s, q);
        if e >= s.len() {
            None
        } else {
            proof {
                lemma_line_end_bounds(s, q);
            }
            first_garbage_line(s, e + 1, p)
        }
    }
}

/// Where the byte at `i` fails to be `b`: `None` if it is `b`.
pub open spec fn expect_byte(s: Seq<u8>, i: int, b: u8) -> Option<int> {
    if i >= s.len() {
        Some(s.len() as int)
    } else if s[i] != b {
        Some(i)
    } else {
        None
    }
}

/// The fault of the object line that starts at `i` (with `s[i]` not a line feed),
/// `None` when the line begins as an object line may. The first line of an object
/// must be an attribute line.
pub open spec fn object_line_fault(s: Seq<u8>, i: int, first: bool) -> Option<int> {
    if is_letter(s[i]) {
        let e = name_end(s, i + 1);
        if e < s.len() && s[e] == COLON {
            None
        } else {
            Some(e)
        }
    } else if !first && is_follow_up_start(s[i]) {
        None
    } else {
        Some(i)
    }
}

/// Scans the object lines from the line start `i`: `Ok` with the position after the
/// empty line that ends the object, or `Err` with the position of the first fault.
pub open spec fn scan_object(s: Seq<u8>, i: int, first: bool) -> Result<int, int>
    decreases s.len() - i,
{
    if i < 0 || i >= s.len() {
        Err(s.len() as int)
    } else if s[i] == NL {
        if first {
            Err(i)
        } else {
            Ok(i + 1)
        }
    } else {
        match object_line_fault(s, i, first) {
            Some(f) => Err(f),
            None => {
                let e = line_end(s, i);
                if e >= s.len() {
                    Err(s.len() as int)
                } else {
                    proof {
                        lemma_line_end_bounds(s, i);
                    }
                    scan_object(s, e + 1, false)
                }
            },
        }
    }
}

/// An operation that fits the grammar, by the positions of its parts.
pub struct OperationShape {
    pub keyword: Keyword,
    /// The serial's digits `[start, end)` (NRTMv3 only).
    pub serial: Option<(int, int)>,
    /// Where the verb begins.
    pub start: int,
    /// Where the RPSL object begins.
    pub rpsl_start: int,
    /// The position after the empty line that ends the object.
    pub end: int,
}

/// The header of the operation whose verb begins at `p`: `Ok((serial, object start))`
/// or `Err` with the position of the first fault.
pub open spec fn scan_header(s: Seq<u8>, p: int, v: ProtocolVersion) -> Result<
    (Option<(int, int)>, int),
    int,
> {
    match v {
        ProtocolVersion::V2 => {
            if let Some(f) = expect_byte(s, p + 3, NL) {
                Err(f)
            } else if let Some(f) = expect_byte(s, p + 4, NL) {
                Err(f)
            } else {
                Ok((None, p + 5))
            }
        },
        ProtocolVersion::V3 => {
            let d = digits_end(s, p + 4);
            if let Some(f) = expect_byte(s, p + 3, SPACE) {
                Err(f)
            } else if d == p + 4 {
                Err(d)
            } else if let Some(f) = expect_byte(s, d, NL) {
                Err(f)
            } else if let Some(f) = expect_byte(s, d + 1, NL) {
                Err(f)
            } else {
                Ok((Some((p + 4, d)), d + 2))
            }
        },
    }
}

/// The operation whose verb begins at `p`.
pub open spec fn scan_operation(s: Seq<u8>, p: int, v: ProtocolVersion) -> Result<
    OperationShape,
    int,
> {
    match scan_header(s, p, v) {
        Err(f) => Err(f),
        Ok((serial, o)) => match scan_object(s, o, true) {
            Err(f) => Err(f),
            Ok(end) => Ok(
                OperationShape {
                    keyword: keyword_at(s, p)->0,
                    serial: serial,
                    start: p,
                    rpsl_start: o,
                    end: end,
                },
            ),
        },
    }
}

/// The value of a run of ASCII digits.
pub open spec fn decimal_value(d: Seq<u8>) -> nat
    decreases d.len(),
{
    if d.len() == 0 {
        0
    } else {
        decimal_value(d.drop_last()) * 10 + (d.last() - 48) as nat
    }
}

/// What the grammar makes of an input.
pub enum Outcome {
    /// The input ends before an operation is complete.
    Incomplete,
    /// The byte at this position does not fit the grammar.
    Broken(int),
    /// The operation fits, but a line in `[start, end)` before it may not stand there.
    Garbage(int, int),
    /// The operation fits, but its serial `[start, end)` does not fit in 64 bits.
    BadSerial(int, int),
    /// A complete operation.
    Parsed(OperationShape),
}

/// The meaning of an input under protocol version `v`.
pub open spec fn nrtm_outcome(s: Seq<u8>, v: ProtocolVersion) -> Outcome {
    match find_operation(s, 0, v) {
        None => Outcome::Incomplete,
        Some(p) => match scan_operation(s, p, v) {
            Err(f) => if f >= s.len() {
                Outcome::Incomplete
            } else {
                Outcome::Broken(f)
            },
            Ok(op) => match first_garbage_line(s, 0, p) {
                Some(g) => Outcome::Garbage(g, p),
                None => match op.serial {
                    Some((a, b)) => if decimal_value(s.subrange(a, b)) > u64::MAX {
                        Outcome::BadSerial(a, b)
                    } else {
                        Outcome::Parsed(op)
                    },
                    None => Outcome::Parsed(op),
                },
            },
        },
    }
}

/// Every object line after the first starts after a line feed, and an object ends with
/// an empty line.
pub proof fn lemma_scan_object_ok(s: Seq<u8>, i: int, first: bool)
    requires
        0 <= i,
        first || (i > 0 && s[i - 1] == NL),
    ensures
        scan_object(s, i, first) matches Ok(e) ==> {
            &&& i < e <= s.len()
            &&& e >= 2
            &&& s[e - 1] == NL
            &&& s[e - 2] == NL
            &&& (first ==> i + 2 < e && is_letter(s[i]))
        },
        scan_object(s, i, first) matches Err(f) ==> (i <= f <= s.len() || (i > s.len() && f
            == s.len())),
    decreases s.len() - i,
{
    if i < s.len() && s[i] != NL {
        lemma_name_end_bounds(s, i + 1);
        lemma_line_end_bounds(s, i);
        let e = line_end(s, i);
        if object_line_fault(s, i, first) is None && e < s.len() {
            lemma_scan_object_ok(s, e + 1, false);
        }
    }
}

/// The first garbage line starts a line, before the operation.
pub proof fn lemma_first_garbage_line(s: Seq<u8>, q: int, p: int)
    requires
        0 <= q,
        q == 0 || (q <= s.len() && s[q - 1] == NL),
    ensures
        first_garbage_line(s, q, p) matches Some(g) ==> {
            &&& q <= g < p
            &&& g < s.len()
            &&& (g == 0 || s[g - 1] == NL)
        },
    decreases s.len() - q,
{
    if q < p && q < s.len() && is_ignorable_start(s[q]) {
        lemma_line_end_bounds(s, q);
        let e = line_end(s, q);
        if e < s.len() {
            lemma_first_garbage_line(s, e + 1, p);
        }
    }
}

/// What a complete operation looks like, byte by byte, at its boundaries.
pub proof fn lemma_operation_facts(s: Seq<u8>, p: int, v: ProtocolVersion)
    requires
        0 <= p,
        keyword_at(s, p) is Some,
    ensures
        scan_operation(s, p, v) matches Ok(op) ==> {
            &&& op.start == p
            &&& op.keyword == keyword_at(s, p)->0
            &&& p + 5 <= op.rpsl_start
            &&& op.rpsl_start + 2 < op.end <= s.len()
            &&& s[op.rpsl_start - 1] == NL
            &&& s[op.rpsl_start - 2] == NL
            &&& is_letter(s[op.rpsl_start])
            &&& s[op.end - 1] == NL
            &&& s[op.end - 2] == NL
            &&& (op.serial is None <==> v == ProtocolVersion::V2)
            &&& (op.serial matches Some((a, b)) ==> {
                &&& a == p + 4
                &&& a < b
                &&& b + 2 == op.rpsl_start
                &&& forall|k: int| a <= k < b ==> is_digit(#[trigger] s[k])
            })
        },
        scan_operation(s, p, v) matches Err(f) ==> p + 3 <= f <= s.len(),
{
    if p + 4 <= s.len() {
        lemma_digits_end_bounds(s, p + 4);
    }
    match scan_header(s, p, v) {
        Ok((serial, o)) => {
            lemma_scan_object_ok(s, o, true);
        },
        Err(f) => {},
    }
}

/// The operation that the search finds starts a line and a whole header.
pub proof fn lemma_find_operation_found(s: Seq<u8>, q: int, v: ProtocolVersion)
    ensures
        find_operation(s, q, v) matches Some(p) ==> {
            &&& q <= p
            &&& p + 5 <= s.len()
            &&& keyword_at(s, p) is Some
            &&& header_at(s, p, v)
            &&& (0 <= q && (q == 0 || s[q - 1] == NL) ==> (p == 0 || s[p - 1] == NL))
        },
    decreases s.len() - q,
{
    if 0 <= q < s.len() {
        if header_at(s, q, v) {
            lemma_operation_facts(s, q, v);
            if v == ProtocolVersion::V3 {
                lemma_digits_end_bounds(s, q + 4);
            }
        } else {
            lemma_line_end_bounds(s, q);
            let e = line_end(s, q);
            if e < s.len() {
                lemma_find_operation_found(s, e + 1, v);
            }
        }
    }
}

/// A header's fault lies on its line or right after it; a whole header holds only
/// spaces, digits and line feeds after its verb.
pub proof fn lemma_header_facts(s: Seq<u8>, q: int, v: ProtocolVersion)
    requires
        0 <= q,
        keyword_at(s, q) is Some,
    ensures
        scan_header(s, q, v) matches Err(f) ==> q + 3 <= f <= line_end(s, q) + 1 && f
            <= s.len(),
        scan_header(s, q, v) matches Ok((_, o)) ==> {
            &&& q + 5 <= o <= s.len()
            &&& s[o - 1] == NL
            &&& s[o - 2] == NL
            &&& forall|j: int|
                q + 3 <= j < o ==> #[trigger] s[j] == SPACE || s[j] == NL || is_digit(s[j])
        },
{
    lemma_line_end_bounds(s, q);
    let e = line_end(s, q);
    assert(s[q] != NL && s[q + 1] != NL && s[q + 2] != NL);
    assert(e >= q + 3);
    if q + 4 <= s.len() {
        lemma_digits_end_bounds(s, q + 4);
    }
    if q + 3 < s.len() && s[q + 3] == NL {
        assert(e == q + 3);
    }
    if v == ProtocolVersion::V3 && q + 3 < s.len() && s[q + 3] == SPACE {
        let d = digits_end(s, q + 4);
        assert(forall|j: int| q <= j < d ==> s[j] != NL);
        if d < s.len() && s[d] == NL {
            assert(e == d) by {
                if e < d {
                    assert(s[e] == NL);
                }
            }
        } else {
            assert(e >= d) by {
                if e < d {
                    assert(s[e] == NL);
                }
            }
        }
    }
}

} // verus!
