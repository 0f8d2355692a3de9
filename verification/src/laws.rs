//! Laws of the grammar: what holds of every input, or between inputs.
use vstd::prelude::*;

use crate::grammar::{
    decimal_value, digits_end, expect_byte, find_operation, first_garbage_line, header_at,
    is_ignorable_start, is_letter, keyword_at, lemma_digits_end_bounds, lemma_find_operation_found,
    lemma_header_facts, lemma_line_end_bounds, lemma_name_end_bounds, lemma_operation_facts,
    lemma_scan_object_ok, line_end, name_end, nrtm_outcome, object_line_fault, scan_header,
    scan_object, scan_operation, OperationShape, Outcome, ProtocolVersion, NL, SPACE,
};

verus! {

/// `s2` holds the bytes `[lo, hi)` of `s1`, moved by `d`.
pub open spec fn agree(s1: Seq<u8>, s2: Seq<u8>, d: int, lo: int, hi: int) -> bool {
    &&& 0 <= lo <= hi <= s1.len()
    &&& 0 <= lo + d
    &&& hi + d <= s2.len()
    &&& forall|j: int| lo <= j < hi ==> s1[j] == s2[j + d]
}

/// `op` with every position moved by `d`.
pub open spec fn moved(op: OperationShape, d: int) -> OperationShape {
    OperationShape {
        keyword: op.keyword,
        serial: match op.serial {
            Some((a, b)) => Some((a + d, b + d)),
            None => None,
        },
        start: op.start + d,
        rpsl_start: op.rpsl_start + d,
        end: op.end + d,
    }
}

proof fn lemma_agree_narrow(s1: Seq<u8>, s2: Seq<u8>, d: int, lo: int, hi: int, lo2: int)
    requires
        agree(s1, s2, d, lo, hi),
        lo <= lo2 <= hi,
    ensures
        agree(s1, s2, d, lo2, hi),
{
}

proof fn lemma_line_end_agree(s1: Seq<u8>, s2: Seq<u8>, d: int, i: int, k: int)
    requires
        agree(s1, s2, d, i, k),
        line_end(s1, i) < k,
    ensures
        line_end(s2, i + d) == line_end(s1, i) + d,
    decreases s1.len() - i,
{
    if i < s1.len() {
        lemma_line_end_bounds(s1, i);
        assert(s1[i] == s2[i + d]);
        if s1[i] != NL {
            lemma_line_end_bounds(s1, i + 1);
            lemma_line_end_agree(s1, s2, d, i + 1, k);
        }
    }
}

proof fn lemma_name_end_agree(s1: Seq<u8>, s2: Seq<u8>, d: int, i: int, k: int)
    requires
        agree(s1, s2, d, i, k),
        name_end(s1, i) < k,
    ensures
        name_end(s2, i + d) == name_end(s1, i) + d,
    decreases s1.len() - i,
{
    if i < s1.len() {
        lemma_name_end_bounds(s1, i);
        assert(s1[i] == s2[i + d]);
        if crate::grammar::is_name_byte(s1[i]) {
            lemma_name_end_bounds(s1, i + 1);
            lemma_name_end_agree(s1, s2, d, i + 1, k);
        }
    }
}

proof fn lemma_digits_end_agree(s1: Seq<u8>, s2: Seq<u8>, d: int, i: int, k: int)
    requires
        agree(s1, s2, d, i, k),
        digits_end(s1, i) < k,
    ensures
        digits_end(s2, i + d) == digits_end(s1, i) + d,
    decreases s1.len() - i,
{
    if i < s1.len() {
        lemma_digits_end_bounds(s1, i);
        assert(s1[i] == s2[i + d]);
        if crate::grammar::is_digit(s1[i]) {
            lemma_digits_end_bounds(s1, i + 1);
            lemma_digits_end_agree(s1, s2, d, i + 1, k);
        }
    }
}

proof fn lemma_keyword_agree(s1: Seq<u8>, s2: Seq<u8>, d: int, q: int, k: int)
    requires
        agree(s1, s2, d, q, k),
        q + 3 <= k,
    ensures
        keyword_at(s2, q + d) == keyword_at(s1, q),
{
    assert(s1[q] == s2[q + d]);
    assert(s1[q + 1] == s2[q + 1 + d]);
    assert(s1[q + 2] == s2[q + 2 + d]);
}

/// Where the scan of an object stops short of `k`, it stops alike on any input that
/// holds the same bytes.
proof fn lemma_scan_object_agree(s1: Seq<u8>, s2: Seq<u8>, d: int, i: int, first: bool, k: int)
    requires
        agree(s1, s2, d, i, k),
        first || (i > 0 && s1[i - 1] == NL),
    ensures
        scan_object(s1, i, first) matches Ok(e) ==> (e <= k ==> scan_object(s2, i + d, first)
            == Ok::<int, int>(e + d)),
        scan_object(s1, i, first) matches Err(f) ==> (f < k ==> scan_object(s2, i + d, first)
            == Err::<int, int>(f + d)),
    decreases s1.len() - i,
{
    if i < s1.len() && i < k {
        assert(s1[i] == s2[i + d]);
        if s1[i] != NL {
            lemma_name_end_bounds(s1, i + 1);
            lemma_line_end_bounds(s1, i);
            if is_letter(s1[i]) && name_end(s1, i + 1) < k {
                lemma_name_end_agree(s1, s2, d, i + 1, k);
                let e = name_end(s1, i + 1);
                if e < s1.len() {
                    assert(s1[e] == s2[e + d]);
                }
            }
            let e = line_end(s1, i);
            if object_line_fault(s1, i, first) is None && e < s1.len() {
                lemma_scan_object_ok(s1, e + 1, false);
                if e < k {
                    lemma_line_end_agree(s1, s2, d, i, k);
                    lemma_scan_object_agree(s1, s2, d, e + 1, false, k);
                }
            }
        }
    } else if i < s1.len() {
        lemma_scan_object_ok(s1, i, first);
    }
}

proof fn lemma_expect_agree(s1: Seq<u8>, s2: Seq<u8>, d: int, lo: int, i: int, b: u8, k: int)
    requires
        agree(s1, s2, d, lo, k),
        lo <= i < k,
    ensures
        expect_byte(s2, i + d, b) == (match expect_byte(s1, i, b) {
            Some(f) => Some(f + d),
            None => None,
        }),
{
    assert(s1[i] == s2[i + d]);
}


/// A serial moved by `d`.
pub open spec fn moved_serial(serial: Option<(int, int)>, d: int) -> Option<(int, int)> {
    match serial {
        Some((a, b)) => Some((a + d, b + d)),
        None => None,
    }
}

/// Where the scan of a header stops short of `k`, it stops alike on any input that
/// holds the same bytes.
proof fn lemma_scan_header_agree(s1: Seq<u8>, s2: Seq<u8>, d: int, p: int, v: ProtocolVersion, k: int)
    requires
        agree(s1, s2, d, p, k),
        keyword_at(s1, p) is Some,
        p + 3 <= k,
    ensures
        scan_header(s1, p, v) matches Ok((serial, o)) ==> (o <= k ==> scan_header(s2, p + d, v)
            == Ok::<(Option<(int, int)>, int), int>((moved_serial(serial, d), o + d))),
        scan_header(s1, p, v) matches Err(f) ==> (f < k ==> scan_header(s2, p + d, v) == Err::<
            (Option<(int, int)>, int),
            int,
        >(f + d)),
{
    lemma_header_facts(s1, p, v);
    match v {
        ProtocolVersion::V2 => {
            if p + 3 < k {
                lemma_expect_agree(s1, s2, d, p, p + 3, NL, k);
            }
            if p + 4 < k {
                lemma_expect_agree(s1, s2, d, p, p + 4, NL, k);
            }
        },
        ProtocolVersion::V3 => {
            if p + 3 < k {
                lemma_expect_agree(s1, s2, d, p, p + 3, SPACE, k);
            }
            if p + 4 <= s1.len() {
                lemma_digits_end_bounds(s1, p + 4);
            }
            let e = digits_end(s1, p + 4);
            if p + 4 <= k && e < k {
                lemma_agree_narrow(s1, s2, d, p, k, p + 4);
                lemma_digits_end_agree(s1, s2, d, p + 4, k);
                lemma_expect_agree(s1, s2, d, p, e, NL, k);
                if e + 1 < k {
                    lemma_expect_agree(s1, s2, d, p, e + 1, NL, k);
                }
            }
        },
    }
}

/// Where the scan of an operation stops short of `k`, it stops alike on any input that
/// holds the same bytes.
proof fn lemma_scan_operation_agree(s1: Seq<u8>, s2: Seq<u8>, d: int, p: int, v: ProtocolVersion, k: int)
    requires
        agree(s1, s2, d, p, k),
        keyword_at(s1, p) is Some,
        p + 3 <= k,
    ensures
        scan_operation(s1, p, v) matches Ok(op) ==> (op.end <= k ==> scan_operation(
            s2,
            p + d,
            v,
        ) == Ok::<OperationShape, int>(moved(op, d))),
        scan_operation(s1, p, v) matches Err(f) ==> (f < k ==> scan_operation(s2, p + d, v)
            == Err::<OperationShape, int>(f + d)),
{
    lemma_keyword_agree(s1, s2, d, p, k);
    lemma_scan_header_agree(s1, s2, d, p, v, k);
    lemma_header_facts(s1, p, v);
    if let Ok((serial, o)) = scan_header(s1, p, v) {
        lemma_scan_object_ok(s1, o, true);
        if o <= k {
            lemma_agree_narrow(s1, s2, d, p, k, o);
            lemma_scan_object_agree(s1, s2, d, o, true, k);
        }
    }
}

/// The search for an operation ends alike on any input that holds the same bytes up
/// to the end of the header it finds.
proof fn lemma_find_operation_agree(s1: Seq<u8>, s2: Seq<u8>, q: int, v: ProtocolVersion, k: int)
    requires
        agree(s1, s2, 0, q, k),
        find_operation(s1, q, v) is Some,
        scan_header(s1, find_operation(s1, q, v)->0, v) matches Ok((_, o)) && o <= k,
    ensures
        find_operation(s2, q, v) == find_operation(s1, q, v),
    decreases s1.len() - q,
{
    lemma_find_operation_found(s1, q, v);
    let p = find_operation(s1, q, v)->0;
    lemma_header_facts(s1, p, v);
    lemma_keyword_agree(s1, s2, 0, q, k);
    if !header_at(s1, q, v) {
        lemma_line_end_bounds(s1, q);
        let e = line_end(s1, q);
        lemma_find_operation_found(s1, e + 1, v);
        assert(e < p);
        lemma_line_end_agree(s1, s2, 0, q, k);
        if keyword_at(s1, q) is Some {
            lemma_header_facts(s1, q, v);
            lemma_scan_header_agree(s1, s2, 0, q, v, k);
        }
        lemma_find_operation_agree(s1, s2, e + 1, v, k);
    } else {
        lemma_scan_header_agree(s1, s2, 0, q, v, k);
    }
}

/// On lines before `p` that hold no garbage, every line start is an ignorable one.
proof fn lemma_no_garbage_before(s: Seq<u8>, q0: int, p: int, q: int)
    requires
        0 <= q0 <= q < p,
        q < s.len(),
        q0 == 0 || s[q0 - 1] == NL,
        q == 0 || s[q - 1] == NL,
        first_garbage_line(s, q0, p) is None,
    ensures
        is_ignorable_start(s[q]),
    decreases s.len() - q0,
{
    if q0 < q {
        lemma_line_end_bounds(s, q0);
        let e = line_end(s, q0);
        assert(s[q - 1] == NL);
        assert(e <= q - 1);
        assert(is_ignorable_start(s[q0]));
        lemma_no_garbage_before(s, e + 1, p, q);
    }
}

/// The garbage check of the lines before the line start `p` ends alike on any input
/// that holds the same bytes before `p`.
proof fn lemma_first_garbage_agree(s1: Seq<u8>, s2: Seq<u8>, q: int, p: int)
    requires
        agree(s1, s2, 0, q, p),
        p == 0 || s1[p - 1] == NL,
    ensures
        first_garbage_line(s2, q, p) == first_garbage_line(s1, q, p),
    decreases s1.len() - q,
{
    if q < p && q < s1.len() {
        assert(s1[q] == s2[q]);
        if crate::grammar::is_ignorable_start(s1[q]) {
            lemma_line_end_bounds(s1, q);
            let e = line_end(s1, q);
            if e >= p {
                assert(s1[p - 1] != NL);
            }
            lemma_line_end_agree(s1, s2, 0, q, p);
            lemma_first_garbage_agree(s1, s2, e + 1, p);
        }
    }
}

/// When the reading of an input gives a verdict other than `Incomplete`, more bytes
/// after the input never change it: a complete operation remains that operation, and
/// an error remains that error.
pub proof fn law_verdict_survives_appending(s: Seq<u8>, t: Seq<u8>, v: ProtocolVersion)
    requires
        !(nrtm_outcome(s, v) is Incomplete),
    ensures
        nrtm_outcome(s + t, v) == nrtm_outcome(s, v),
{
    let s2 = s + t;
    let k = s.len() as int;
    assert(agree(s, s2, 0, 0, k));
    let p = find_operation(s, 0, v)->0;
    lemma_find_operation_found(s, 0, v);
    lemma_header_facts(s, p, v);
    lemma_find_operation_agree(s, s2, 0, v, k);
    lemma_agree_narrow(s, s2, 0, 0, k, p);
    lemma_scan_operation_agree(s, s2, 0, p, v, k);
    lemma_operation_facts(s, p, v);
    match scan_operation(s, p, v) {
        Ok(op) => {
            assert(agree(s, s2, 0, 0, p));
            lemma_first_garbage_agree(s, s2, 0, p);
            if let Some((a, b)) = op.serial {
                assert(s2.subrange(a, b) =~= s.subrange(a, b));
            }
        },
        Err(f) => {},
    }
}

/// While the reading of an input is `Incomplete`, nothing in it is wrong yet: whatever
/// bytes follow, a fault that they bring to light lies at or after the end of what was
/// read.
pub proof fn law_incomplete_has_no_fault_yet(s: Seq<u8>, t: Seq<u8>, v: ProtocolVersion, f: int)
    requires
        nrtm_outcome(s, v) is Incomplete,
        nrtm_outcome(s + t, v) == Outcome::Broken(f),
    ensures
        f >= s.len(),
{
    let s2 = s + t;
    let k = s.len() as int;
    let p = find_operation(s2, 0, v)->0;
    lemma_find_operation_found(s2, 0, v);
    lemma_header_facts(s2, p, v);
    lemma_operation_facts(s2, p, v);
    if let Ok((_, o)) = scan_header(s2, p, v) {
        lemma_scan_object_ok(s2, o, true);
        if o <= k {
            assert(agree(s2, s, 0, 0, k));
            lemma_find_operation_agree(s2, s, 0, v, k);
            if f < k {
                lemma_agree_narrow(s2, s, 0, 0, k, p);
                lemma_scan_operation_agree(s2, s, 0, p, v, k);
            }
        }
    }
}

/// An NRTMv3 operation is no NRTMv2 operation and the reverse: where one version reads
/// a whole operation, the other does not (its header line is garbage to the other).
pub proof fn law_versions_exclusive(s: Seq<u8>)
    ensures
        nrtm_outcome(s, ProtocolVersion::V3) is Parsed ==> !(nrtm_outcome(
            s,
            ProtocolVersion::V2,
        ) is Parsed),
{
    lemma_find_operation_found(s, 0, ProtocolVersion::V3);
    lemma_find_operation_found(s, 0, ProtocolVersion::V2);
    if nrtm_outcome(s, ProtocolVersion::V3) is Parsed && nrtm_outcome(s, ProtocolVersion::V2) is Parsed {
        let p3 = find_operation(s, 0, ProtocolVersion::V3)->0;
        let p2 = find_operation(s, 0, ProtocolVersion::V2)->0;
        if p2 < p3 {
            lemma_no_garbage_before(s, 0, p3, p2);
        } else if p3 < p2 {
            lemma_no_garbage_before(s, 0, p2, p3);
        }
    }
}

/// The text of a read operation, from its verb to the end of its object, reads alone
/// as the same operation.
pub proof fn law_operation_text_reads_alone(s: Seq<u8>, v: ProtocolVersion)
    ensures
        nrtm_outcome(s, v) matches Outcome::Parsed(op) ==> nrtm_outcome(
            s.subrange(op.start, op.end),
            v,
        ) == Outcome::Parsed(moved(op, -op.start)),
{
    if let Outcome::Parsed(op) = nrtm_outcome(s, v) {
        let p = op.start;
        let s2 = s.subrange(p, op.end);
        lemma_find_operation_found(s, 0, v);
        lemma_operation_facts(s, p, v);
        lemma_header_facts(s, p, v);
        assert(agree(s, s2, -p, p, op.end));
        lemma_keyword_agree(s, s2, -p, p, op.end);
        lemma_scan_header_agree(s, s2, -p, p, v, op.end);
        assert(header_at(s2, 0, v));
        assert(find_operation(s2, 0, v) == Some(0int));
        lemma_scan_operation_agree(s, s2, -p, p, v, op.end);
        if let Some((a, b)) = op.serial {
            assert(s2.subrange(a - p, b - p) =~= s.subrange(a, b));
        }
    }
}

/// What every read operation looks like: a whole header at a line start, an object
/// that begins with an attribute name and ends with an empty line, and nothing but
/// empty lines and comment lines before the verb.
pub proof fn law_parsed_operation_shape(s: Seq<u8>, v: ProtocolVersion)
    ensures
        nrtm_outcome(s, v) matches Outcome::Parsed(op) ==> {
            &&& keyword_at(s, op.start) == Some(op.keyword)
            &&& header_at(s, op.start, v)
            &&& (op.start == 0 || s[op.start - 1] == NL)
            &&& first_garbage_line(s, 0, op.start) is None
            &&& op.start + 5 <= op.rpsl_start
            &&& op.rpsl_start + 2 < op.end <= s.len()
            &&& s[op.rpsl_start - 2] == NL && s[op.rpsl_start - 1] == NL
            &&& is_letter(s[op.rpsl_start])
            &&& s[op.end - 2] == NL && s[op.end - 1] == NL
            &&& (op.serial is Some <==> v == ProtocolVersion::V3)
            &&& (op.serial matches Some((a, b)) ==> decimal_value(s.subrange(a, b)) <= u64::MAX)
        },
{
    lemma_find_operation_found(s, 0, v);
    if let Some(p) = find_operation(s, 0, v) {
        lemma_operation_facts(s, p, v);
    }
}

} // verus!

verus! {

proof fn lemma_line_end_append(s: Seq<u8>, t: Seq<u8>, j: int)
    requires
        0 <= j <= s.len(),
        line_end(s, j) == s.len(),
    ensures
        line_end(s + t, j) == s.len() + line_end(t, 0),
    decreases s.len() - j,
{
    let s2 = s + t;
    if j < s.len() {
        assert(s2[j] == s[j]);
        lemma_line_end_append(s, t, j + 1);
    } else {
        lemma_line_end_shift(s, t, 0);
    }
}

proof fn lemma_line_end_shift(s: Seq<u8>, t: Seq<u8>, j: int)
    requires
        0 <= j <= t.len(),
    ensures
        line_end(s + t, s.len() + j) == s.len() + line_end(t, j),
    decreases t.len() - j,
{
    let s2 = s + t;
    if j < t.len() {
        assert(s2[s.len() + j] == t[j]);
        lemma_line_end_shift(s, t, j + 1);
    }
}

proof fn lemma_name_end_append(s: Seq<u8>, t: Seq<u8>, j: int)
    requires
        0 <= j <= s.len(),
        name_end(s, j) == s.len(),
    ensures
        name_end(s + t, j) == s.len() + name_end(t, 0),
    decreases s.len() - j,
{
    let s2 = s + t;
    if j < s.len() {
        assert(s2[j] == s[j]);
        lemma_name_end_append(s, t, j + 1);
    } else {
        lemma_name_end_shift(s, t, 0);
    }
}

proof fn lemma_name_end_shift(s: Seq<u8>, t: Seq<u8>, j: int)
    requires
        0 <= j <= t.len(),
    ensures
        name_end(s + t, s.len() + j) == s.len() + name_end(t, j),
    decreases t.len() - j,
{
    let s2 = s + t;
    if j < t.len() {
        assert(s2[s.len() + j] == t[j]);
        lemma_name_end_shift(s, t, j + 1);
    }
}

proof fn lemma_digits_end_append(s: Seq<u8>, t: Seq<u8>, j: int)
    requires
        0 <= j <= s.len(),
        digits_end(s, j) == s.len(),
    ensures
        digits_end(s + t, j) == s.len() + digits_end(t, 0),
    decreases s.len() - j,
{
    let s2 = s + t;
    if j < s.len() {
        assert(s2[j] == s[j]);
        lemma_digits_end_append(s, t, j + 1);
    } else {
        lemma_digits_end_shift(s, t, 0);
    }
}

proof fn lemma_digits_end_shift(s: Seq<u8>, t: Seq<u8>, j: int)
    requires
        0 <= j <= t.len(),
    ensures
        digits_end(s + t, s.len() + j) == s.len() + digits_end(t, j),
    decreases t.len() - j,
{
    let s2 = s + t;
    if j < t.len() {
        assert(s2[s.len() + j] == t[j]);
        lemma_digits_end_shift(s, t, j + 1);
    }
}

/// A run of name bytes holds no line feed.
proof fn lemma_name_run_in_line(s: Seq<u8>, j: int)
    requires
        0 <= j <= s.len(),
        name_end(s, j) == s.len(),
    ensures
        line_end(s, j) == s.len(),
    decreases s.len() - j,
{
    if j < s.len() {
        lemma_name_run_in_line(s, j + 1);
    }
}

/// The smallest object: `a:` and the empty line.
pub open spec fn minimal_object() -> Seq<u8> {
    seq![97u8, 58u8, 10u8, 10u8]
}

/// An object that the input has begun but not ended can be ended by more bytes.
proof fn lemma_object_completion(s: Seq<u8>, i: int, first: bool) -> (t: Seq<u8>)
    requires
        0 <= i <= s.len(),
        scan_object(s, i, first) == Err::<int, int>(s.len() as int),
    ensures
        scan_object(s + t, i, first) is Ok,
    decreases s.len() - i,
{
    let n = s.len() as int;
    if i == n {
        if first {
            let t = minimal_object();
            let s2 = s + t;
            assert(s2[n] == 97u8 && s2[n + 1] == 58u8 && s2[n + 2] == NL && s2[n + 3] == NL);
            assert(name_end(s2, n + 1) == n + 1);
            assert(line_end(s2, n + 2) == n + 2);
            assert(line_end(s2, n + 1) == n + 2);
            assert(line_end(s2, n) == n + 2);
            assert(scan_object(s2, n + 3, false) == Ok::<int, int>(n + 4));
            t
        } else {
            let t = seq![NL];
            let s2 = s + t;
            assert(s2[n] == NL);
            t
        }
    } else {
        lemma_name_end_bounds(s, i + 1);
        lemma_line_end_bounds(s, i);
        let e = line_end(s, i);
        match object_line_fault(s, i, first) {
            Some(f) => {
                // the attribute name runs to the end of the input
                let t = seq![58u8, NL, NL];
                let s2 = s + t;
                lemma_name_end_append(s, t, i + 1);
                assert(name_end(t, 0) == 0);
                assert(s2[n] == 58u8);
                assert(s2[i] == s[i]);
                lemma_name_run_in_line(s, i + 1);
                lemma_line_end_append(s, t, i + 1);
                assert(line_end(t, 1) == 1);
                assert(line_end(t, 0) == 1);
                assert(line_end(s2, i) == n + 1);
                assert(s2[n + 2] == NL);
                assert(scan_object(s2, n + 2, false) == Ok::<int, int>(n + 3));
                t
            },
            None => {
                if e >= n {
                    let t = seq![NL, NL];
                    let s2 = s + t;
                    assert(s2[i] == s[i]);
                    assert(agree(s, s2, 0, i, n));
                    if is_letter(s[i]) {
                        lemma_name_end_agree(s, s2, 0, i + 1, n);
                        assert(s2[name_end(s, i + 1)] == s[name_end(s, i + 1)]);
                    }
                    lemma_line_end_append(s, t, i);
                    assert(line_end(t, 0) == 0);
                    assert(s2[n + 1] == NL);
                    assert(scan_object(s2, n + 1, false) == Ok::<int, int>(n + 2));
                    t
                } else {
                    let t = lemma_object_completion(s, e + 1, false);
                    let s2 = s + t;
                    assert(agree(s, s2, 0, i, n));
                    assert(s2[i] == s[i]);
                    if is_letter(s[i]) {
                        lemma_name_end_agree(s, s2, 0, i + 1, n);
                        assert(s2[name_end(s, i + 1)] == s[name_end(s, i + 1)]);
                    }
                    lemma_line_end_agree(s, s2, 0, i, n);
                    t
                }
            },
        }
    }
}

/// The byte `x`, a line feed, and a whole header of version `v`: the verb `ADD`, for
/// NRTMv3 the serial 1, and the empty line.
pub open spec fn operation_seed(v: ProtocolVersion) -> Seq<u8> {
    match v {
        ProtocolVersion::V2 => seq![120u8, NL, 65u8, 68u8, 68u8, NL, NL],
        ProtocolVersion::V3 => seq![120u8, NL, 65u8, 68u8, 68u8, SPACE, 49u8, NL, NL],
    }
}

proof fn lemma_operation_seed(v: ProtocolVersion)
    ensures
        header_at(operation_seed(v), 2, v),
        scan_header(operation_seed(v), 2, v) matches Ok((_, o)) && o == operation_seed(v).len(),
        operation_seed(v)[0] == 120u8,
        operation_seed(v)[1] == NL,
{
    let h = operation_seed(v);
    if v == ProtocolVersion::V3 {
        assert(digits_end(h, 7) == 7);
        assert(digits_end(h, 6) == 7);
    }
}

/// A header whose end the input lacks is no header once an `x` follows the input.
proof fn lemma_header_cut_by_x(s: Seq<u8>, t: Seq<u8>, q: int, v: ProtocolVersion)
    requires
        0 <= q <= s.len(),
        !header_at(s, q, v),
        t.len() > 0,
        t[0] == 120u8,
    ensures
        !header_at(s + t, q, v),
{
    let n = s.len() as int;
    let s2 = s + t;
    assert(s2[n] == 120u8);
    if header_at(s2, q, v) {
        lemma_header_facts(s2, q, v);
        let o = scan_header(s2, q, v)->Ok_0.1;
        if q + 3 <= n {
            assert(agree(s2, s, 0, q, n));
            lemma_keyword_agree(s2, s, 0, q, n);
            if o <= n {
                lemma_scan_header_agree(s2, s, 0, q, v, n);
            } else {
                assert(q + 3 <= n < o);
                assert(s2[n] == SPACE || s2[n] == NL || crate::grammar::is_digit(s2[n]));
                assert(false);
            }
        } else {
            assert(s2[q] == 65u8 || s2[q] == 68u8);
            assert(s2[q + 1] == 68u8 || s2[q + 1] == 69u8);
            assert(s2[q + 2] == 68u8 || s2[q + 2] == 76u8);
        }
    }
}

/// With no header in the input, the header of `operation_seed` after it is found.
proof fn lemma_find_operation_after(s: Seq<u8>, q: int, v: ProtocolVersion)
    requires
        0 <= q <= s.len(),
        find_operation(s, q, v) is None,
    ensures
        find_operation(s + operation_seed(v), q, v) == Some(s.len() + 2int),
    decreases s.len() - q,
{
    let n = s.len() as int;
    let h = operation_seed(v);
    let s2 = s + h;
    lemma_operation_seed(v);
    assert(agree(h, s2, n, 2, h.len() as int));
    lemma_keyword_agree(h, s2, n, 2, h.len() as int);
    lemma_scan_header_agree(h, s2, n, 2, v, h.len() as int);
    assert(header_at(s2, n + 2, v));
    assert(find_operation(s2, n + 2, v) == Some(n + 2));
    assert(s2[n] == 120u8 && s2[n + 1] == NL);
    if q == n {
        assert(keyword_at(s2, n) is None);
        assert(line_end(s2, n + 1) == n + 1);
        assert(line_end(s2, n) == n + 1);
    } else {
        lemma_line_end_bounds(s, q);
        let e = line_end(s, q);
        assert(!header_at(s, q, v));
        lemma_header_cut_by_x(s, h, q, v);
        assert(agree(s, s2, 0, q, n));
        if e < n {
            lemma_line_end_agree(s, s2, 0, q, n);
            lemma_find_operation_after(s, e + 1, v);
        } else {
            lemma_line_end_append(s, h, q);
            assert(line_end(h, 1) == 1);
            assert(line_end(h, 0) == 1);
            assert(line_end(s2, q) == n + 1);
            assert(find_operation(s2, q, v) == find_operation(s2, n + 2, v));
        }
    }
}

/// An outcome in which the grammar has read a whole operation (possibly with leading
/// garbage or an oversized serial).
pub open spec fn reads_as_operation(o: Outcome) -> bool {
    !(o is Incomplete) && !(o is Broken)
}

/// An `Incomplete` input is one that more bytes can make into an operation: with the
/// garbage-proof grammar, input without a header yet is `Incomplete` because an
/// operation may still follow it.
pub proof fn law_incomplete_can_be_completed(s: Seq<u8>, v: ProtocolVersion)
    requires
        nrtm_outcome(s, v) is Incomplete,
    ensures
        exists|t: Seq<u8>| reads_as_operation(#[trigger] nrtm_outcome(s + t, v)),
{
    lemma_find_operation_found(s, 0, v);
    if find_operation(s, 0, v) is None {
        let t = lemma_completion_without_header(s, v);
        assert(reads_as_operation(nrtm_outcome(s + t, v)));
    } else {
        let t = lemma_completion_with_header(s, v);
        assert(reads_as_operation(nrtm_outcome(s + t, v)));
    }
}

#[verifier::spinoff_prover]
#[verifier::rlimit(30)]
proof fn lemma_completion_without_header(s: Seq<u8>, v: ProtocolVersion) -> (t: Seq<u8>)
    requires
        find_operation(s, 0, v) is None,
    ensures
        reads_as_operation(nrtm_outcome(s + t, v)),
{
    let n = s.len() as int;
    let head = operation_seed(v);
    lemma_operation_seed(v);
    lemma_find_operation_after(s, 0, v);
    let s1 = s + head;
    let m = s1.len() as int;
    let p = n + 2;
    assert(agree(head, s1, n, 2, head.len() as int));
    lemma_keyword_agree(head, s1, n, 2, head.len() as int);
    lemma_scan_header_agree(head, s1, n, 2, v, head.len() as int);
    lemma_header_facts(s1, p, v);
    let rest = lemma_object_completion(s1, m, true);
    let s2 = s1 + rest;
    assert(agree(s1, s2, 0, 0, m));
    lemma_find_operation_agree(s1, s2, 0, v, m);
    lemma_agree_narrow(s1, s2, 0, 0, m, p);
    lemma_scan_header_agree(s1, s2, 0, p, v, m);
    assert(s + (head + rest) =~= s2);
    assert(scan_operation(s2, p, v) is Ok);
    head + rest
}

proof fn lemma_completion_with_header(s: Seq<u8>, v: ProtocolVersion) -> (t: Seq<u8>)
    requires
        find_operation(s, 0, v) is Some,
        nrtm_outcome(s, v) is Incomplete,
    ensures
        reads_as_operation(nrtm_outcome(s + t, v)),
{
    let n = s.len() as int;
    lemma_find_operation_found(s, 0, v);
    let p = find_operation(s, 0, v)->0;
    lemma_header_facts(s, p, v);
    lemma_operation_facts(s, p, v);
    let o = scan_header(s, p, v)->Ok_0.1;
    lemma_scan_object_ok(s, o, true);
    let rest = lemma_object_completion(s, o, true);
    let s2 = s + rest;
    assert(agree(s, s2, 0, 0, n));
    lemma_find_operation_agree(s, s2, 0, v, n);
    lemma_agree_narrow(s, s2, 0, 0, n, p);
    lemma_scan_header_agree(s, s2, 0, p, v, n);
    assert(scan_operation(s2, p, v) is Ok);
    rest
}

} // verus!

verus! {

/// Two spans with the same positions and text.
pub open spec fn same_span(a: crate::Span, b: crate::Span) -> bool {
    a.start_b == b.start_b && a.end_b == b.end_b && a.str@ == b.str@
}

/// Two readings with the same variant and the same fields (the `ParseIntError` that a
/// `MalformedSerial` carries aside).
pub open spec fn same_reading(
    r1: Result<crate::NRTMMessage, crate::ParseError>,
    r2: Result<crate::NRTMMessage, crate::ParseError>,
) -> bool {
    match (r1, r2) {
        (Ok(m1), Ok(m2)) => m1.update == m2.update && m1.rpsl@ == m2.rpsl@ && same_span(
            m1.span,
            m2.span,
        ),
        (Err(crate::ParseError::NoMatch), Err(crate::ParseError::NoMatch)) => true,
        (Err(crate::ParseError::Incomplete), Err(crate::ParseError::Incomplete)) => true,
        (Err(crate::ParseError::Parser(e1)), Err(crate::ParseError::Parser(e2))) => e1 == e2,
        (
            Err(crate::ParseError::MalformedSerial(a, _)),
            Err(crate::ParseError::MalformedSerial(b, _)),
        ) => same_span(a, b),
        (Err(crate::ParseError::LeadingGarbage(a)), Err(crate::ParseError::LeadingGarbage(b))) => {
            same_span(a, b)
        },
        _ => false,
    }
}

/// Two readings of chunks that are the same reading.
pub open spec fn same_chunk_reading(
    r1: Result<crate::NRTMMessage, crate::streaming::NRTMStreamError>,
    r2: Result<crate::NRTMMessage, crate::streaming::NRTMStreamError>,
) -> bool {
    match (r1, r2) {
        (Ok(m1), Ok(m2)) => same_reading(Ok(m1), Ok(m2)),
        (
            Err(crate::streaming::NRTMStreamError::Parser(e1)),
            Err(crate::streaming::NRTMStreamError::Parser(e2)),
        ) => same_reading(Err(e1), Err(e2)),
        _ => false,
    }
}

proof fn lemma_same_text(a: Seq<char>, b: Seq<char>)
    requires
        vstd::utf8::encode_utf8(a) == vstd::utf8::encode_utf8(b),
    ensures
        a == b,
{
    vstd::utf8::encode_utf8_decode_utf8(a);
    vstd::utf8::encode_utf8_decode_utf8(b);
}

/// The reading of an input is fixed by the input and the version: every reader of
/// version `v` (`NRTMV3Parser::try_parse`, `NRTMV2Parser::try_parse`, `try_parse_nrtm`)
/// gives the same variant with the same fields.
pub proof fn law_reading_is_determined(
    s: Seq<u8>,
    v: ProtocolVersion,
    r1: Result<crate::NRTMMessage, crate::ParseError>,
    r2: Result<crate::NRTMMessage, crate::ParseError>,
)
    requires
        crate::message::parse_agrees(s, v, r1),
        crate::message::parse_agrees(s, v, r2),
    ensures
        same_reading(r1, r2),
{
    match (r1, r2) {
        (Ok(m1), Ok(m2)) => {
            lemma_same_text(m1.rpsl@, m2.rpsl@);
            lemma_same_text(m1.span.str@, m2.span.str@);
        },
        (Err(crate::ParseError::MalformedSerial(a, _)), Err(crate::ParseError::MalformedSerial(b, _))) => {
            lemma_same_text(a.str@, b.str@);
        },
        (Err(crate::ParseError::LeadingGarbage(a)), Err(crate::ParseError::LeadingGarbage(b))) => {
            lemma_same_text(a.str@, b.str@);
        },
        _ => {},
    }
}

/// What a stream reader makes of a chunk depends on the chunk's bytes alone, never on
/// the chunks before it: the guessed character set, the decoded text and the reading
/// of that text are the same wherever in a stream the chunk stands.
pub proof fn law_chunk_reading_depends_on_chunk_alone(
    chunk: Seq<u8>,
    v: ProtocolVersion,
    t1: Seq<char>,
    t2: Seq<char>,
    r1: Result<crate::NRTMMessage, crate::streaming::NRTMStreamError>,
    r2: Result<crate::NRTMMessage, crate::streaming::NRTMStreamError>,
)
    requires
        t1 == crate::charset::decoded_text(
            crate::charset::guessed_charset(chunk, true, true, None, true),
            chunk,
        ),
        t2 == crate::charset::decoded_text(
            crate::charset::guessed_charset(chunk, true, true, None, true),
            chunk,
        ),
        crate::streaming::chunk_agrees(vstd::utf8::encode_utf8(t1), v, r1),
        crate::streaming::chunk_agrees(vstd::utf8::encode_utf8(t2), v, r2),
    ensures
        t1 == t2,
        same_chunk_reading(r1, r2),
{
    match (r1, r2) {
        (Ok(m1), Ok(m2)) => {
            law_reading_is_determined(vstd::utf8::encode_utf8(t1), v, Ok(m1), Ok(m2));
        },
        (Err(crate::streaming::NRTMStreamError::Parser(e1)), Err(crate::streaming::NRTMStreamError::Parser(e2))) => {
            law_reading_is_determined(vstd::utf8::encode_utf8(t1), v, Err(e1), Err(e2));
        },
        _ => {},
    }
}

} // verus!

verus! {

/// An outcome with every position moved by `d`.
pub open spec fn moved_outcome(o: Outcome, d: int) -> Outcome {
    match o {
        Outcome::Incomplete => Outcome::Incomplete,
        Outcome::Broken(f) => Outcome::Broken(f + d),
        Outcome::Garbage(a, b) => Outcome::Garbage(a + d, b + d),
        Outcome::BadSerial(a, b) => Outcome::BadSerial(a + d, b + d),
        Outcome::Parsed(op) => Outcome::Parsed(moved(op, d)),
    }
}

/// Empty lines and comment lines before an operation's header change nothing of its
/// reading: whatever the outcome (an operation, a fault, an oversized serial or more
/// input needed), the input from the header on reads the same, with its positions
/// moved to the header's start.
pub proof fn law_leading_comments_are_transparent(s: Seq<u8>, v: ProtocolVersion)
    ensures
        find_operation(s, 0, v) matches Some(p) ==> (first_garbage_line(s, 0, p) is None
            ==> nrtm_outcome(s.subrange(p, s.len() as int), v) == moved_outcome(
            nrtm_outcome(s, v),
            -p,
        )),
{
    if let Some(p) = find_operation(s, 0, v) {
        if first_garbage_line(s, 0, p) is None {
            let n = s.len() as int;
            let s2 = s.subrange(p, n);
            lemma_suffix_from_header(s, p, v);
            lemma_find_operation_found(s, 0, v);
            lemma_operation_facts(s, p, v);
            lemma_digits_end_bounds(s, p + 4);
            assert(first_garbage_line(s2, 0, 0) is None);
            match scan_operation(s, p, v) {
                Ok(op) => {
                    if let Some((a, b)) = op.serial {
                        assert(s2.subrange(a - p, b - p) =~= s.subrange(a, b));
                    }
                },
                Err(f) => {},
            }
        }
    }
}

/// The input from a header on finds that header first and scans it alike.
proof fn lemma_suffix_from_header(s: Seq<u8>, p: int, v: ProtocolVersion)
    requires
        find_operation(s, 0, v) == Some(p),
    ensures
        find_operation(s.subrange(p, s.len() as int), 0, v) == Some(0int),
        scan_operation(s, p, v) matches Ok(op) ==> scan_operation(
            s.subrange(p, s.len() as int),
            0,
            v,
        ) == Ok::<OperationShape, int>(moved(op, -p)),
        scan_operation(s, p, v) matches Err(f) ==> (f < s.len() ==> scan_operation(
            s.subrange(p, s.len() as int),
            0,
            v,
        ) == Err::<OperationShape, int>(f - p)),
        scan_operation(s, p, v) matches Err(f) ==> (f >= s.len() ==> (scan_operation(
            s.subrange(p, s.len() as int),
            0,
            v,
        ) matches Err(g) && g >= s.len() - p)),
{
    let n = s.len() as int;
    let s2 = s.subrange(p, n);
    let m = n - p;
    lemma_find_operation_found(s, 0, v);
    lemma_header_facts(s, p, v);
    lemma_operation_facts(s, p, v);
    assert(agree(s, s2, -p, p, n));
    lemma_keyword_agree(s, s2, -p, p, n);
    lemma_scan_header_agree(s, s2, -p, p, v, n);
    assert(header_at(s2, 0, v));
    lemma_scan_operation_agree(s, s2, -p, p, v, n);
    if scan_operation(s, p, v) matches Err(f) && f >= n {
        assert(agree(s2, s, p, 0, m));
        lemma_keyword_agree(s2, s, p, 0, m);
        lemma_scan_operation_agree(s2, s, p, 0, v, m);
        lemma_operation_facts(s2, 0, v);
    }
}

} // verus!

verus! {

/// An ASCII letter.
pub open spec fn ascii_letter(b: u8) -> bool {
    (65 <= b <= 90) || (97 <= b <= 122)
}

/// An RPSL attribute name: a letter, then letters, digits, `-` or `_`
/// (as in `inet6num`, `route6`, `mnt-by`).
pub open spec fn rpsl_attribute_name(name: Seq<u8>) -> bool {
    &&& name.len() >= 1
    &&& ascii_letter(name[0])
    &&& forall|k: int|
        1 <= k < name.len() ==> {
            let b = #[trigger] name[k];
            ascii_letter(b) || (48 <= b <= 57) || b == 45 || b == 95
        }
}

/// The header `ADD` (NRTMv2) or `ADD 1` (NRTMv3), with the empty line after it.
pub open spec fn add_header(v: ProtocolVersion) -> Seq<u8> {
    match v {
        ProtocolVersion::V2 => seq![65u8, 68u8, 68u8, NL, NL],
        ProtocolVersion::V3 => seq![65u8, 68u8, 68u8, SPACE, 49u8, NL, NL],
    }
}

proof fn lemma_name_run(s: Seq<u8>, i: int, j: int)
    requires
        0 <= i <= j <= s.len(),
        forall|k: int| i <= k < j ==> crate::grammar::is_name_byte(#[trigger] s[k]),
        j == s.len() || !crate::grammar::is_name_byte(s[j]),
    ensures
        name_end(s, i) == j,
    decreases j - i,
{
    if i < j {
        lemma_name_run(s, i + 1, j);
    }
}

proof fn lemma_line_run(s: Seq<u8>, i: int, j: int)
    requires
        0 <= i <= j <= s.len(),
        forall|k: int| i <= k < j ==> #[trigger] s[k] != NL,
        j == s.len() || s[j] == NL,
    ensures
        line_end(s, i) == j,
    decreases j - i,
{
    if i < j {
        lemma_line_run(s, i + 1, j);
    }
}

/// A line (without its line feed) that holds no line feed.
pub open spec fn one_line(l: Seq<u8>) -> bool {
    forall|k: int| 0 <= k < l.len() ==> #[trigger] l[k] != NL
}

/// An attribute line: an RPSL attribute name, `:`, and a value.
pub open spec fn attribute_line(l: Seq<u8>) -> bool {
    &&& one_line(l)
    &&& exists|c: int|
        #![trigger l[c]]
        1 <= c < l.len() && rpsl_attribute_name(l.subrange(0, c)) && l[c] == 58u8
}

/// A line that may follow the first line of an object: an attribute line, a
/// continuation line (a space, a tab or `+` first) or a comment line (`#` first).
pub open spec fn later_object_line(l: Seq<u8>) -> bool {
    ||| attribute_line(l)
    ||| (one_line(l) && l.len() >= 1 && (l[0] == SPACE || l[0] == 9u8 || l[0] == 43u8
        || l[0] == 35u8))
}

/// A line that may stand before an operation: empty, or a `%` or `#` comment.
pub open spec fn prelude_line(l: Seq<u8>) -> bool {
    one_line(l) && (l.len() == 0 || l[0] == 37u8 || l[0] == 35u8)
}

/// Lines, each ended by a line feed.
pub open spec fn lines_text(ls: Seq<Seq<u8>>) -> Seq<u8>
    decreases ls.len(),
{
    if ls.len() == 0 {
        Seq::empty()
    } else {
        ls[0] + seq![NL] + lines_text(ls.skip(1))
    }
}

/// The bytes of `l` and the line feed after it stand at `i` in `a + (l + NL) + r`.
proof fn lemma_line_in(a: Seq<u8>, l: Seq<u8>, r: Seq<u8>)
    ensures
        ({
            let s = a + (l + seq![NL]) + r;
            &&& forall|k: int| 0 <= k < l.len() ==> s[a.len() + k] == l[k]
            &&& s[(a.len() + l.len()) as int] == NL
            &&& s =~= (a + l + seq![NL]) + r
        }),
{
    let s = a + (l + seq![NL]) + r;
    assert forall|k: int| 0 <= k < l.len() implies s[a.len() + k] == l[k] by {
        assert((l + seq![NL])[k] == l[k]);
    }
    assert((l + seq![NL])[l.len() as int] == NL);
}

/// A valid object line at `i` is accepted and ends at its line feed.
proof fn lemma_object_line_at(s: Seq<u8>, i: int, l: Seq<u8>, first: bool)
    requires
        0 <= i,
        i + l.len() < s.len(),
        forall|k: int| 0 <= k < l.len() ==> s[i + k] == l[k],
        s[i + l.len()] == NL,
        first ==> attribute_line(l),
        !first ==> later_object_line(l),
    ensures
        s[i] != NL,
        object_line_fault(s, i, first) is None,
        line_end(s, i) == i + l.len(),
{
    assert(one_line(l));
    assert(l.len() >= 1) by {
        if attribute_line(l) {
            let c = choose|c: int| #![trigger l[c]] 1 <= c < l.len() && rpsl_attribute_name(l.subrange(0, c)) && l[c] == 58u8;
        }
    }
    assert(s[i] == l[0]);
    assert forall|k: int| i <= k < i + l.len() implies #[trigger] s[k] != NL by {
        assert(s[k] == l[k - i]);
    }
    lemma_line_run(s, i, i + l.len());
    if attribute_line(l) {
        let c = choose|c: int| #![trigger l[c]] 1 <= c < l.len() && rpsl_attribute_name(l.subrange(0, c)) && l[c] == 58u8;
        let name = l.subrange(0, c);
        assert(name[0] == l[0]);
        assert forall|k: int| i + 1 <= k < i + c implies crate::grammar::is_name_byte(#[trigger] s[k]) by {
            assert(s[k] == l[k - i]);
            assert(name[k - i] == l[k - i]);
        }
        assert(s[i + c] == 58u8);
        lemma_name_run(s, i + 1, i + c);
    }
}

/// The object made of `ls` and the empty line after them is scanned to its end.
proof fn lemma_object_lines(a: Seq<u8>, ls: Seq<Seq<u8>>, b: Seq<u8>, first: bool)
    requires
        b.len() >= 1,
        b[0] == NL,
        first ==> ls.len() >= 1 && attribute_line(ls[0]),
        forall|j: int| 0 <= j < ls.len() ==> (j > 0 || !first) ==> later_object_line(
            #[trigger] ls[j],
        ),
        !first ==> a.len() >= 1 && a[a.len() - 1] == NL,
    ensures
        scan_object(a + lines_text(ls) + b, a.len() as int, first) == Ok::<int, int>(
            (a.len() + lines_text(ls).len() + 1) as int,
        ),
    decreases ls.len(),
{
    let s = a + lines_text(ls) + b;
    if ls.len() == 0 {
        assert(s[a.len() as int] == b[0]);
    } else {
        let l = ls[0];
        let rest = ls.skip(1);
        assert(lines_text(ls) == l + seq![NL] + lines_text(rest));
        let r = lines_text(rest) + b;
        assert(s =~= a + (l + seq![NL]) + r);
        lemma_line_in(a, l, r);
        lemma_object_line_at(s, a.len() as int, l, first);
        let a2 = a + l + seq![NL];
        assert(s =~= a2 + lines_text(rest) + b);
        assert forall|j: int| 0 <= j < rest.len() implies later_object_line(#[trigger] rest[j]) by {
            assert(rest[j] == ls[j + 1]);
        }
        assert(a2[a2.len() - 1] == NL);
        lemma_object_lines(a2, rest, b, false);
    }
}

/// The lines of a prelude hold no header and no garbage: the search for an operation
/// and the garbage check step over them.
proof fn lemma_prelude_lines(a: Seq<u8>, ps: Seq<Seq<u8>>, r: Seq<u8>, v: ProtocolVersion, p: int)
    requires
        forall|j: int| 0 <= j < ps.len() ==> prelude_line(#[trigger] ps[j]),
        p == a.len() + lines_text(ps).len(),
    ensures
        find_operation(a + lines_text(ps) + r, a.len() as int, v) == find_operation(
            a + lines_text(ps) + r,
            p,
            v,
        ),
        first_garbage_line(a + lines_text(ps) + r, a.len() as int, p) == first_garbage_line(
            a + lines_text(ps) + r,
            p,
            p,
        ),
    decreases ps.len(),
{
    let s = a + lines_text(ps) + r;
    if ps.len() > 0 {
        let l = ps[0];
        let rest = ps.skip(1);
        assert(lines_text(ps) == l + seq![NL] + lines_text(rest));
        let r2 = lines_text(rest) + r;
        assert(s =~= a + (l + seq![NL]) + r2);
        lemma_line_in(a, l, r2);
        let i = a.len() as int;
        assert(prelude_line(l));
        assert forall|k: int| i <= k < i + l.len() implies #[trigger] s[k] != NL by {
            assert(s[k] == l[k - i]);
        }
        lemma_line_run(s, i, i + l.len());
        if l.len() > 0 {
            assert(s[i] == l[0]);
        }
        assert(keyword_at(s, i) is None);
        assert(is_ignorable_start(s[i]));
        let a2 = a + l + seq![NL];
        assert(s =~= a2 + lines_text(rest) + r);
        assert forall|j: int| 0 <= j < rest.len() implies prelude_line(#[trigger] rest[j]) by {
            assert(rest[j] == ps[j + 1]);
        }
        lemma_prelude_lines(a2, rest, r, v, p);
    }
}

/// The serial span of the `ADD` header that begins at `p`.
pub open spec fn add_header_serial(v: ProtocolVersion, p: int) -> Option<(int, int)> {
    match v {
        ProtocolVersion::V2 => None,
        ProtocolVersion::V3 => Some((p + 4, p + 5)),
    }
}

/// After a prelude, an `ADD` header is where the operation begins: it is found, nothing
/// before it is garbage, and the object begins right after it.
proof fn lemma_add_header_after_prelude(prelude: Seq<Seq<u8>>, v: ProtocolVersion, r: Seq<u8>)
    requires
        forall|j: int| 0 <= j < prelude.len() ==> prelude_line(#[trigger] prelude[j]),
    ensures
        ({
            let p = lines_text(prelude).len() as int;
            let h = add_header(v);
            let s = lines_text(prelude) + h + r;
            &&& keyword_at(s, p) == Some(crate::grammar::Keyword::Add)
            &&& scan_header(s, p, v) == Ok::<(Option<(int, int)>, int), int>(
                (add_header_serial(v, p), p + h.len()),
            )
            &&& find_operation(s, 0, v) == Some(p)
            &&& first_garbage_line(s, 0, p) is None
            &&& v == ProtocolVersion::V3 ==> decimal_value(s.subrange(p + 4, p + 5)) == 1
            &&& s[p + h.len() - 1] == NL
        }),
{
    let pre = lines_text(prelude);
    let p = pre.len() as int;
    let h = add_header(v);
    let s = pre + h + r;
    assert(keyword_at(h, 0) == Some(crate::grammar::Keyword::Add));
    match v {
        ProtocolVersion::V2 => {
            assert(scan_header(h, 0, v) == Ok::<(Option<(int, int)>, int), int>((None, 5)));
        },
        ProtocolVersion::V3 => {
            assert(digits_end(h, 5) == 5);
            assert(digits_end(h, 4) == 5);
            assert(scan_header(h, 0, v) == Ok::<(Option<(int, int)>, int), int>(
                (Some((4, 5)), 7),
            ));
        },
    }
    assert forall|j: int| 0 <= j < h.len() implies h[j] == s[j + p] by {
        assert(s[j + p] == (pre + h)[j + p]);
    }
    assert(agree(h, s, p, 0, h.len() as int));
    lemma_keyword_agree(h, s, p, 0, h.len() as int);
    lemma_scan_header_agree(h, s, p, 0, v, h.len() as int);
    assert(header_at(s, p, v));
    assert(s =~= Seq::<u8>::empty() + pre + (h + r));
    lemma_prelude_lines(Seq::<u8>::empty(), prelude, h + r, v, p);
    assert(find_operation(s, p, v) == Some(p));
    assert(s[p + h.len() - 1] == h[h.len() - 1]);
    if v == ProtocolVersion::V3 {
        let d = seq![49u8];
        assert(s[p + 4] == h[4]);
        assert(s.subrange(p + 4, p + 5) =~= d);
        assert(d.drop_last() =~= Seq::<u8>::empty());
        assert(decimal_value(Seq::<u8>::empty()) == 0);
        assert(decimal_value(d) == decimal_value(d.drop_last()) * 10 + 1);
    }
}

/// An operation made of empty and comment lines, an `ADD` header and an RPSL object
/// whose lines are an attribute line (any RPSL attribute name, digits included as in
/// `inet6num` or `route6`), then attribute, continuation or comment lines, and the empty
/// line that ends it, reads as that complete operation: it starts at the header, its
/// object is everything after the header, and it ends with the input.
pub proof fn law_object_of_rpsl_lines_reads(
    v: ProtocolVersion,
    prelude: Seq<Seq<u8>>,
    lines: Seq<Seq<u8>>,
)
    requires
        forall|j: int| 0 <= j < prelude.len() ==> prelude_line(#[trigger] prelude[j]),
        lines.len() >= 1,
        attribute_line(lines[0]),
        forall|j: int| 1 <= j < lines.len() ==> later_object_line(#[trigger] lines[j]),
    ensures
        ({
            let p = lines_text(prelude).len() as int;
            let h = add_header(v);
            let s = lines_text(prelude) + h + lines_text(lines) + seq![NL];
            nrtm_outcome(s, v) == Outcome::Parsed(
                OperationShape {
                    keyword: crate::grammar::Keyword::Add,
                    serial: add_header_serial(v, p),
                    start: p,
                    rpsl_start: p + h.len(),
                    end: s.len() as int,
                },
            )
        }),
{
    let pre = lines_text(prelude);
    let p = pre.len() as int;
    let h = add_header(v);
    let obj = lines_text(lines);
    let tail = seq![NL];
    let s = pre + h + obj + tail;
    assert(s =~= pre + h + (obj + tail));
    lemma_add_header_after_prelude(prelude, v, obj + tail);
    assert(s =~= (pre + h) + obj + tail);
    assert((pre + h)[(pre + h).len() - 1] == NL);
    lemma_object_lines(pre + h, lines, tail, true);
    assert(scan_object(s, p + h.len(), true) == Ok::<int, int>(s.len() as int));
}

/// An object whose first line begins with an RPSL attribute name followed by a byte
/// that can neither continue the name nor be the `:` after it is refused, and the fault
/// is that byte, right after the name.
pub proof fn law_name_without_colon_is_refused(
    v: ProtocolVersion,
    prelude: Seq<Seq<u8>>,
    name: Seq<u8>,
    b: u8,
    rest: Seq<u8>,
)
    requires
        forall|j: int| 0 <= j < prelude.len() ==> prelude_line(#[trigger] prelude[j]),
        rpsl_attribute_name(name),
        !ascii_letter(b),
        !(48 <= b <= 57),
        b != 45u8,
        b != 95u8,
        b != 58u8,
    ensures
        ({
            let p = lines_text(prelude).len() as int;
            let h = add_header(v);
            let s = lines_text(prelude) + h + name + seq![b] + rest;
            nrtm_outcome(s, v) == Outcome::Broken(p + h.len() + name.len())
        }),
{
    let pre = lines_text(prelude);
    let p = pre.len() as int;
    let h = add_header(v);
    let r = name + seq![b] + rest;
    let s = pre + h + name + seq![b] + rest;
    assert(s =~= pre + h + r);
    lemma_add_header_after_prelude(prelude, v, r);
    let o = p + h.len();
    let e = o + name.len();
    assert forall|k: int| 0 <= k < name.len() implies s[o + k] == name[k] by {
        assert(s[o + k] == r[k]);
    }
    assert(s[e] == b) by {
        assert(s[e] == r[name.len() as int]);
    }
    assert(s[o] == name[0]);
    assert forall|k: int| o + 1 <= k < e implies crate::grammar::is_name_byte(#[trigger] s[k]) by {
        assert(s[k] == name[k - o]);
    }
    lemma_name_run(s, o + 1, e);
    assert(object_line_fault(s, o, true) == Some(e));
    assert(scan_object(s, o, true) == Err::<int, int>(e));
}

} // verus!
