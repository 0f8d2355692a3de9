//! An executable scanner for the grammar of `grammar`, proved to compute it.
use vstd::prelude::*;

use crate::grammar::{
    digits_end, expect_byte, find_operation, first_garbage_line, is_digit, is_follow_up_start,
    is_ignorable_start, is_letter, is_name_byte, keyword_at, lemma_digits_end_bounds,
    lemma_find_operation_found, lemma_line_end_bounds, lemma_scan_object_ok, line_end, name_end,
    nrtm_outcome, scan_header, scan_object, scan_operation, Keyword, OperationShape, Outcome,
    ProtocolVersion, COLON, HASH, NL, PERCENT, PLUS, SPACE, TAB,
};

verus! {

fn letter(b: u8) -> (r: bool)
    ensures
        r == is_letter(b),
{
    (65 <= b && b <= 90) || (97 <= b && b <= 122)
}

fn digit(b: u8) -> (r: bool)
    ensures
        r == is_digit(b),
{
    48 <= b && b <= 57
}

fn name_byte(b: u8) -> (r: bool)
    ensures
        r == is_name_byte(b),
{
    letter(b) || digit(b) || b == 45 || b == 95
}

fn ignorable_start(b: u8) -> (r: bool)
    ensures
        r == is_ignorable_start(b),
{
    b == NL || b == PERCENT || b == HASH
}

fn follow_up_start(b: u8) -> (r: bool)
    ensures
        r == is_follow_up_start(b),
{
    b == SPACE || b == TAB || b == PLUS || b == HASH
}

/// Position of the next line feed at or after `i`, or the length of `s`.
fn find_line_end(s: &[u8], i: usize) -> (e: usize)
    requires
        i <= s@.len(),
    ensures
        e == line_end(s@, i as int),
{
    let mut j = i;
    while j < s.len() && s[j] != NL
        invariant
            i <= j <= s@.len(),
            line_end(s@, j as int) == line_end(s@, i as int),
        decreases s@.len() - j,
    {
        j = j + 1;
    }
    j
}

fn find_name_end(s: &[u8], i: usize) -> (e: usize)
    requires
        i <= s@.len(),
    ensures
        e == name_end(s@, i as int),
{
    let mut j = i;
    while j < s.len() && name_byte(s[j])
        invariant
            i <= j <= s@.len(),
            name_end(s@, j as int) == name_end(s@, i as int),
        decreases s@.len() - j,
    {
        j = j + 1;
    }
    j
}

fn find_digits_end(s: &[u8], i: usize) -> (e: usize)
    requires
        i <= s@.len(),
    ensures
        e == digits_end(s@, i as int),
{
    let mut j = i;
    while j < s.len() && digit(s[j])
        invariant
            i <= j <= s@.len(),
            digits_end(s@, j as int) == digits_end(s@, i as int),
        decreases s@.len() - j,
    {
        j = j + 1;
    }
    j
}

fn keyword(s: &[u8], q: usize) -> (r: Option<Keyword>)
    ensures
        r == keyword_at(s@, q as int),
{
    if q < s.len() && s.len() - q >= 3 {
        if s[q] == 65 && s[q + 1] == 68 && s[q + 2] == 68 {
            return Some(Keyword::Add);
        }
        if s[q] == 68 && s[q + 1] == 69 && s[q + 2] == 76 {
            return Some(Keyword::Del);
        }
    }
    None
}

fn check_byte(s: &[u8], i: usize, b: u8) -> (r: Option<usize>)
    requires
        i <= s@.len(),
    ensures
        r matches Some(f) ==> expect_byte(s@, i as int, b) == Some(f as int),
        r is None ==> expect_byte(s@, i as int, b) is None,
{
    if i >= s.len() {
        Some(s.len())
    } else if s[i] != b {
        Some(i)
    } else {
        None
    }
}

/// The lifted form of a scan result over positions.
pub open spec fn positions(r: Result<usize, usize>) -> Result<int, int> {
    match r {
        Ok(e) => Ok(e as int),
        Err(f) => Err(f as int),
    }
}

fn scan_object_at(s: &[u8], start: usize) -> (r: Result<usize, usize>)
    requires
        start <= s@.len(),
    ensures
        positions(r) == scan_object(s@, start as int, true),
{
    let mut i = start;
    let mut first = true;
    loop
        invariant
            i <= s@.len(),
            scan_object(s@, start as int, true) == scan_object(s@, i as int, first),
        decreases s@.len() - i,
    {
        if i >= s.len() {
            return Err(s.len());
        }
        if s[i] == NL {
            if first {
                return Err(i);
            } else {
                return Ok(i + 1);
            }
        }
        let b = s[i];
        if letter(b) {
            let e = find_name_end(s, i + 1);
            if !(e < s.len() && s[e] == COLON) {
                return Err(e);
            }
        } else if !first && follow_up_start(b) {
        } else {
            return Err(i);
        }
        let e = find_line_end(s, i);
        proof {
            lemma_line_end_bounds(s@, i as int);
        }
        if e >= s.len() {
            return Err(s.len());
        }
        i = e + 1;
        first = false;
    }
}

/// An operation found by the scanner, by the byte positions of its parts.
pub struct ScannedOperation {
    pub keyword: Keyword,
    pub serial: Option<(usize, usize)>,
    pub start: usize,
    pub rpsl_start: usize,
    pub end: usize,
}

impl ScannedOperation {
    pub open spec fn shape(&self) -> OperationShape {
        OperationShape {
            keyword: self.keyword,
            serial: match self.serial {
                Some((a, b)) => Some((a as int, b as int)),
                None => None,
            },
            start: self.start as int,
            rpsl_start: self.rpsl_start as int,
            end: self.end as int,
        }
    }
}

fn scan_header_at(s: &[u8], p: usize, v: ProtocolVersion) -> (r: Result<
    (Option<(usize, usize)>, usize),
    usize,
>)
    requires
        p + 3 <= s@.len(),
    ensures
        match (r, scan_header(s@, p as int, v)) {
            (Ok((None, o)), Ok((None, o2))) => o as int == o2,
            (Ok((Some((a, b)), o)), Ok((Some((a2, b2)), o2))) => a as int == a2 && b as int
                == b2 && o as int == o2,
            (Err(f), Err(f2)) => f as int == f2,
            _ => false,
        },
        r matches Ok((_, o)) ==> o <= s@.len(),
        r matches Ok((Some((a, b)), _)) ==> a <= b <= s@.len(),
{
    let n = s.len();
    assert(p + 3 <= n);
    match v {
        ProtocolVersion::V2 => {
            if let Some(f) = check_byte(s, p + 3, NL) {
                return Err(f);
            }
            if let Some(f) = check_byte(s, p + 4, NL) {
                return Err(f);
            }
            Ok((None, p + 5))
        },
        ProtocolVersion::V3 => {
            if let Some(f) = check_byte(s, p + 3, SPACE) {
                return Err(f);
            }
            let d = find_digits_end(s, p + 4);
            proof {
                lemma_digits_end_bounds(s@, p + 4);
            }
            if d == p + 4 {
                return Err(d);
            }
            if let Some(f) = check_byte(s, d, NL) {
                return Err(f);
            }
            if let Some(f) = check_byte(s, d + 1, NL) {
                return Err(f);
            }
            Ok((Some((p + 4, d)), d + 2))
        },
    }
}

fn scan_operation_at(s: &[u8], p: usize, v: ProtocolVersion) -> (r: Result<
    ScannedOperation,
    usize,
>)
    requires
        keyword_at(s@, p as int) is Some,
    ensures
        match (r, scan_operation(s@, p as int, v)) {
            (Ok(op), Ok(shape)) => op.shape() == shape,
            (Err(f), Err(f2)) => f as int == f2,
            _ => false,
        },
        r matches Ok(op) ==> op.start <= op.rpsl_start <= op.end <= s@.len(),
        r matches Ok(op) ==> (op.serial matches Some((a, b)) ==> a <= b <= s@.len()),
{
    let kw = keyword(s, p);
    match scan_header_at(s, p, v) {
        Err(f) => Err(f),
        Ok((serial, o)) => match scan_object_at(s, o) {
            Err(f) => Err(f),
            Ok(end) => {
                proof {
                    lemma_scan_object_ok(s@, o as int, true);
                }
                Ok(
                    ScannedOperation {
                        keyword: kw.unwrap(),
                        serial: serial,
                        start: p,
                        rpsl_start: o,
                        end: end,
                    },
                )
            },
        },
    }
}

fn locate_operation(s: &[u8], v: ProtocolVersion) -> (r: Option<usize>)
    ensures
        match (r, find_operation(s@, 0, v)) {
            (Some(p), Some(p2)) => p as int == p2,
            (None, None) => true,
            _ => false,
        },
{
    let n = s.len();
    let mut q: usize = 0;
    loop
        invariant
            n == s@.len(),
            q <= n,
            find_operation(s@, 0, v) == find_operation(s@, q as int, v),
        decreases n - q,
    {
        if q >= n {
            return None;
        }
        if keyword(s, q).is_some() && scan_header_at(s, q, v).is_ok() {
            return Some(q);
        }
        let e = find_line_end(s, q);
        proof {
            lemma_line_end_bounds(s@, q as int);
        }
        if e >= n {
            return None;
        }
        q = e + 1;
    }
}

fn locate_garbage(s: &[u8], p: usize) -> (r: Option<usize>)
    requires
        p <= s@.len(),
    ensures
        match (r, first_garbage_line(s@, 0, p as int)) {
            (Some(g), Some(g2)) => g as int == g2,
            (None, None) => true,
            _ => false,
        },
{
    let n = s.len();
    let mut q: usize = 0;
    loop
        invariant
            n == s@.len(),
            p <= n,
            q <= n,
            first_garbage_line(s@, 0, p as int) == first_garbage_line(s@, q as int, p as int),
        decreases n - q,
    {
        if q >= p || q >= n {
            return None;
        }
        if !ignorable_start(s[q]) {
            return Some(q);
        }
        let e = find_line_end(s, q);
        proof {
            lemma_line_end_bounds(s@, q as int);
        }
        if e >= n {
            return None;
        }
        q = e + 1;
    }
}

/// What the scanner makes of an input; a complete operation may still carry a
/// serial that does not fit in 64 bits.
pub enum GrammarScan {
    Incomplete,
    Broken(usize),
    Garbage(usize, usize),
    Complete(ScannedOperation),
}

/// `r` is what the grammar makes of `s` under version `v`.
pub open spec fn scan_agrees(s: Seq<u8>, v: ProtocolVersion, r: GrammarScan) -> bool {
    match r {
        GrammarScan::Incomplete => nrtm_outcome(s, v) is Incomplete,
        GrammarScan::Broken(f) => nrtm_outcome(s, v) == Outcome::Broken(f as int),
        GrammarScan::Garbage(a, b) => nrtm_outcome(s, v) == Outcome::Garbage(a as int, b as int),
        GrammarScan::Complete(op) => {
            &&& find_operation(s, 0, v) == Some(op.start as int)
            &&& scan_operation(s, op.start as int, v) == Ok::<OperationShape, int>(op.shape())
            &&& first_garbage_line(s, 0, op.start as int) is None
            &&& op.start <= op.rpsl_start <= op.end <= s.len()
            &&& (op.serial matches Some((a, b)) ==> a <= b <= s.len())
        },
    }
}

/// Scans `s` for one operation of protocol version `v`.
pub fn scan_nrtm(s: &[u8], v: ProtocolVersion) -> (r: GrammarScan)
    ensures
        scan_agrees(s@, v, r),
{
    let p = match locate_operation(s, v) {
        None => return GrammarScan::Incomplete,
        Some(p) => p,
    };
    proof {
        lemma_find_operation_found(s@, 0, v);
    }
    match scan_operation_at(s, p, v) {
        Err(f) => {
            if f >= s.len() {
                GrammarScan::Incomplete
            } else {
                GrammarScan::Broken(f)
            }
        },
        Ok(op) => match locate_garbage(s, p) {
            Some(g) => GrammarScan::Garbage(g, p),
            None => GrammarScan::Complete(op),
        },
    }
}

} // verus!
