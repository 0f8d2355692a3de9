//! Pieces of a `&str` taken by byte positions.
use vstd::prelude::*;
use vstd::string::StringSliceAdditionalSpecFns;
use vstd::utf8::{
    encode_utf8, is_char_boundary, length_of_first_scalar, pop_first_scalar, valid_first_scalar,
    valid_utf8,
};

verus! {

broadcast use {vstd::utf8::encode_utf8_valid_utf8, vstd::utf8::valid_utf8_split};

/// Position `i` touches an ASCII byte (or an end) of `b`.
pub open spec fn ascii_adjacent(b: Seq<u8>, i: int) -> bool {
    ||| i == 0
    ||| i == b.len()
    ||| (0 <= i < b.len() && b[i] < 128)
    ||| (0 < i <= b.len() && b[i - 1] < 128)
}

/// In valid UTF-8 an ASCII byte is a whole character, so a position next to one is
/// a character boundary.
pub proof fn lemma_ascii_adjacent_boundary(b: Seq<u8>, i: int)
    requires
        valid_utf8(b),
        0 <= i <= b.len(),
        ascii_adjacent(b, i),
    ensures
        is_char_boundary(b, i),
    decreases b.len(),
{
    if i != 0 {
        assert(valid_first_scalar(b));
        let k = length_of_first_scalar(b);
        assert(1 <= k <= b.len());
        if i < k {
            assert(b[0] >= 0xc0);
            assert(false);
        }
        let rest = pop_first_scalar(b);
        assert(valid_utf8(rest));
        assert(rest.len() == b.len() - k);
        if i - k > 0 && i < b.len() {
            assert(rest[i - k] == b[i]);
            assert(rest[i - k - 1] == b[i - 1]);
        } else if i - k > 0 {
            assert(rest[i - k - 1] == b[i - 1]);
        } else if i < b.len() {
            assert(rest[i - k] == b[i]);
        }
        lemma_ascii_adjacent_boundary(rest, i - k);
    }
}

/// A character boundary at or after a boundary `a` is one of the bytes from `a` on.
pub proof fn lemma_boundary_in_tail(bytes: Seq<u8>, a: int, b: int)
    requires
        valid_utf8(bytes),
        a <= b,
        is_char_boundary(bytes, a),
        is_char_boundary(bytes, b),
    ensures
        is_char_boundary(bytes.subrange(a, bytes.len() as int), b - a),
    decreases bytes.len(),
{
    if a == 0 {
        assert(bytes.subrange(0, bytes.len() as int) =~= bytes);
    } else {
        let k = length_of_first_scalar(bytes);
        let rest = pop_first_scalar(bytes);
        assert(valid_utf8(rest));
        assert(rest.len() == bytes.len() - k);
        assert(0 < a <= bytes.len());
        assert(is_char_boundary(rest, a - k));
        assert(is_char_boundary(rest, b - k));
        assert(a - k >= 0 && a - k <= rest.len());
        lemma_boundary_in_tail(rest, a - k, b - k);
        assert(rest.subrange(a - k, rest.len() as int) =~= bytes.subrange(a, bytes.len() as int));
    }
}

/// The part of `s` between the byte positions `a` and `b`.
pub fn piece(s: &str, a: usize, b: usize) -> (r: &str)
    requires
        a <= b <= s.spec_bytes().len(),
        is_char_boundary(s.spec_bytes(), a as int),
        is_char_boundary(s.spec_bytes(), b as int),
    ensures
        r.spec_bytes() == s.spec_bytes().subrange(a as int, b as int),
{
    let ghost bytes = s.spec_bytes();
    let (_, rest) = s.split_at(a);
    let ghost tail = bytes.subrange(a as int, bytes.len() as int);
    assert(rest.spec_bytes() == tail);
    proof {
        lemma_boundary_in_tail(bytes, a as int, b as int);
    }
    let (mid, _) = rest.split_at(b - a);
    assert(mid.spec_bytes() =~= bytes.subrange(a as int, b as int));
    mid
}

/// A copy of the part of `s` between the byte positions `a` and `b`.
pub fn owned_piece(s: &str, a: usize, b: usize) -> (r: String)
    requires
        a <= b <= s.spec_bytes().len(),
        is_char_boundary(s.spec_bytes(), a as int),
        is_char_boundary(s.spec_bytes(), b as int),
    ensures
        encode_utf8(r@) == s.spec_bytes().subrange(a as int, b as int),
{
    let p = piece(s, a, b);
    p.to_owned()
}

} // verus!
