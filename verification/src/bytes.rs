//! Character boundaries of UTF-8 text and slices of a string between them.

use vstd::prelude::*;
use vstd::utf8::{
    decode_utf8, encode_utf8, is_char_boundary, is_continuation_byte, valid_utf8,
    valid_first_scalar, pop_first_scalar, length_of_first_scalar,
};

use vstd::string::StringSliceAdditionalSpecFns;

use crate::scan::{chars_between, is_boundary};

verus! {

broadcast use vstd::utf8::group_utf8_lib;

/// In valid UTF-8, a position that [`is_boundary`] accepts is a character boundary.
pub proof fn lemma_boundary(b: Seq<u8>, i: int)
    requires
        valid_utf8(b),
        is_boundary(b, i),
    ensures
        is_char_boundary(b, i),
{
    if i < b.len() {
        vstd::utf8::is_char_boundary_iff_not_is_continuation_byte(b, i);
    } else {
        vstd::utf8::is_char_boundary_start_end_of_seq(b);
    }
}

/// In valid UTF-8, a character boundary is accepted by [`is_boundary`].
pub proof fn lemma_char_boundary(b: Seq<u8>, i: int)
    requires
        valid_utf8(b),
        is_char_boundary(b, i),
    ensures
        is_boundary(b, i),
{
    reveal_with_fuel(is_char_boundary, 1);
    if 0 <= i < b.len() {
        vstd::utf8::is_char_boundary_iff_not_is_continuation_byte(b, i);
    } else if i != b.len() {
        lemma_char_boundary_in_range(b, i);
    }
}

proof fn lemma_char_boundary_in_range(b: Seq<u8>, i: int)
    requires
        valid_utf8(b),
        is_char_boundary(b, i),
    ensures
        0 <= i <= b.len(),
    decreases b.len(),
{
    if i != 0 && 0 <= i - length_of_first_scalar(b) {
        lemma_char_boundary_in_range(pop_first_scalar(b), i - length_of_first_scalar(b));
    }
}

/// In valid UTF-8, the byte after an ASCII byte starts a character (or is the end).
pub proof fn lemma_after_ascii(b: Seq<u8>, i: int)
    requires
        valid_utf8(b),
        0 <= i < b.len(),
        b[i] < 0x80,
    ensures
        is_boundary(b, i + 1),
{
    vstd::utf8::is_char_boundary_iff_not_is_continuation_byte(b, i);
    vstd::utf8::valid_utf8_split(b, i);
    let s = b.subrange(i, b.len() as int);
    assert(s[0] == b[i]);
    assert(valid_first_scalar(s));
    let rest = pop_first_scalar(s);
    assert(rest =~= b.subrange(i + 1, b.len() as int));
    if i + 1 < b.len() {
        assert(valid_utf8(rest));
        assert(rest[0] == b[i + 1]);
        assert(valid_first_scalar(rest));
    }
}

/// The part `s[a..c]` of a string, between two character boundaries.
pub fn slice_str(s: &str, a: usize, c: usize) -> (r: &str)
    requires
        a <= c <= s.spec_bytes().len(),
        is_boundary(s.spec_bytes(), a as int),
        is_boundary(s.spec_bytes(), c as int),
    ensures
        r.spec_bytes() == s.spec_bytes().subrange(a as int, c as int),
        r@ == chars_between(s.spec_bytes(), a as int, c as int),
{
    let ghost b = s.spec_bytes();
    proof {
        lemma_boundary(b, a as int);
    }
    let (_, tail) = s.split_at(a);
    let ghost t = tail.spec_bytes();
    proof {
        vstd::utf8::valid_utf8_split(b, a as int);
        assert(t =~= b.subrange(a as int, b.len() as int));
        if c < b.len() {
            assert(t[c - a] == b[c as int]);
        }
        lemma_boundary(t, c - a);
    }
    let (mid, _) = tail.split_at(c - a);
    proof {
        assert(mid.spec_bytes() =~= b.subrange(a as int, c as int));
    }
    mid
}

/// The character that starts at byte `i` of `s`, a character boundary before the end.
pub fn char_at(s: &str, i: usize) -> (c: char)
    requires
        i < s.spec_bytes().len(),
        is_boundary(s.spec_bytes(), i as int),
    ensures
        chars_between(s.spec_bytes(), i as int, s.spec_bytes().len() as int).len() > 0,
        c == chars_between(s.spec_bytes(), i as int, s.spec_bytes().len() as int)[0],
{
    let n = s.as_bytes().len();
    let tail = slice_str(s, i, n);
    assert(tail@.len() > 0) by {
        assert(tail.spec_bytes().len() > 0);
        if tail@.len() == 0 {
            assert(encode_utf8(tail@) =~= Seq::<u8>::empty());
        }
    }
    tail.get_char(0)
}

} // verus!
