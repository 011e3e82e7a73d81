//! Checks on runs of characters used by the number rule.
use vstd::prelude::*;
use crate::grammar::{
    all_digits, first_index, index_from, is_digit, is_float_literal, is_mantissa, unsigned_part,
};

verus! {

/// Whether every character of `v[lo..hi]` is a digit.
pub fn digits_in(v: &Vec<char>, lo: usize, hi: usize) -> (r: bool)
    requires
        lo <= hi <= v.len(),
    ensures
        r == all_digits(v@.subrange(lo as int, hi as int)),
{
    let mut i = lo;
    while i < hi
        invariant
            lo <= i <= hi <= v.len(),
            forall|j: int| lo <= j < i ==> is_digit(#[trigger] v@[j]),
        decreases hi - i,
    {
        if !('0' <= v[i] && v[i] <= '9') {
            assert(v@.subrange(lo as int, hi as int)[i - lo] == v@[i as int]);
            return false;
        }
        i = i + 1;
    }
    assert forall|j: int| 0 <= j < hi - lo implies is_digit(
        #[trigger] v@.subrange(lo as int, hi as int)[j],
    ) by {
        assert(v@.subrange(lo as int, hi as int)[j] == v@[lo + j]);
    }
    true
}

/// The absolute index of the first `c` in `v[lo..hi]`, or `hi`.
pub fn find_in(v: &Vec<char>, lo: usize, hi: usize, c: char) -> (r: usize)
    requires
        lo <= hi <= v.len(),
    ensures
        r == lo + first_index(v@.subrange(lo as int, hi as int), c),
        lo <= r <= hi,
{
    let ghost t = v@.subrange(lo as int, hi as int);
    let mut i = lo;
    while i < hi && v[i] != c
        invariant
            lo <= i <= hi <= v.len(),
            t == v@.subrange(lo as int, hi as int),
            index_from(t, c, i - lo) == index_from(t, c, 0),
        decreases hi - i,
    {
        assert(t[i - lo] == v@[i as int]);
        i = i + 1;
    }
    if i < hi {
        assert(t[i - lo] == v@[i as int]);
    }
    i
}

/// Whether `v[lo..hi]` is a mantissa.
fn mantissa_in(v: &Vec<char>, lo: usize, hi: usize) -> (r: bool)
    requires
        lo <= hi <= v.len(),
    ensures
        r == is_mantissa(v@.subrange(lo as int, hi as int)),
{
    let ghost t = v@.subrange(lo as int, hi as int);
    let d = find_in(v, lo, hi, '.');
    if d == hi {
        hi > lo && digits_in(v, lo, hi)
    } else {
        assert(t.take(d - lo) =~= v@.subrange(lo as int, d as int));
        assert(t.skip(d - lo + 1) =~= v@.subrange(d + 1, hi as int));
        hi - lo >= 2 && digits_in(v, lo, d) && digits_in(v, d + 1, hi)
    }
}

/// The start of `v[lo..hi]` after one leading minus sign, if it has one.
fn skip_sign(v: &Vec<char>, lo: usize, hi: usize) -> (r: usize)
    requires
        lo <= hi <= v.len(),
    ensures
        lo <= r <= hi,
        v@.subrange(r as int, hi as int) == unsigned_part(v@.subrange(lo as int, hi as int)),
{
    let ghost t = v@.subrange(lo as int, hi as int);
    if lo < hi && v[lo] == '-' {
        assert(t[0] == v@[lo as int]);
        assert(t.skip(1) =~= v@.subrange(lo + 1, hi as int));
        lo + 1
    } else {
        if lo < hi {
            assert(t[0] == v@[lo as int]);
        }
        lo
    }
}

/// Whether `v[lo..hi]` is a floating-point literal.
pub fn float_literal_in(v: &Vec<char>, lo: usize, hi: usize) -> (r: bool)
    requires
        lo <= hi <= v.len(),
    ensures
        r == is_float_literal(v@.subrange(lo as int, hi as int)),
{
    let a = skip_sign(v, lo, hi);
    let ghost u = v@.subrange(a as int, hi as int);
    let e = find_in(v, a, hi, 'e');
    assert(u.take(e - a) =~= v@.subrange(a as int, e as int));
    if !mantissa_in(v, a, e) {
        return false;
    }
    if e == hi {
        true
    } else {
        assert(u.skip(e - a + 1) =~= v@.subrange(e + 1, hi as int));
        let b = skip_sign(v, e + 1, hi);
        b < hi && digits_in(v, b, hi)
    }
}

} // verus!
