//! Small verified helpers for byte vectors.

use vstd::prelude::*;

verus! {

/// Returns a copy of `src[a..b]`.
pub fn vec_copy_range(src: &Vec<u8>, a: usize, b: usize) -> (r: Vec<u8>)
    requires
        a <= b,
        b <= src@.len(),
    ensures
        r@ == src@.subrange(a as int, b as int),
{
    let mut r: Vec<u8> = Vec::new();
    let mut j: usize = a;
    while j < b
        invariant
            a <= j <= b,
            b <= src@.len(),
            r@ == src@.subrange(a as int, j as int),
        decreases b - j,
    {
        r.push(src[j]);
        j = j + 1;
        assert(r@ =~= src@.subrange(a as int, j as int));
    }
    r
}

/// Appends a copy of `src[a..b]` to `out`.
pub fn push_range(out: &mut Vec<u8>, src: &Vec<u8>, a: usize, b: usize)
    requires
        a <= b,
        b <= src@.len(),
    ensures
        final(out)@ == old(out)@ + src@.subrange(a as int, b as int),
{
    let mut j: usize = a;
    while j < b
        invariant
            a <= j <= b,
            b <= src@.len(),
            out@ == old(out)@ + src@.subrange(a as int, j as int),
        decreases b - j,
    {
        out.push(src[j]);
        j = j + 1;
        assert(out@ =~= old(out)@ + src@.subrange(a as int, j as int));
    }
}

/// Appends `count` zero bytes to `out`.
pub fn push_zeros(out: &mut Vec<u8>, count: usize)
    ensures
        final(out)@ == old(out)@ + Seq::new(count as nat, |i: int| 0u8),
{
    let mut j: usize = 0;
    while j < count
        invariant
            j <= count,
            out@ == old(out)@ + Seq::new(j as nat, |i: int| 0u8),
        decreases count - j,
    {
        out.push(0u8);
        j = j + 1;
        assert(out@ =~= old(out)@ + Seq::new(j as nat, |i: int| 0u8));
    }
    assert(out@ =~= old(out)@ + Seq::new(count as nat, |i: int| 0u8));
}

/// Appends a copy of all of `src` to `out`.
pub fn push_all(out: &mut Vec<u8>, src: &Vec<u8>)
    ensures
        final(out)@ == old(out)@ + src@,
{
    let l = src.len();
    push_range(out, src, 0, l);
    assert(src@.subrange(0, src@.len() as int) =~= src@);
}

} // verus!
