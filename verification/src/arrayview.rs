//! Packed-array primitives: a node stores its keys, values and children as
//! dense arrays whose capacity is fixed by the containing page. Mutations
//! never reallocate in place; they produce the array that a fresh page will
//! hold, shifting the tail right on insert and left on delete.

use vstd::prelude::*;

verus! {

/// The first `m` elements of `v`, as a fresh array.
pub fn array_take<T: Copy>(v: &Vec<T>, m: usize) -> (r: Vec<T>)
    requires
        m <= v@.len(),
    ensures
        r@ == v@.take(m as int),
{
    let mut r: Vec<T> = Vec::new();
    let mut i: usize = 0;
    while i < m
        invariant
            i <= m <= v@.len(),
            r@ == v@.take(i as int),
        decreases m - i,
    {
        r.push(v[i]);
        assert(v@.take(i + 1) =~= v@.take(i as int).push(v@[i as int]));
        i = i + 1;
    }
    r
}

/// The elements of `v` from position `m` on, as a fresh array.
pub fn array_skip<T: Copy>(v: &Vec<T>, m: usize) -> (r: Vec<T>)
    requires
        m <= v@.len(),
    ensures
        r@ == v@.skip(m as int),
{
    let mut r: Vec<T> = Vec::new();
    let mut i: usize = m;
    while i < v.len()
        invariant
            m <= i <= v@.len(),
            r@ == v@.subrange(m as int, i as int),
        decreases v@.len() - i,
    {
        r.push(v[i]);
        assert(v@.subrange(m as int, i + 1) =~= v@.subrange(m as int, i as int).push(v@[i as int]));
        i = i + 1;
    }
    assert(v@.subrange(m as int, v@.len() as int) =~= v@.skip(m as int));
    r
}

/// A copy of `v` with `x` inserted at `pos`; the tail shifts right.
pub fn array_insert_at<T: Copy>(v: &Vec<T>, pos: usize, x: T) -> (r: Vec<T>)
    requires
        pos <= v@.len(),
    ensures
        r@ == v@.take(pos as int) + seq![x] + v@.skip(pos as int),
        r@.len() == v@.len() + 1,
{
    let mut r = array_take(v, pos);
    r.push(x);
    let mut i: usize = pos;
    while i < v.len()
        invariant
            pos <= i <= v@.len(),
            r@ == v@.take(pos as int) + seq![x] + v@.subrange(pos as int, i as int),
        decreases v@.len() - i,
    {
        r.push(v[i]);
        assert(v@.subrange(pos as int, i + 1) =~= v@.subrange(pos as int, i as int).push(v@[i as int]));
        assert((v@.take(pos as int) + seq![x] + v@.subrange(pos as int, i as int)).push(v@[i as int])
            =~= v@.take(pos as int) + seq![x] + v@.subrange(pos as int, i as int).push(v@[i as int]));
        i = i + 1;
    }
    assert(v@.subrange(pos as int, v@.len() as int) =~= v@.skip(pos as int));
    r
}

/// A copy of `v` with the element at `pos` removed; the tail shifts left.
pub fn array_remove_at<T: Copy>(v: &Vec<T>, pos: usize) -> (r: Vec<T>)
    requires
        pos < v@.len(),
    ensures
        r@ == v@.take(pos as int) + v@.skip(pos as int + 1),
        r@.len() == v@.len() - 1,
{
    let n = v.len();
    let mut r = array_take(v, pos);
    let mut i: usize = pos + 1;
    while i < v.len()
        invariant
            pos + 1 <= i <= v@.len(),
            r@ == v@.take(pos as int) + v@.subrange(pos as int + 1, i as int),
        decreases v@.len() - i,
    {
        r.push(v[i]);
        assert(v@.subrange(pos as int + 1, i + 1) =~= v@.subrange(pos as int + 1, i as int).push(v@[i as int]));
        assert((v@.take(pos as int) + v@.subrange(pos as int + 1, i as int)).push(v@[i as int])
            =~= v@.take(pos as int) + v@.subrange(pos as int + 1, i as int).push(v@[i as int]));
        i = i + 1;
    }
    assert(v@.subrange(pos as int + 1, v@.len() as int) =~= v@.skip(pos as int + 1));
    r
}

/// A copy of `v` with the element at `pos` replaced by `x`.
pub fn array_set<T: Copy>(v: &Vec<T>, pos: usize, x: T) -> (r: Vec<T>)
    requires
        pos < v@.len(),
    ensures
        r@ == v@.update(pos as int, x),
{
    let mut r = array_take(v, v.len());
    assert(v@.take(v@.len() as int) =~= v@);
    r.set(pos, x);
    r
}

/// The concatenation of two packed arrays.
pub fn array_concat<T: Copy>(a: &Vec<T>, b: &Vec<T>) -> (r: Vec<T>)
    ensures
        r@ == a@ + b@,
{
    let mut r = array_take(a, a.len());
    assert(a@.take(a@.len() as int) =~= a@);
    let mut i: usize = 0;
    while i < b.len()
        invariant
            i <= b@.len(),
            r@ == a@ + b@.take(i as int),
        decreases b@.len() - i,
    {
        r.push(b[i]);
        assert((a@ + b@.take(i as int)).push(b@[i as int]) =~= a@ + b@.take(i + 1));
        i = i + 1;
    }
    assert(a@ + b@.take(b@.len() as int) =~= a@ + b@);
    r
}

} // verus!
