//! Small helpers on vectors.

use vstd::prelude::*;

verus! {

/// A result whose value is taken by its view.
pub open spec fn viewed<T: View, F>(r: Result<T, F>) -> Result<T::V, F> {
    match r {
        Ok(t) => Ok(t@),
        Err(f) => Err(f),
    }
}

/// Rows of numbers as mathematical values.
pub open spec fn matrix<N>(m: Seq<Vec<N>>) -> Seq<Seq<N>> {
    m.map_values(|r: Vec<N>| r@)
}

/// A vector with the elements of `xs`.
pub fn copied<T: Copy>(xs: &[T]) -> (r: Vec<T>)
    ensures
        r@ == xs@,
{
    let mut r: Vec<T> = Vec::new();
    let mut i: usize = 0;
    while i < xs.len()
        invariant
            i <= xs.len(),
            r@ == xs@.take(i as int),
        decreases xs.len() - i,
    {
        r.push(xs[i]);
        i = i + 1;
    }
    assert(xs@.take(i as int) =~= xs@);
    r
}

/// Appends the elements of `xs` to `out`.
pub fn append<T: Copy>(out: &mut Vec<T>, xs: &[T])
    ensures
        final(out)@ == old(out)@ + xs@,
{
    let mut i: usize = 0;
    while i < xs.len()
        invariant
            i <= xs.len(),
            out@ == old(out)@ + xs@.take(i as int),
        decreases xs.len() - i,
    {
        out.push(xs[i]);
        i = i + 1;
    }
    assert(xs@.take(i as int) =~= xs@);
}

/// `n` copies of `x`.
pub open spec fn spec_filled<T>(x: T, n: nat) -> Seq<T> {
    Seq::new(n, |i: int| x)
}

/// `n` copies of `x`.
pub fn filled<T: Copy>(x: T, n: usize) -> (r: Vec<T>)
    ensures
        r@ == spec_filled(x, n as nat),
{
    let mut r: Vec<T> = Vec::new();
    let mut i: usize = 0;
    while i < n
        invariant
            i <= n,
            r@ == spec_filled(x, i as nat),
        decreases n - i,
    {
        r.push(x);
        i = i + 1;
    }
    r
}

/// A copy of rows of numbers.
pub fn copied_rows<N: Copy>(rows: &Vec<Vec<N>>) -> (r: Vec<Vec<N>>)
    ensures
        matrix(r@) == matrix(rows@),
{
    let mut r: Vec<Vec<N>> = Vec::new();
    let mut i: usize = 0;
    while i < rows.len()
        invariant
            i <= rows@.len(),
            matrix(r@) =~= matrix(rows@).take(i as int),
        decreases rows@.len() - i,
    {
        let ghost was = matrix(r@);
        let row = copied(&rows[i]);
        let ghost shown = row@;
        r.push(row);
        assert(matrix(r@) =~= was.push(shown));
        assert(matrix(rows@)[i as int] == shown);
        i = i + 1;
    }
    assert(matrix(rows@).take(i as int) =~= matrix(rows@));
    r
}

/// A vector back to front.
pub fn reversed<T>(v: Vec<T>) -> (r: Vec<T>)
    ensures
        r@ == v@.reverse(),
{
    let ghost all = v@;
    let mut v = v;
    let mut r: Vec<T> = Vec::new();
    while v.len() > 0
        invariant
            v@.len() <= all.len(),
            v@ =~= all.take(v@.len() as int),
            r@ =~= all.skip(v@.len() as int).reverse(),
        decreases v@.len(),
    {
        let ghost n = v@.len();
        match v.pop() {
            Some(x) => r.push(x),
            None => {},
        }
        assert(all.skip(n - 1) =~= seq![all[n - 1]] + all.skip(n as int));
    }
    assert(all.skip(0) =~= all);
    r
}

} // verus!
