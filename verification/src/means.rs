//! Shares, means and spreads, where a division splits sums.

use vstd::prelude::*;

#[allow(unused_imports)]
use crate::num::{law_ring, law_sum, ring, spec_sum, Scalar};

verus! {

/// Division by `c` undoes multiplication by it and splits sums and products, as that by a number
/// other than zero does.
#[verifier::opaque]
pub open spec fn splits<N: Scalar>(c: N) -> bool {
    &&& c.spec_over(c) == N::spec_one()
    &&& forall|a: N, b: N|
        #[trigger] a.spec_plus(b).spec_over(c) == a.spec_over(c).spec_plus(b.spec_over(c))
    &&& forall|a: N, b: N| #[trigger] a.spec_times(b).spec_over(c) == a.spec_times(b.spec_over(c))
}

/// Division by one splits whole numbers.
pub proof fn law_one_splits_whole_numbers()
    ensures
        splits::<i64>(1),
{
    reveal(splits);
    assert forall|a: i64| #[trigger] a.spec_over(1) == a by {}
}

/// What a division that splits sums comes to.
pub proof fn law_splits<N: Scalar>(c: N, a: N, b: N)
    requires
        splits(c),
        ring::<N>(),
    ensures
        c.spec_over(c) == N::spec_one(),
        N::spec_zero().spec_over(c) == N::spec_zero(),
        a.spec_plus(b).spec_over(c) == a.spec_over(c).spec_plus(b.spec_over(c)),
        a.spec_times(b).spec_over(c) == a.spec_times(b.spec_over(c)),
        a.spec_times(b).spec_over(c) == a.spec_over(c).spec_times(b),
        c.spec_times(a.spec_over(c)) == a,
        a.spec_over(c).spec_times(c) == a,
        c.spec_times(a).spec_over(c) == a,
{
    reveal(splits);
    let zero = N::spec_zero();
    law_ring(a, b, b);
    law_ring(a, c, c);
    law_ring(c, a, c);
    law_ring(b, a.spec_over(c), a);
    law_ring(c, a.spec_over(c), a);
    law_ring(zero, zero, zero);
    law_ring(zero.spec_over(c), zero, zero);
    assert(zero.spec_times(zero).spec_over(c) == zero.spec_times(zero.spec_over(c)));
    assert(a.spec_times(c).spec_over(c) == a.spec_times(c.spec_over(c)));
    assert(c.spec_times(a).spec_over(c) == c.spec_times(a.spec_over(c)));
    assert(b.spec_times(a).spec_over(c) == b.spec_times(a.spec_over(c)));
}

/// Counts up to `n` go up by ones.
#[verifier::opaque]
pub open spec fn counts<N: Scalar>(n: nat) -> bool {
    &&& n <= u64::MAX
    &&& N::spec_count(0) == N::spec_zero()
    &&& forall|k: u64|
        k < n ==> N::spec_count((#[trigger] (k + 1)) as u64) == N::spec_count(k).spec_plus(
            N::spec_one(),
        )
}

/// Whole numbers count as far as they go.
pub proof fn law_whole_numbers_count(n: nat)
    requires
        n <= i64::MAX,
    ensures
        counts::<i64>(n),
{
    reveal(counts);
}

/// The same term so many times over adds up to that count of it.
pub proof fn law_sum_of_the_same<N: Scalar>(xs: Seq<N>, x: N, n: nat)
    requires
        ring::<N>(),
        counts::<N>(n),
        xs.len() <= n,
        forall|i: int| 0 <= i < xs.len() ==> #[trigger] xs[i] == x,
    ensures
        spec_sum(xs) == N::spec_count(xs.len() as u64).spec_times(x),
    decreases xs.len(),
{
    reveal(counts);
    law_ring(x, x, x);
    if xs.len() > 0 {
        let short = xs.drop_last();
        assert forall|i: int| 0 <= i < short.len() implies #[trigger] short[i] == x by {
            assert(short[i] == xs[i]);
        }
        law_sum_of_the_same(short, x, n);
        assert(xs =~= short.push(xs.last()));
        law_sum(short, xs.last());
        assert(xs.last() == x);
        let k = short.len() as u64;
        assert((k + 1) as u64 == xs.len() as u64);
        law_ring(x, N::spec_count(k), N::spec_one());
    }
}

/// The sum of term-by-term sums is the sum of the sums.
pub proof fn law_sum_of_pairs<N: Scalar>(xs: Seq<N>, ys: Seq<N>, zs: Seq<N>)
    requires
        ring::<N>(),
        xs.len() == ys.len() == zs.len(),
        forall|i: int| 0 <= i < zs.len() ==> #[trigger] zs[i] == xs[i].spec_plus(ys[i]),
    ensures
        spec_sum(zs) == spec_sum(xs).spec_plus(spec_sum(ys)),
    decreases zs.len(),
{
    let zero = N::spec_zero();
    law_ring(zero, zero, zero);
    if zs.len() > 0 {
        let (x, y, z) = (xs.drop_last(), ys.drop_last(), zs.drop_last());
        assert forall|i: int| 0 <= i < z.len() implies #[trigger] z[i] == x[i].spec_plus(y[i]) by {
            assert(z[i] == zs[i]);
        }
        law_sum_of_pairs(x, y, z);
        assert(xs =~= x.push(xs.last()) && ys =~= y.push(ys.last()) && zs =~= z.push(zs.last()));
        law_sum(x, xs.last());
        law_sum(y, ys.last());
        law_sum(z, zs.last());
        let (a, b, p, q) = (spec_sum(x), spec_sum(y), xs.last(), ys.last());
        assert(zs.last() == p.spec_plus(q));
        // (a + b) + (p + q) == (a + p) + (b + q)
        law_ring(a, b, p.spec_plus(q));
        law_ring(b, p, q);
        law_ring(p, b, q);
        law_ring(a, p, b.spec_plus(q));
        law_ring(b, p, p);
    }
}

/// A sum of shares is that share of the sum.
pub proof fn law_sum_over<N: Scalar>(xs: Seq<N>, c: N)
    requires
        ring::<N>(),
        splits(c),
    ensures
        spec_sum(xs.map_values(|x: N| x.spec_over(c))) == spec_sum(xs).spec_over(c),
    decreases xs.len(),
{
    let out = xs.map_values(|x: N| x.spec_over(c));
    law_splits(c, c, c);
    if xs.len() > 0 {
        let short = xs.drop_last();
        law_sum_over(short, c);
        assert(out.drop_last() =~= short.map_values(|x: N| x.spec_over(c)));
        assert(xs =~= short.push(xs.last()) && out =~= out.drop_last().push(out.last()));
        law_sum(short, xs.last());
        law_sum(out.drop_last(), out.last());
        law_splits(c, spec_sum(short), xs.last());
    } else {
        assert(out =~= xs);
    }
}

} // verus!
