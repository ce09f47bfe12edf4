//! The number type of the library.
//!
//! Rewards, values, priors and probabilities are all of one type, which the caller picks. The
//! library only ever combines such numbers by the operations of [`Scalar`], so what it computes is
//! stated exactly, whatever the type is. A floating-point type meets the trait; so does `i64`,
//! for which it is met here.

use vstd::prelude::*;

verus! {

/// Numbers whose operations are functions of their operands.
///
/// Each operation `op` has a twin `spec_op`, by which contracts speak of its result. Nothing else
/// is known of the operations (addition need not be associative, for one): where a law of the
/// library needs more, it asks for [`faithful_bits`] or [`weakly_ordered`]. A type that no proof
/// speaks of may leave the twins out.
pub trait Scalar: Copy + Sized + Send + Sync {
    open spec fn spec_zero() -> Self {
        arbitrary()
    }

    fn zero() -> (r: Self)
        ensures
            r == Self::spec_zero(),
    ;

    open spec fn spec_one() -> Self {
        arbitrary()
    }

    fn one() -> (r: Self)
        ensures
            r == Self::spec_one(),
    ;

    /// The seed of a maximum: no number is below it.
    open spec fn spec_lowest() -> Self {
        arbitrary()
    }

    fn lowest() -> (r: Self)
        ensures
            r == Self::spec_lowest(),
    ;

    /// The seed of a minimum: no number is above it.
    open spec fn spec_highest() -> Self {
        arbitrary()
    }

    fn highest() -> (r: Self)
        ensures
            r == Self::spec_highest(),
    ;

    /// The number that stands for a count.
    open spec fn spec_count(n: u64) -> Self {
        arbitrary()
    }

    fn count(n: u64) -> (r: Self)
        ensures
            r == Self::spec_count(n),
    ;

    open spec fn spec_plus(self, rhs: Self) -> Self {
        arbitrary()
    }

    fn plus(self, rhs: Self) -> (r: Self)
        ensures
            r == self.spec_plus(rhs),
    ;

    open spec fn spec_minus(self, rhs: Self) -> Self {
        arbitrary()
    }

    fn minus(self, rhs: Self) -> (r: Self)
        ensures
            r == self.spec_minus(rhs),
    ;

    open spec fn spec_times(self, rhs: Self) -> Self {
        arbitrary()
    }

    fn times(self, rhs: Self) -> (r: Self)
        ensures
            r == self.spec_times(rhs),
    ;

    open spec fn spec_over(self, rhs: Self) -> Self {
        arbitrary()
    }

    fn over(self, rhs: Self) -> (r: Self)
        ensures
            r == self.spec_over(rhs),
    ;

    open spec fn spec_negated(self) -> Self {
        arbitrary()
    }

    fn negated(self) -> (r: Self)
        ensures
            r == self.spec_negated(),
    ;

    /// The square root.
    open spec fn spec_root(self) -> Self {
        arbitrary()
    }

    fn root(self) -> (r: Self)
        ensures
            r == self.spec_root(),
    ;

    open spec fn spec_less(self, rhs: Self) -> bool {
        arbitrary()
    }

    fn less(self, rhs: Self) -> (r: bool)
        ensures
            r == self.spec_less(rhs),
    ;

    open spec fn spec_at_most(self, rhs: Self) -> bool {
        arbitrary()
    }

    fn at_most(self, rhs: Self) -> (r: bool)
        ensures
            r == self.spec_at_most(rhs),
    ;

    open spec fn spec_same(self, rhs: Self) -> bool {
        arbitrary()
    }

    fn same(self, rhs: Self) -> (r: bool)
        ensures
            r == self.spec_same(rhs),
    ;

    open spec fn spec_larger(self, rhs: Self) -> Self {
        arbitrary()
    }

    fn larger(self, rhs: Self) -> (r: Self)
        ensures
            r == self.spec_larger(rhs),
    ;

    open spec fn spec_smaller(self, rhs: Self) -> Self {
        arbitrary()
    }

    fn smaller(self, rhs: Self) -> (r: Self)
        ensures
            r == self.spec_smaller(rhs),
    ;

    open spec fn spec_is_finite(self) -> bool {
        arbitrary()
    }

    fn is_finite(self) -> (r: bool)
        ensures
            r == self.spec_is_finite(),
    ;

    /// Whether the value takes part in the order at all.
    open spec fn spec_is_number(self) -> bool {
        arbitrary()
    }

    fn is_number(self) -> (r: bool)
        ensures
            r == self.spec_is_number(),
    ;

    /// The number cut down to an index.
    open spec fn spec_index(self) -> usize {
        arbitrary()
    }

    fn index(self) -> (r: usize)
        ensures
            r == self.spec_index(),
    ;

    open spec fn spec_bits(self) -> u64 {
        arbitrary()
    }

    fn bits(self) -> (r: u64)
        ensures
            r == self.spec_bits(),
    ;

    open spec fn spec_from_bits(bits: u64) -> Self {
        arbitrary()
    }

    fn from_bits(bits: u64) -> (r: Self)
        ensures
            r == Self::spec_from_bits(bits),
    ;
}

/// Every number is rebuilt from its bits.
pub open spec fn faithful_bits<N: Scalar>() -> bool {
    forall|x: N| N::spec_from_bits(#[trigger] x.spec_bits()) == x
}

/// Nothing is below itself.
pub open spec fn irreflexive<N: Scalar>() -> bool {
    forall|x: N| !#[trigger] x.spec_less(x)
}

/// Among numbers, "below" is a weak order, and "at most" is "not above".
pub open spec fn weakly_ordered<N: Scalar>() -> bool {
    &&& irreflexive::<N>()
    &&& forall|a: N, b: N|
        a.spec_is_number() && b.spec_is_number() ==> #[trigger] a.spec_at_most(b) == !b.spec_less(a)
    &&& forall|a: N, b: N|
        a.spec_is_number() && b.spec_is_number() && #[trigger] a.spec_less(b) ==> !b.spec_less(a)
    &&& forall|a: N, b: N, c: N|
        a.spec_is_number() && b.spec_is_number() && c.spec_is_number() && !#[trigger] b.spec_less(a)
            && !#[trigger] c.spec_less(b) ==> !c.spec_less(a)
}

/// Sums do not depend on the order of their terms.
#[verifier::opaque]
pub open spec fn plus_commutes<N: Scalar>() -> bool {
    forall|a: N, b: N| #[trigger] a.spec_plus(b) == b.spec_plus(a)
}

/// Sums do not depend on how their terms are grouped.
#[verifier::opaque]
pub open spec fn plus_associates<N: Scalar>() -> bool {
    forall|a: N, b: N, c: N| #[trigger] a.spec_plus(b).spec_plus(c) == a.spec_plus(b.spec_plus(c))
}

/// Zero adds nothing.
#[verifier::opaque]
pub open spec fn zero_is_neutral<N: Scalar>() -> bool {
    forall|a: N| #[trigger] a.spec_plus(N::spec_zero()) == a
}

/// A number and its negative cancel.
#[verifier::opaque]
pub open spec fn negatives_cancel<N: Scalar>() -> bool {
    forall|a: N| #[trigger] a.spec_plus(a.spec_negated()) == N::spec_zero()
}

/// To subtract is to add the negative.
#[verifier::opaque]
pub open spec fn minus_adds_negatives<N: Scalar>() -> bool {
    forall|a: N, b: N| #[trigger] a.spec_minus(b) == a.spec_plus(b.spec_negated())
}

/// Products do not depend on the order of their factors.
#[verifier::opaque]
pub open spec fn times_commutes<N: Scalar>() -> bool {
    forall|a: N, b: N| #[trigger] a.spec_times(b) == b.spec_times(a)
}

/// Products do not depend on how their factors are grouped.
#[verifier::opaque]
pub open spec fn times_associates<N: Scalar>() -> bool {
    forall|a: N, b: N, c: N| #[trigger] a.spec_times(b).spec_times(c) == a.spec_times(b.spec_times(c))
}

/// One scales nothing.
#[verifier::opaque]
pub open spec fn one_is_neutral<N: Scalar>() -> bool {
    forall|a: N| #[trigger] a.spec_times(N::spec_one()) == a
}

/// Products distribute over sums.
#[verifier::opaque]
pub open spec fn times_distributes<N: Scalar>() -> bool {
    forall|a: N, b: N, c: N| #[trigger] a.spec_times(b.spec_plus(c)) == a.spec_times(b).spec_plus(a.spec_times(c))
}

/// Sums and products obey the laws of a commutative ring.
pub open spec fn ring<N: Scalar>() -> bool {
    &&& plus_commutes::<N>()
    &&& plus_associates::<N>()
    &&& zero_is_neutral::<N>()
    &&& negatives_cancel::<N>()
    &&& minus_adds_negatives::<N>()
    &&& times_commutes::<N>()
    &&& times_associates::<N>()
    &&& one_is_neutral::<N>()
    &&& times_distributes::<N>()
}

proof fn use_plus_commutes<N: Scalar>(a: N, b: N)
    requires
        plus_commutes::<N>(),
    ensures
        a.spec_plus(b) == b.spec_plus(a),
{
    reveal(plus_commutes);
}

proof fn use_plus_associates<N: Scalar>(a: N, b: N, c: N)
    requires
        plus_associates::<N>(),
    ensures
        a.spec_plus(b).spec_plus(c) == a.spec_plus(b.spec_plus(c)),
{
    reveal(plus_associates);
}

proof fn use_zero_is_neutral<N: Scalar>(a: N)
    requires
        zero_is_neutral::<N>(),
    ensures
        a.spec_plus(N::spec_zero()) == a,
{
    reveal(zero_is_neutral);
}

proof fn use_negatives_cancel<N: Scalar>(a: N)
    requires
        negatives_cancel::<N>(),
    ensures
        a.spec_plus(a.spec_negated()) == N::spec_zero(),
{
    reveal(negatives_cancel);
}

proof fn use_minus_adds_negatives<N: Scalar>(a: N, b: N)
    requires
        minus_adds_negatives::<N>(),
    ensures
        a.spec_minus(b) == a.spec_plus(b.spec_negated()),
{
    reveal(minus_adds_negatives);
}

proof fn use_times_commutes<N: Scalar>(a: N, b: N)
    requires
        times_commutes::<N>(),
    ensures
        a.spec_times(b) == b.spec_times(a),
{
    reveal(times_commutes);
}

proof fn use_times_associates<N: Scalar>(a: N, b: N, c: N)
    requires
        times_associates::<N>(),
    ensures
        a.spec_times(b).spec_times(c) == a.spec_times(b.spec_times(c)),
{
    reveal(times_associates);
}

proof fn use_one_is_neutral<N: Scalar>(a: N)
    requires
        one_is_neutral::<N>(),
    ensures
        a.spec_times(N::spec_one()) == a,
{
    reveal(one_is_neutral);
}

proof fn use_times_distributes<N: Scalar>(a: N, b: N, c: N)
    requires
        times_distributes::<N>(),
    ensures
        a.spec_times(b.spec_plus(c)) == a.spec_times(b).spec_plus(a.spec_times(c)),
{
    reveal(times_distributes);
}

/// Among numbers, the larger of two is one of them, and neither is above it; so the smaller, and
/// neither is below it. The lowest number is never the larger, nor the highest the smaller, unless
/// both are.
pub open spec fn picks<N: Scalar>() -> bool {
    &&& weakly_ordered::<N>()
    &&& N::spec_lowest().spec_is_number()
    &&& N::spec_highest().spec_is_number()
    &&& forall|a: N, b: N|
        a.spec_is_number() && b.spec_is_number() ==> {
            let m = #[trigger] a.spec_larger(b);
            (m == a || m == b) && !m.spec_less(a) && !m.spec_less(b)
        }
    &&& forall|a: N, b: N|
        a.spec_is_number() && b.spec_is_number() ==> {
            let m = #[trigger] a.spec_smaller(b);
            (m == a || m == b) && !a.spec_less(m) && !b.spec_less(m)
        }
    &&& forall|a: N|
        a.spec_is_number() ==> #[trigger] N::spec_lowest().spec_larger(a) == a
    &&& forall|a: N|
        a.spec_is_number() ==> #[trigger] N::spec_highest().spec_smaller(a) == a
}

/// Whole numbers pick.
pub proof fn law_whole_numbers_pick()
    ensures
        picks::<i64>(),
{
    law_whole_numbers();
}

/// A sum grows term by term, from nothing.
pub proof fn law_sum<N: Scalar>(xs: Seq<N>, x: N)
    ensures
        spec_sum(Seq::<N>::empty()) == N::spec_zero(),
        spec_sum(xs.push(x)) == spec_sum(xs).spec_plus(x),
{
    assert(xs.push(x).drop_last() =~= xs);
}

/// A sum may be taken from its first term on.
pub proof fn law_sum_first<N: Scalar>(x: N, xs: Seq<N>)
    requires
        ring::<N>(),
    ensures
        spec_sum(seq![x] + xs) == x.spec_plus(spec_sum(xs)),
    decreases xs.len(),
{
    if xs.len() == 0 {
        assert(seq![x] + xs =~= Seq::<N>::empty().push(x));
        law_sum(Seq::<N>::empty(), x);
        law_ring(x, x, x);
    } else {
        let short = xs.drop_last();
        law_sum_first(x, short);
        assert(seq![x] + xs =~= (seq![x] + short).push(xs.last()));
        law_sum(seq![x] + short, xs.last());
        law_ring(x, spec_sum(short), xs.last());
    }
}

/// The sum of two runs is the sum of their sums.
pub proof fn law_sum_runs<N: Scalar>(xs: Seq<N>, ys: Seq<N>)
    requires
        ring::<N>(),
    ensures
        spec_sum(xs + ys) == spec_sum(xs).spec_plus(spec_sum(ys)),
    decreases ys.len(),
{
    if ys.len() == 0 {
        assert(xs + ys =~= xs);
        law_ring(spec_sum(xs), spec_sum(xs), spec_sum(xs));
    } else {
        let short = ys.drop_last();
        law_sum_runs(xs, short);
        assert(xs + ys =~= (xs + short).push(ys.last()));
        law_sum(xs + short, ys.last());
        law_ring(spec_sum(xs), spec_sum(short), ys.last());
    }
}

/// What rewards and what lies beyond them are worth now: each discounted by how far off it is.
pub open spec fn outlook<N: Scalar>(rewards: Seq<N>, gamma: N, beyond: N) -> N {
    spec_sum(
        Seq::new(rewards.len(), |i: int| power(gamma, i as nat).spec_times(rewards[i])),
    ).spec_plus(power(gamma, rewards.len()).spec_times(beyond))
}

/// With nothing between, what lies beyond counts in full; a reward counts in full, and what follows it
/// at the discount.
pub proof fn law_outlook<N: Scalar>(reward: N, rewards: Seq<N>, gamma: N, beyond: N)
    requires
        ring::<N>(),
    ensures
        outlook(Seq::<N>::empty(), gamma, beyond) == beyond,
        outlook(seq![reward] + rewards, gamma, beyond) == reward.spec_plus(
            gamma.spec_times(outlook(rewards, gamma, beyond)),
        ),
{
    let n = rewards.len();
    let none = Seq::<N>::empty();
    let empty = Seq::new(none.len(), |i: int| power(gamma, i as nat).spec_times(none[i]));
    assert(empty =~= none);
    law_sum(none, reward);
    law_ring(beyond, beyond, beyond);
    let all = seq![reward] + rewards;
    let later = Seq::new(n, |i: int| power(gamma, i as nat).spec_times(rewards[i]));
    let scaled = later.map_values(|x: N| x.spec_times(gamma));
    let terms = Seq::new(all.len(), |i: int| power(gamma, i as nat).spec_times(all[i]));
    assert(terms =~= seq![reward] + scaled) by {
        law_ring(reward, reward, reward);
        assert forall|i: int| 0 <= i < all.len() implies terms[i] == (seq![reward] + scaled)[i] by {
            if i > 0 {
                let p = power(gamma, (i - 1) as nat);
                law_ring(p, gamma, rewards[i - 1]);
                law_ring(p, rewards[i - 1], gamma);
                law_ring(gamma, rewards[i - 1], p);
                assert(all[i] == rewards[i - 1]);
                assert(power(gamma, i as nat) == p.spec_times(gamma));
                assert(scaled[i - 1] == p.spec_times(rewards[i - 1]).spec_times(gamma));
            } else {
                assert(power(gamma, 0) == N::spec_one());
            }
        }
    }
    law_sum_first(reward, scaled);
    law_sum_scales(later, gamma);
    let p = power(gamma, n);
    let s = spec_sum(later);
    assert(power(gamma, all.len()) == p.spec_times(gamma));
    law_ring(p, gamma, beyond);
    law_ring(gamma, p, beyond);
    law_ring(gamma, s, p.spec_times(beyond));
    law_ring(s, gamma, gamma);
    law_ring(reward, s.spec_times(gamma), gamma.spec_times(p.spec_times(beyond)));
}

/// A sum of terms that share a factor is that factor of their sum.
pub proof fn law_sum_scales<N: Scalar>(xs: Seq<N>, c: N)
    requires
        ring::<N>(),
    ensures
        spec_sum(xs.map_values(|x: N| x.spec_times(c))) == spec_sum(xs).spec_times(c),
    decreases xs.len(),
{
    let scaled = xs.map_values(|x: N| x.spec_times(c));
    if xs.len() > 0 {
        let short = xs.drop_last();
        law_sum_scales(short, c);
        assert(scaled.drop_last() =~= short.map_values(|x: N| x.spec_times(c)));
        law_ring(c, spec_sum(short), xs.last());
    } else {
        law_ring(c, c, c);
    }
}

/// The largest of some numbers is one of them, and none is above it.
pub proof fn law_largest<N: Scalar>(xs: Seq<N>)
    requires
        picks::<N>(),
        xs.len() > 0,
        forall|i: int| 0 <= i < xs.len() ==> (#[trigger] xs[i]).spec_is_number(),
    ensures
        spec_largest(xs).spec_is_number(),
        exists|i: int| 0 <= i < xs.len() && #[trigger] xs[i] == spec_largest(xs),
        forall|i: int| 0 <= i < xs.len() ==> !spec_largest(xs).spec_less(#[trigger] xs[i]),
    decreases xs.len(),
{
    let short = xs.drop_last();
    let last = xs.last();
    let n = xs.len() - 1;
    assert(last.spec_is_number());
    if n == 0 {
        assert(spec_largest(short) == N::spec_lowest());
        assert(spec_largest(xs) == last);
        assert(xs[0] == spec_largest(xs));
        assert forall|i: int| 0 <= i < xs.len() implies !spec_largest(xs).spec_less(
            #[trigger] xs[i],
        ) by {
            assert(xs[i] == last);
        }
    } else {
        assert forall|i: int| 0 <= i < short.len() implies (
        #[trigger] short[i]).spec_is_number() by {
            assert(short[i] == xs[i]);
        }
        law_largest(short);
        let before = spec_largest(short);
        let now = spec_largest(xs);
        assert(now == before.spec_larger(last));
        let j = choose|j: int| 0 <= j < short.len() && #[trigger] short[j] == before;
        assert(xs[j] == before && xs[n] == last);
        assert forall|i: int| 0 <= i < xs.len() implies !now.spec_less(#[trigger] xs[i]) by {
            if i < n {
                assert(short[i] == xs[i]);
                assert(!before.spec_less(short[i]));
                assert(!now.spec_less(before));
            }
        }
    }
}

/// The product of `k` factors `x`.
pub open spec fn power<N: Scalar>(x: N, k: nat) -> N
    decreases k,
{
    if k == 0 {
        N::spec_one()
    } else {
        power(x, (k - 1) as nat).spec_times(x)
    }
}

/// What every ring has beside its laws.
pub proof fn law_ring<N: Scalar>(a: N, b: N, c: N)
    requires
        ring::<N>(),
    ensures
        a.spec_plus(b) == b.spec_plus(a),
        a.spec_plus(b).spec_plus(c) == a.spec_plus(b.spec_plus(c)),
        a.spec_plus(N::spec_zero()) == a,
        N::spec_zero().spec_plus(a) == a,
        a.spec_plus(a.spec_negated()) == N::spec_zero(),
        a.spec_minus(b) == a.spec_plus(b.spec_negated()),
        a.spec_minus(b).spec_plus(b) == a,
        a.spec_plus(b).spec_minus(b) == a,
        a.spec_minus(a) == N::spec_zero(),
        a.spec_times(b) == b.spec_times(a),
        a.spec_times(b).spec_times(c) == a.spec_times(b.spec_times(c)),
        a.spec_times(N::spec_one()) == a,
        N::spec_one().spec_times(a) == a,
        a.spec_times(b.spec_plus(c)) == a.spec_times(b).spec_plus(a.spec_times(c)),
        b.spec_plus(c).spec_times(a) == b.spec_times(a).spec_plus(c.spec_times(a)),
        a.spec_times(N::spec_zero()) == N::spec_zero(),
        N::spec_zero().spec_times(a) == N::spec_zero(),
        a.spec_plus(b) == a.spec_plus(c) ==> b == c,
{
    let zero = N::spec_zero();
    let one = N::spec_one();
    let neg = b.spec_negated();
    use_plus_commutes(a, b);
    use_plus_associates(a, b, c);
    use_zero_is_neutral(a);
    use_plus_commutes(zero, a);
    use_negatives_cancel(a);
    use_negatives_cancel(b);
    use_minus_adds_negatives(a, b);
    use_plus_associates(a, neg, b);
    use_plus_commutes(neg, b);
    use_minus_adds_negatives(a.spec_plus(b), b);
    use_plus_associates(a, b, neg);
    use_minus_adds_negatives(a, a);
    use_times_commutes(a, b);
    use_times_commutes(a, c);
    use_times_associates(a, b, c);
    use_one_is_neutral(a);
    use_times_commutes(one, a);
    use_times_distributes(a, b, c);
    use_times_commutes(b.spec_plus(c), a);
    let p = a.spec_times(zero);
    use_zero_is_neutral(zero);
    use_times_distributes(a, zero, zero);
    use_plus_associates(p, p, p.spec_negated());
    use_negatives_cancel(p);
    use_zero_is_neutral(p);
    use_times_commutes(zero, a);
    if a.spec_plus(b) == a.spec_plus(c) {
        let m = a.spec_negated();
        use_plus_commutes(m, a);
        use_plus_associates(m, a, b);
        use_plus_associates(m, a, c);
        use_plus_commutes(zero, b);
        use_plus_commutes(zero, c);
        use_zero_is_neutral(b);
        use_zero_is_neutral(c);
    }
}

/// A negative sign comes out of a product, and goes from a sum to each of its terms.
pub proof fn law_ring_signs<N: Scalar>(a: N, b: N)
    requires
        ring::<N>(),
    ensures
        a.spec_times(b.spec_negated()) == a.spec_times(b).spec_negated(),
        a.spec_negated().spec_times(b) == a.spec_times(b).spec_negated(),
        a.spec_negated().spec_negated() == a,
        a.spec_plus(b).spec_negated() == a.spec_negated().spec_plus(b.spec_negated()),
{
    let zero = N::spec_zero();
    let m = b.spec_negated();
    let n = a.spec_negated();
    let p = a.spec_times(b);
    law_ring(a, b, m);
    use_negatives_cancel(b);
    law_ring(p, a.spec_times(m), p.spec_negated());
    use_negatives_cancel(a);
    law_ring(b, a, n);
    law_ring(p, n.spec_times(b), p.spec_negated());
    law_ring(n, n.spec_negated(), a);
    use_plus_commutes(n, a);
    use_negatives_cancel(n);
    let s = a.spec_plus(b);
    use_negatives_cancel(s);
    law_ring(s, s.spec_negated(), n.spec_plus(m));
    use_plus_commutes(a, b);
    use_plus_associates(b, a, n.spec_plus(m));
    use_plus_associates(a, n, m);
    law_ring(m, zero, a);
}

spec fn span() -> int {
    0x1_0000_0000_0000_0000
}

/// The whole number that `x` wraps around to.
spec fn wrapped(x: int) -> i64 {
    vstd::wrapping::i64_specs::signed_crop(x)
}

proof fn lemma_wrapped(x: int) -> (k: int)
    ensures
        wrapped(x) == x - k * span(),
{
    vstd::arithmetic::div_mod::lemma_fundamental_div_mod(x, span());
    vstd::arithmetic::div_mod::lemma_mod_bound(x, span());
    let q = x / span();
    assert(span() * q == q * span()) by (nonlinear_arith);
    if x % span() > i64::MAX {
        assert((q + 1) * span() == q * span() + span()) by (nonlinear_arith);
        q + 1
    } else {
        q
    }
}

proof fn lemma_wraps_alike(x: int, y: int, k: int)
    requires
        x == y + k * span(),
    ensures
        wrapped(x) == wrapped(y),
{
    assert(span() * k + y == x) by (nonlinear_arith)
        requires
            x == y + k * span(),
    ;
    vstd::arithmetic::div_mod::lemma_mod_multiples_vanish(k, y, span());
}

proof fn lemma_wrapped_here(x: i64)
    ensures
        wrapped(x as int) == x,
{
    let k = lemma_wrapped(x as int);
    assert(k == 0) by (nonlinear_arith)
        requires
            wrapped(x as int) == x - k * span(),
            span() == 0x1_0000_0000_0000_0000,
            i64::MIN <= x <= i64::MAX,
            i64::MIN <= wrapped(x as int) <= i64::MAX,
    ;
}

proof fn lemma_whole_sum(a: i64, b: i64)
    ensures
        a.spec_plus(b) == wrapped(a + b),
        a.spec_minus(b) == wrapped(a - b),
        a.spec_negated() == wrapped(-a),
{
    let x = a.spec_plus(b);
    let y = a.spec_minus(b);
    let z = a.spec_negated();
    lemma_wrapped_here(x);
    lemma_wrapped_here(y);
    lemma_wrapped_here(z);
    let j: int = if a + b > i64::MAX {
        1
    } else if a + b < i64::MIN {
        -1
    } else {
        0
    };
    assert(j * span() == if j == 1 { span() } else if j == -1 { -span() } else { 0 }) by (nonlinear_arith)
        requires
            j == 1 || j == -1 || j == 0,
    ;
    lemma_wraps_alike(a + b, x as int, j);
    let k: int = if a - b > i64::MAX {
        1
    } else if a - b < i64::MIN {
        -1
    } else {
        0
    };
    assert(k * span() == if k == 1 { span() } else if k == -1 { -span() } else { 0 }) by (nonlinear_arith)
        requires
            k == 1 || k == -1 || k == 0,
    ;
    lemma_wraps_alike(a - b, y as int, k);
    let l: int = if -a > i64::MAX {
        1
    } else {
        0
    };
    assert(l * span() == if l == 1 { span() } else { 0 }) by (nonlinear_arith)
        requires
            l == 1 || l == 0,
    ;
    lemma_wraps_alike(-a, z as int, l);
}

/// Whole numbers, which wrap around, are a ring.
pub proof fn law_whole_ring()
    ensures
        ring::<i64>(),
{
    reveal(plus_commutes);
    reveal(plus_associates);
    reveal(zero_is_neutral);
    reveal(negatives_cancel);
    reveal(minus_adds_negatives);
    reveal(times_commutes);
    reveal(times_associates);
    reveal(one_is_neutral);
    reveal(times_distributes);
    assert forall|a: i64, b: i64| #[trigger] a.spec_plus(b) == b.spec_plus(a) by {
        lemma_whole_sum(a, b);
        lemma_whole_sum(b, a);
    }
    assert forall|a: i64, b: i64, c: i64| #[trigger]
        a.spec_plus(b).spec_plus(c) == a.spec_plus(b.spec_plus(c)) by {
        lemma_whole_sum(a, b);
        lemma_whole_sum(b, c);
        lemma_whole_sum(a.spec_plus(b), c);
        lemma_whole_sum(a, b.spec_plus(c));
        let j = lemma_wrapped(a + b);
        let k = lemma_wrapped(b + c);
        assert((j - k) * span() == j * span() - k * span()) by (nonlinear_arith);
        lemma_wraps_alike(a + b.spec_plus(c), a.spec_plus(b) + c, j - k);
    }
    assert forall|a: i64| #[trigger] a.spec_plus(i64::spec_zero()) == a by {}
    assert forall|a: i64| #[trigger] a.spec_plus(a.spec_negated()) == i64::spec_zero() by {
        let m = a.spec_negated();
        lemma_whole_sum(a, a);
        lemma_whole_sum(a, m);
        let k = lemma_wrapped(-a);
        assert((-k) * span() == -(k * span())) by (nonlinear_arith);
        lemma_wraps_alike(a + m, 0, -k);
        lemma_wrapped_here(0);
    }
    assert forall|a: i64, b: i64| #[trigger] a.spec_minus(b) == a.spec_plus(b.spec_negated()) by {
        let m = b.spec_negated();
        lemma_whole_sum(a, b);
        lemma_whole_sum(b, b);
        lemma_whole_sum(a, m);
        let k = lemma_wrapped(-b);
        assert((-k) * span() == -(k * span())) by (nonlinear_arith);
        lemma_wraps_alike(a + m, a - b, -k);
    }
    assert forall|a: i64, b: i64| #[trigger] a.spec_times(b) == b.spec_times(a) by {
        assert(a * b == b * a) by (nonlinear_arith);
    }
    assert forall|a: i64, b: i64, c: i64| #[trigger]
        a.spec_times(b).spec_times(c) == a.spec_times(b.spec_times(c)) by {
        let j = lemma_wrapped(a * b);
        let k = lemma_wrapped(b * c);
        let x = a.spec_times(b) as int;
        let y = b.spec_times(c) as int;
        assert(x * c == a * y + (k * a - j * c) * span()) by (nonlinear_arith)
            requires
                x == a * b - j * span(),
                y == b * c - k * span(),
        ;
        lemma_wraps_alike(x * c, a * y, k * a - j * c);
    }
    assert forall|a: i64| #[trigger] a.spec_times(i64::spec_one()) == a by {
        assert(a * 1 == a);
        lemma_wrapped_here(a);
    }
    assert forall|a: i64, b: i64, c: i64| #[trigger]
        a.spec_times(b.spec_plus(c)) == a.spec_times(b).spec_plus(a.spec_times(c)) by {
        lemma_whole_sum(b, c);
        let x = a.spec_times(b);
        let y = a.spec_times(c);
        lemma_whole_sum(x, y);
        let i = lemma_wrapped(b + c);
        let j = lemma_wrapped(a * b);
        let k = lemma_wrapped(a * c);
        let z = b.spec_plus(c) as int;
        assert(a * z == x + y + (j + k - a * i) * span()) by (nonlinear_arith)
            requires
                z == b + c - i * span(),
                x == a * b - j * span(),
                y == a * c - k * span(),
        ;
        lemma_wraps_alike(a * z, x + y, j + k - a * i);
    }
}

/// Whole numbers have every law that the library speaks of.
pub proof fn law_whole_numbers()
    ensures
        faithful_bits::<i64>(),
        weakly_ordered::<i64>(),
{
    assert forall|x: i64| i64::spec_from_bits(#[trigger] x.spec_bits()) == x by {
        assert((x as u64) as i64 == x) by (bit_vector);
    }
}

/// The number that stands for a signed count.
pub open spec fn spec_whole<N: Scalar>(x: i32) -> N {
    if x >= 0 {
        N::spec_count(x as u64)
    } else {
        N::spec_count((-(x as int)) as u64).spec_negated()
    }
}

/// The number that stands for a signed count.
pub fn whole<N: Scalar>(x: i32) -> (r: N)
    ensures
        r == spec_whole::<N>(x),
{
    if x >= 0 {
        N::count(x as u64)
    } else {
        N::count((-(x as i64)) as u64).negated()
    }
}

/// The sum of `xs`, from the left.
pub open spec fn spec_sum<N: Scalar>(xs: Seq<N>) -> N {
    xs.fold_left(N::spec_zero(), |a: N, x: N| a.spec_plus(x))
}

/// The largest of `xs`, from the left; the lowest number where there is none.
pub open spec fn spec_largest<N: Scalar>(xs: Seq<N>) -> N {
    xs.fold_left(N::spec_lowest(), |a: N, x: N| a.spec_larger(x))
}

/// The sum of `xs`, from the left.
pub fn sum<N: Scalar>(xs: &[N]) -> (r: N)
    ensures
        r == spec_sum(xs@),
{
    let mut acc = N::zero();
    let mut i: usize = 0;
    while i < xs.len()
        invariant
            i <= xs.len(),
            acc == spec_sum(xs@.take(i as int)),
        decreases xs.len() - i,
    {
        assert(xs@.take(i + 1).drop_last() =~= xs@.take(i as int));
        acc = acc.plus(xs[i]);
        i = i + 1;
    }
    assert(xs@.take(i as int) =~= xs@);
    acc
}

/// The largest of `xs`, from the left.
pub fn largest<N: Scalar>(xs: &[N]) -> (r: N)
    ensures
        r == spec_largest(xs@),
{
    let mut acc = N::lowest();
    let mut i: usize = 0;
    while i < xs.len()
        invariant
            i <= xs.len(),
            acc == spec_largest(xs@.take(i as int)),
        decreases xs.len() - i,
    {
        assert(xs@.take(i + 1).drop_last() =~= xs@.take(i as int));
        acc = acc.larger(xs[i]);
        i = i + 1;
    }
    assert(xs@.take(i as int) =~= xs@);
    acc
}

/// The whole number whose square is the last not above `x`; zero where `x` is not positive.
pub open spec fn whole_root(x: int) -> int {
    if x <= 0 {
        0
    } else {
        choose|r: int| 0 <= r && #[trigger] (r * r) <= x && x < (r + 1) * (r + 1)
    }
}

proof fn lemma_whole_root(x: int, r: int)
    requires
        0 < x,
        0 <= r,
        r * r <= x < (r + 1) * (r + 1),
    ensures
        whole_root(x) == r,
{
    let q = whole_root(x);
    assert(0 <= q && q * q <= x && x < (q + 1) * (q + 1));
    assert(q <= r) by (nonlinear_arith)
        requires
            0 <= q,
            0 <= r,
            q * q <= x,
            x < (r + 1) * (r + 1),
    ;
    assert(r <= q) by (nonlinear_arith)
        requires
            0 <= q,
            0 <= r,
            r * r <= x,
            x < (q + 1) * (q + 1),
    ;
}

/// Whole numbers. Sums, differences and products wrap around; a division by zero is zero.
impl Scalar for i64 {
    open spec fn spec_zero() -> i64 {
        0
    }

    fn zero() -> (r: i64) {
        0
    }

    open spec fn spec_one() -> i64 {
        1
    }

    fn one() -> (r: i64) {
        1
    }

    open spec fn spec_lowest() -> i64 {
        i64::MIN
    }

    fn lowest() -> (r: i64) {
        i64::MIN
    }

    open spec fn spec_highest() -> i64 {
        i64::MAX
    }

    fn highest() -> (r: i64) {
        i64::MAX
    }

    open spec fn spec_count(n: u64) -> i64 {
        if n <= i64::MAX {
            n as i64
        } else {
            i64::MAX
        }
    }

    fn count(n: u64) -> (r: i64) {
        if n <= 0x7fff_ffff_ffff_ffff {
            n as i64
        } else {
            i64::MAX
        }
    }

    open spec fn spec_plus(self, rhs: i64) -> i64 {
        self.wrapping_add(rhs)
    }

    fn plus(self, rhs: i64) -> (r: i64) {
        self.wrapping_add(rhs)
    }

    open spec fn spec_minus(self, rhs: i64) -> i64 {
        self.wrapping_sub(rhs)
    }

    fn minus(self, rhs: i64) -> (r: i64) {
        self.wrapping_sub(rhs)
    }

    open spec fn spec_times(self, rhs: i64) -> i64 {
        self.wrapping_mul(rhs)
    }

    fn times(self, rhs: i64) -> (r: i64) {
        self.wrapping_mul(rhs)
    }

    /// The quotient rounds toward zero.
    open spec fn spec_over(self, rhs: i64) -> i64 {
        if rhs == 0 {
            0
        } else if rhs == -1 {
            0i64.wrapping_sub(self)
        } else if self >= 0 {
            (self as int / rhs as int) as i64
        } else {
            (-((-(self as int)) / rhs as int)) as i64
        }
    }

    fn over(self, rhs: i64) -> (r: i64) {
        if rhs == 0 {
            0
        } else if rhs == -1 {
            0i64.wrapping_sub(self)
        } else {
            self / rhs
        }
    }

    open spec fn spec_negated(self) -> i64 {
        0i64.wrapping_sub(self)
    }

    fn negated(self) -> (r: i64) {
        0i64.wrapping_sub(self)
    }

    open spec fn spec_root(self) -> i64 {
        whole_root(self as int) as i64
    }

    fn root(self) -> (r: i64) {
        if self <= 0 {
            return 0;
        }
        let x: i128 = self as i128;
        let mut lo: i128 = 0;
        let mut hi: i128 = 0x1_0000_0000;
        assert(x < hi * hi);
        while lo + 1 < hi
            invariant
                0 <= lo < hi <= 0x1_0000_0000,
                x == self,
                lo * lo <= x < hi * hi,
            decreases hi - lo,
        {
            let mid: i128 = lo + (hi - lo) / 2;
            assert(0 <= mid * mid <= 0x1_0000_0000 * 0x1_0000_0000) by (nonlinear_arith)
                requires
                    0 <= mid <= 0x1_0000_0000,
            ;
            if mid * mid <= x {
                lo = mid;
            } else {
                hi = mid;
            }
        }
        proof {
            assert(hi == lo + 1);
            lemma_whole_root(self as int, lo as int);
        }
        lo as i64
    }

    open spec fn spec_less(self, rhs: i64) -> bool {
        self < rhs
    }

    fn less(self, rhs: i64) -> (r: bool) {
        self < rhs
    }

    open spec fn spec_at_most(self, rhs: i64) -> bool {
        self <= rhs
    }

    fn at_most(self, rhs: i64) -> (r: bool) {
        self <= rhs
    }

    open spec fn spec_same(self, rhs: i64) -> bool {
        self == rhs
    }

    fn same(self, rhs: i64) -> (r: bool) {
        self == rhs
    }

    open spec fn spec_larger(self, rhs: i64) -> i64 {
        if self < rhs {
            rhs
        } else {
            self
        }
    }

    fn larger(self, rhs: i64) -> (r: i64) {
        if self < rhs {
            rhs
        } else {
            self
        }
    }

    open spec fn spec_smaller(self, rhs: i64) -> i64 {
        if rhs < self {
            rhs
        } else {
            self
        }
    }

    fn smaller(self, rhs: i64) -> (r: i64) {
        if rhs < self {
            rhs
        } else {
            self
        }
    }

    open spec fn spec_is_finite(self) -> bool {
        true
    }

    fn is_finite(self) -> (r: bool) {
        true
    }

    open spec fn spec_is_number(self) -> bool {
        true
    }

    fn is_number(self) -> (r: bool) {
        true
    }

    open spec fn spec_index(self) -> usize {
        if self <= 0 {
            0
        } else if self <= usize::MAX {
            self as usize
        } else {
            usize::MAX
        }
    }

    fn index(self) -> (r: usize) {
        if self <= 0 {
            0
        } else if self as u64 <= usize::MAX as u64 {
            self as usize
        } else {
            usize::MAX
        }
    }

    open spec fn spec_bits(self) -> u64 {
        self as u64
    }

    fn bits(self) -> (r: u64) {
        self as u64
    }

    open spec fn spec_from_bits(bits: u64) -> i64 {
        bits as i64
    }

    fn from_bits(bits: u64) -> (r: i64) {
        bits as i64
    }
}

} // verus!
