//! Acting on visit counts.

use vstd::prelude::*;

use crate::game::Rng;
use crate::num::{sum, Scalar};
#[allow(unused_imports)]
use crate::num::{spec_sum, weakly_ordered};
use crate::policy::argmax;
#[allow(unused_imports)]
use crate::policy::{law_argmax, spec_argmax};
use crate::rng::SplitMix64;

verus! {

/// A source of powers.
pub trait Pow<N: Scalar> {
    fn pow(&self, x: N, y: N) -> N;
}

/// The largest of `visits`, and of nothing.
pub open spec fn peak<N: Scalar>(visits: Seq<N>) -> N {
    visits.fold_left(N::spec_zero(), |m: N, v: N| m.spec_larger(v))
}

/// Weights that visits may stand for: powers of the visits relative to their peak, which cannot
/// overflow at low temperatures; nothing for what was not visited.
pub open spec fn visit_weights<N: Scalar, P: Pow<N>>(
    pow: P,
    visits: Seq<N>,
    temperature: N,
    w: Seq<N>,
) -> bool {
    &&& w.len() == visits.len()
    &&& forall|i: int|
        0 <= i < w.len() ==> if N::spec_zero().spec_less(visits[i]) {
            call_ensures(
                P::pow,
                (
                    &pow,
                    visits[i].spec_over(peak(visits)),
                    N::spec_one().spec_over(temperature),
                ),
                #[trigger] w[i],
            )
        } else {
            w[i] == N::spec_zero()
        }
}

/// The index at which `r` is used up by the weights from the `i`-th on; the heaviest where rounding
/// leaves some over.
pub open spec fn weight_taken<N: Scalar>(w: Seq<N>, i: nat, r: N) -> int
    decreases w.len() - i,
{
    if i >= w.len() {
        spec_argmax(w, w.len())
    } else {
        let left = r.spec_minus(w[i as int]);
        if N::spec_zero().spec_less(w[i as int]) && left.spec_at_most(N::spec_zero()) {
            i as int
        } else {
            weight_taken(w, i + 1, left)
        }
    }
}

/// The index that weights and a draw pick.
pub open spec fn weight_picked<N: Scalar>(w: Seq<N>, draw: N) -> int {
    weight_taken(w, 0, draw.spec_times(spec_sum(w)))
}

/// Picks by weight.
pub fn pick_by_weight<N: Scalar>(w: &[N], draw: N) -> (r: usize)
    ensures
        r == weight_picked(w@, draw),
        r == 0 || r < w@.len(),
{
    let mut r = draw.times(sum(w));
    let mut i: usize = 0;
    while i < w.len()
        invariant
            i <= w@.len(),
            weight_taken(w@, i as nat, r) == weight_picked(w@, draw),
        decreases w@.len() - i,
    {
        r = r.minus(w[i]);
        if N::zero().less(w[i]) && r.at_most(N::zero()) {
            return i;
        }
        i = i + 1;
    }
    argmax(w)
}

/// Where some weight is above nothing, among numbers, so is the weight picked: what was not visited
/// is never played.
pub proof fn law_weight_picked<N: Scalar>(w: Seq<N>, draw: N)
    requires
        weakly_ordered::<N>(),
        N::spec_zero().spec_is_number(),
        forall|i: int| 0 <= i < w.len() ==> (#[trigger] w[i]).spec_is_number(),
        exists|i: int| 0 <= i < w.len() && N::spec_zero().spec_less(#[trigger] w[i]),
    ensures
        0 <= weight_picked(w, draw) < w.len(),
        N::spec_zero().spec_less(w[weight_picked(w, draw)]),
{
    lemma_weight_taken(w, 0, draw.spec_times(spec_sum(w)));
}

proof fn lemma_weight_taken<N: Scalar>(w: Seq<N>, i: nat, r: N)
    requires
        weakly_ordered::<N>(),
        N::spec_zero().spec_is_number(),
        forall|i: int| 0 <= i < w.len() ==> (#[trigger] w[i]).spec_is_number(),
        exists|i: int| 0 <= i < w.len() && N::spec_zero().spec_less(#[trigger] w[i]),
    ensures
        0 <= weight_taken(w, i, r) < w.len(),
        N::spec_zero().spec_less(w[weight_taken(w, i, r)]),
    decreases w.len() - i,
{
    if i >= w.len() {
        let k = choose|i: int| 0 <= i < w.len() && N::spec_zero().spec_less(#[trigger] w[i]);
        law_argmax(w, w.len());
        let best = spec_argmax(w, w.len());
        assert(!w[best].spec_less(w[k]));
    } else {
        lemma_weight_taken(w, i + 1, r.spec_minus(w[i as int]));
    }
}

/// An action that may be sampled from visits.
pub open spec fn visits_sampled<N: Scalar, P: Pow<N>>(
    pow: P,
    visits: Seq<N>,
    temperature: N,
    rng: SplitMix64,
    action: usize,
    next: SplitMix64,
) -> bool {
    if peak(visits).spec_at_most(N::spec_zero()) {
        action == 0 && next == rng
    } else {
        &&& next == <SplitMix64 as Rng<N>>::spec_unit(rng).1
        &&& exists|w: Seq<N>|
            visit_weights(pow, visits, temperature, w) && action == #[trigger] weight_picked(
                w,
                <SplitMix64 as Rng<N>>::spec_unit(rng).0,
            )
    }
}

fn find_peak<N: Scalar>(visits: &[N]) -> (r: N)
    ensures
        r == peak(visits@),
{
    let mut m = N::zero();
    let mut i: usize = 0;
    while i < visits.len()
        invariant
            i <= visits@.len(),
            m == peak(visits@.take(i as int)),
        decreases visits@.len() - i,
    {
        assert(visits@.take(i + 1).drop_last() =~= visits@.take(i as int));
        m = m.larger(visits[i]);
        i = i + 1;
    }
    assert(visits@.take(i as int) =~= visits@);
    m
}

/// Samples an action in proportion to its visits, tempered.
pub fn sample_visits<N: Scalar, P: Pow<N>>(
    pow: &P,
    visits: &[N],
    temperature: N,
    rng: &mut SplitMix64,
) -> (r: usize)
    ensures
        visits_sampled(*pow, visits@, temperature, *old(rng), r, *final(rng)),
{
    let top = find_peak(visits);
    if top.at_most(N::zero()) {
        return 0;
    }
    let inverse = N::one().over(temperature);
    let mut w: Vec<N> = Vec::new();
    let mut i: usize = 0;
    while i < visits.len()
        invariant
            i <= visits@.len(),
            w@.len() == i,
            top == peak(visits@),
            !top.spec_at_most(N::spec_zero()),
            *rng == *old(rng),
            inverse == N::spec_one().spec_over(temperature),
            forall|k: int|
                0 <= k < i ==> if N::spec_zero().spec_less(visits@[k]) {
                    call_ensures(
                        P::pow,
                        (pow, visits@[k].spec_over(top), inverse),
                        #[trigger] w@[k],
                    )
                } else {
                    w@[k] == N::spec_zero()
                },
        decreases visits@.len() - i,
    {
        if N::zero().less(visits[i]) {
            let x = pow.pow(visits[i].over(top), inverse);
            w.push(x);
        } else {
            w.push(N::zero());
        }
        i = i + 1;
    }
    assert(visit_weights(*pow, visits@, temperature, w@));
    let draw: N = <SplitMix64 as Rng<N>>::unit(rng);
    let picked = pick_by_weight(&w, draw);
    assert(picked == weight_picked(w@, <SplitMix64 as Rng<N>>::spec_unit(*old(rng)).0));
    picked
}

} // verus!
