//! The library's generator. Every draw comes from one splitmix64 implementation, so a run is
//! reproducible from its seed.

use vstd::prelude::*;

use crate::game::Rng;
use crate::num::{sum, Scalar};
#[allow(unused_imports)]
use crate::num::spec_sum;

verus! {

/// The step of the generator's state.
pub const GOLDEN: u64 = 0x9E37_79B9_7F4A_7C15;

/// The output of splitmix64 at a state.
pub open spec fn mixed(state: u64) -> u64 {
    let a = vstd::wrapping::u64_specs::wrapping_mul(state ^ (state >> 30), 0xBF58_476D_1CE4_E5B9);
    let b = vstd::wrapping::u64_specs::wrapping_mul(a ^ (a >> 27), 0x94D0_49BB_1331_11EB);
    b ^ (b >> 31)
}

/// Tiny deterministic generator (splitmix64).
#[derive(Clone, PartialEq, Eq, Debug, Structural)]
pub struct SplitMix64 {
    state: u64,
}

impl View for SplitMix64 {
    type V = u64;

    closed spec fn view(&self) -> u64 {
        self.state
    }
}

/// The generator whose state is `state`.
pub closed spec fn generator(state: u64) -> SplitMix64 {
    SplitMix64 { state }
}

/// A generator is its state: it is resumed exactly from what [`SplitMix64::state`] gave.
pub broadcast proof fn law_generator(g: SplitMix64, state: u64)
    ensures
        #![trigger g@, generator(state)]
        generator(g@) == g,
        generator(state)@ == state,
{
}

impl SplitMix64 {
    pub fn new(seed: u64) -> (r: Self)
        ensures
            r@ == seed,
            r == generator(seed),
    {
        SplitMix64 { state: seed }
    }

    /// The raw state: [`SplitMix64::from_state`] resumes exactly here.
    pub fn state(&self) -> (r: u64)
        ensures
            r == self@,
            *self == generator(r),
    {
        self.state
    }

    pub fn from_state(state: u64) -> (r: Self)
        ensures
            r@ == state,
            r == generator(state),
    {
        SplitMix64 { state }
    }

    /// Advances the state by one step and mixes it.
    pub fn next_u64(&mut self) -> (r: u64)
        ensures
            final(self)@ == vstd::wrapping::u64_specs::wrapping_add(old(self)@, GOLDEN),
            *final(self) == generator(final(self)@),
            r == mixed(final(self)@),
    {
        self.state = self.state.wrapping_add(GOLDEN);
        let mut z: u64 = self.state;
        z = (z ^ (z >> 30)).wrapping_mul(0xBF58_476D_1CE4_E5B9);
        z = (z ^ (z >> 27)).wrapping_mul(0x94D0_49BB_1331_11EB);
        z ^ (z >> 31)
    }
}

impl<N: Scalar> Rng<N> for SplitMix64 {
    open spec fn spec_below(self, n: usize) -> (usize, Self) {
        let next = vstd::wrapping::u64_specs::wrapping_add(self@, GOLDEN);
        ((mixed(next) % (n as u64)) as usize, generator(next))
    }

    fn below(&mut self, n: usize) -> (r: usize) {
        (self.next_u64() % (n as u64)) as usize
    }

    open spec fn spec_unit(self) -> (N, Self) {
        let next = vstd::wrapping::u64_specs::wrapping_add(self@, GOLDEN);
        (
            N::spec_count(mixed(next) >> 11).spec_over(N::spec_count(0x20_0000_0000_0000u64)),
            generator(next),
        )
    }

    fn unit(&mut self) -> (r: N) {
        N::count(self.next_u64() >> 11).over(N::count(0x20_0000_0000_0000u64))
    }
}

/// The index at which `r`, less the positive weights from `i` on, first reaches nothing; `last`
/// holds the last positive weight seen, on which the search ends where it never does.
pub open spec fn weight_scan<N: Scalar>(probs: Seq<N>, i: int, r: N, last: int) -> int
    decreases probs.len() - i,
{
    if i < 0 || i >= probs.len() {
        last
    } else if N::spec_zero().spec_less(probs[i]) {
        let rest = r.spec_minus(probs[i]);
        if rest.spec_at_most(N::spec_zero()) {
            i
        } else {
            weight_scan(probs, i + 1, rest, i)
        }
    } else {
        weight_scan(probs, i + 1, r, last)
    }
}

/// The index that a draw of `unit` picks from `probs`.
pub open spec fn weighted_pick<N: Scalar>(probs: Seq<N>, unit: N) -> int {
    weight_scan(probs, 0, unit.spec_times(spec_sum(probs)), 0)
}

/// A scan ends inside the weights, or on the index that it came with.
pub proof fn lemma_weight_scan_bound<N: Scalar>(probs: Seq<N>, i: int, r: N, last: int)
    requires
        0 <= i,
    ensures
        weight_scan(probs, i, r, last) == last || i <= weight_scan(probs, i, r, last) < probs.len(),
    decreases probs.len() - i,
{
    if i < probs.len() {
        if N::spec_zero().spec_less(probs[i]) {
            let rest = r.spec_minus(probs[i]);
            lemma_weight_scan_bound(probs, i + 1, rest, i);
        } else {
            lemma_weight_scan_bound(probs, i + 1, r, last);
        }
    }
}

/// A weighted draw never falls on an entry without positive weight while there is another.
pub proof fn law_weighted_pick<N: Scalar>(probs: Seq<N>, unit: N)
    requires
        exists|k: int| 0 <= k < probs.len() && N::spec_zero().spec_less(#[trigger] probs[k]),
    ensures
        0 <= weighted_pick(probs, unit) < probs.len(),
        N::spec_zero().spec_less(probs[weighted_pick(probs, unit)]),
{
    let k = choose|k: int| 0 <= k < probs.len() && N::spec_zero().spec_less(#[trigger] probs[k]);
    lemma_weight_scan_positive(probs, 0, unit.spec_times(spec_sum(probs)), 0, k);
}

proof fn lemma_weight_scan_positive<N: Scalar>(probs: Seq<N>, i: int, r: N, last: int, k: int)
    requires
        0 <= i,
        0 <= k < probs.len(),
        N::spec_zero().spec_less(probs[k]),
        i <= k || (0 <= last < probs.len() && N::spec_zero().spec_less(probs[last])),
    ensures
        0 <= weight_scan(probs, i, r, last) < probs.len(),
        N::spec_zero().spec_less(probs[weight_scan(probs, i, r, last)]),
    decreases probs.len() - i,
{
    if i < probs.len() {
        if N::spec_zero().spec_less(probs[i]) {
            let rest = r.spec_minus(probs[i]);
            if !rest.spec_at_most(N::spec_zero()) {
                lemma_weight_scan_positive(probs, i + 1, rest, i, k);
            }
        } else {
            lemma_weight_scan_positive(probs, i + 1, r, last, k);
        }
    }
}

/// Draws an index proportional to `probs`, by one `unit` draw.
pub fn weighted_index<N: Scalar, R: Rng<N>>(rng: &mut R, probs: &[N]) -> (r: usize)
    ensures
        r == weighted_pick(probs@, old(rng).spec_unit().0),
        *final(rng) == old(rng).spec_unit().1,
        r == 0 || r < probs@.len(),
{
    let total = sum(probs);
    let mut r = rng.unit().times(total);
    let mut last: usize = 0;
    let mut i: usize = 0;
    proof {
        lemma_weight_scan_bound(probs@, 0, r, 0);
    }
    while i < probs.len()
        invariant
            i <= probs@.len(),
            last == 0 || last < probs@.len(),
            weight_scan(probs@, i as int, r, last as int) == weighted_pick(
                probs@,
                old(rng).spec_unit().0,
            ),
            *rng == old(rng).spec_unit().1,
        decreases probs.len() - i,
    {
        let p = probs[i];
        if N::zero().less(p) {
            last = i;
            r = r.minus(p);
            if r.at_most(N::zero()) {
                return i;
            }
        }
        i = i + 1;
    }
    last
}

/// `draws` over their total; uniform where the total is not positive.
pub open spec fn normalized<N: Scalar>(draws: Seq<N>) -> Seq<N> {
    let total = spec_sum(draws);
    if total.spec_at_most(N::spec_zero()) {
        Seq::new(
            draws.len(),
            |i: int| N::spec_one().spec_over(N::spec_count(draws.len() as u64)),
        )
    } else {
        draws.map_values(|d: N| d.spec_over(total))
    }
}

/// Scales `draws` to a distribution, uniform where they sum to nothing.
pub fn normalize<N: Scalar>(draws: &[N]) -> (r: Vec<N>)
    ensures
        r@ == normalized(draws@),
{
    let total = sum(draws);
    if total.at_most(N::zero()) {
        let even = N::one().over(N::count(draws.len() as u64));
        let r = crate::util::filled(even, draws.len());
        assert(r@ =~= normalized(draws@));
        return r;
    }
    let mut r: Vec<N> = Vec::new();
    let mut i: usize = 0;
    while i < draws.len()
        invariant
            i <= draws@.len(),
            total == spec_sum(draws@),
            r@ == draws@.take(i as int).map_values(|d: N| d.spec_over(total)),
        decreases draws.len() - i,
    {
        r.push(draws[i].over(total));
        i = i + 1;
        assert(r@ =~= draws@.take(i as int).map_values(|d: N| d.spec_over(total)));
    }
    assert(draws@.take(i as int) =~= draws@);
    r
}

/// A source of Gamma(`alpha`, 1) variates: a variate, and the generator after it.
pub trait GammaSource<N: Scalar, R: Rng<N>> {
    fn gamma(&self, rng: R, alpha: N) -> (N, R);
}

/// `draws` may come from `source`, one after the other, when the generator begins at `rng` and ends
/// at `end`.
pub open spec fn drawn<N: Scalar, R: Rng<N>, S: GammaSource<N, R>>(
    source: S,
    rng: R,
    alpha: N,
    draws: Seq<N>,
    end: R,
) -> bool {
    exists|rngs: Seq<R>|
        {
            &&& #[trigger] rngs.len() == draws.len() + 1
            &&& rngs[0] == rng
            &&& rngs[draws.len() as int] == end
            &&& forall|i: int|
                0 <= i < draws.len() ==> call_ensures(
                    S::gamma,
                    (&source, rngs[i], alpha),
                    (#[trigger] draws[i], rngs[i + 1]),
                )
        }
}

/// A symmetric Dirichlet(`alpha`) draw of dimension `k`: normalized Gamma draws. What the source
/// draws is its own affair; what is made of the draws is not.
pub fn dirichlet<N: Scalar, R: Rng<N>, S: GammaSource<N, R>>(
    source: &S,
    rng: R,
    alpha: N,
    k: usize,
) -> (r: (Vec<N>, R))
    ensures
        r.0@.len() == k,
        exists|draws: Seq<N>|
            draws.len() == k && drawn(*source, rng, alpha, draws, r.1) && r.0@ == #[trigger] normalized(
                draws,
            ),
{
    let mut draws: Vec<N> = Vec::new();
    let ghost mut rngs: Seq<R> = seq![rng];
    let mut current = rng;
    let mut i: usize = 0;
    while i < k
        invariant
            i <= k,
            draws@.len() == i,
            rngs.len() == i + 1,
            rngs[0] == rng,
            rngs[i as int] == current,
            forall|j: int|
                0 <= j < i ==> call_ensures(
                    S::gamma,
                    (source, rngs[j], alpha),
                    (#[trigger] draws@[j], rngs[j + 1]),
                ),
        decreases k - i,
    {
        let (x, next) = source.gamma(current, alpha);
        draws.push(x);
        proof {
            rngs = rngs.push(next);
        }
        current = next;
        i = i + 1;
    }
    assert(drawn(*source, rng, alpha, draws@, current));
    (normalize(&draws), current)
}

} // verus!
