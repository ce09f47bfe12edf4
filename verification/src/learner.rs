//! From evaluations to training records.

use vstd::prelude::*;

use crate::encoder::ActionView;
use crate::fault::Fault;
use crate::game::Rng;
use crate::num::{largest, Scalar};
#[allow(unused_imports)]
use crate::num::spec_largest;
use crate::policies::tree::expectimax::backup::InteriorTarget;
#[allow(unused_imports)]
use crate::policies::tree::expectimax::backup::targets;
use crate::policies::tree::expectimax::evaluate::{any_stray, find_heads};
#[allow(unused_imports)]
use crate::policies::tree::expectimax::evaluate::{gathered, heads_of, lemma_entry, strays};
use crate::rng::SplitMix64;
#[allow(unused_imports)]
use crate::util::{matrix, viewed};

verus! {

/// One buffered decision. Actions remain in the game's frame until records are made.
pub struct Step<F, N, E> {
    pub obs: Vec<F>,
    pub evaluation: E,
    pub action: usize,
    pub reward: N,
    pub next_obs: Vec<F>,
    pub next_legal: Vec<usize>,
    pub terminal: bool,
}

/// A decision as a mathematical value.
#[verifier::ext_equal]
pub struct StepModel<F, N, V> {
    pub obs: Seq<F>,
    pub evaluation: V,
    pub action: usize,
    pub reward: N,
    pub next_obs: Seq<F>,
    pub next_legal: Seq<usize>,
    pub terminal: bool,
}

impl<F, N, E: View> View for Step<F, N, E> {
    type V = StepModel<F, N, E::V>;

    open spec fn view(&self) -> StepModel<F, N, E::V> {
        StepModel {
            obs: self.obs@,
            evaluation: self.evaluation@,
            action: self.action,
            reward: self.reward,
            next_obs: self.next_obs@,
            next_legal: self.next_legal@,
            terminal: self.terminal,
        }
    }
}

/// A trajectory as a mathematical value.
pub open spec fn step_models<F, N, E: View>(steps: Seq<Step<F, N, E>>) -> Seq<
    StepModel<F, N, E::V>,
> {
    steps.map_values(|s: Step<F, N, E>| s@)
}

/// Records as mathematical values.
pub open spec fn record_models<R, M>(records: Seq<R>, shown: spec_fn(R) -> M) -> Seq<M> {
    records.map_values(shown)
}

/// What records may be, and the generator then.
pub type Made<M> = (Result<Seq<M>, Fault>, SplitMix64);

/// Turns evaluations and trajectories into training records.
pub trait Learner<N: Scalar, F: Copy, E: View, V: ActionView> {
    type Record;

    /// A record as a mathematical value.
    type Shown;

    open spec fn shown(record: Self::Record) -> Self::Shown {
        arbitrary()
    }

    open spec fn spec_uses_episode_tail(&self) -> bool {
        arbitrary()
    }

    /// Whether episode records consume a bootstrap value for a truncated final state.
    fn uses_episode_tail(&self) -> (r: bool)
        ensures
            r == self.spec_uses_episode_tail(),
    ;

    open spec fn spec_needs_next_obs(&self) -> bool {
        arbitrary()
    }

    /// Whether buffered steps require the observation after the transition.
    fn needs_next_obs(&self) -> (r: bool)
        ensures
            r == self.spec_needs_next_obs(),
    ;

    open spec fn spec_needs_interior(&self) -> bool {
        arbitrary()
    }

    /// Whether this learner consumes the targets of interior nodes.
    fn needs_interior(&self) -> (r: bool)
        ensures
            r == self.spec_needs_interior(),
    ;

    open spec fn spec_tails_all_trajectories(&self) -> bool {
        arbitrary()
    }

    /// Whether every trajectory that is not empty receives a truncation tail, not only those of the
    /// agents active at the truncated state.
    fn tails_all_trajectories(&self) -> (r: bool)
        ensures
            r == self.spec_tails_all_trajectories(),
    ;

    open spec fn spec_bootstraps_fragments(&self) -> bool {
        arbitrary()
    }

    /// Whether live trajectories are bootstrapped and emitted at the end of every collection, so
    /// that no record spans two of them.
    fn bootstraps_fragments(&self) -> (r: bool)
        ensures
            r == self.spec_bootstraps_fragments(),
    ;

    open spec fn spec_tail_from_row(
        &self,
        row: Seq<N>,
        action_count: usize,
        legal: Seq<usize>,
        view: V,
        agent: usize,
    ) -> Result<Seq<N>, Fault> {
        arbitrary()
    }

    /// The bootstrap values of a final state, from its network row.
    fn tail_from_row(
        &self,
        row: &[N],
        action_count: usize,
        legal: &[usize],
        view: &V,
        agent: usize,
    ) -> (r: Result<Vec<N>, Fault>)
        ensures
            viewed(r) == self.spec_tail_from_row(row@, action_count, legal@, *view, agent),
    ;

    open spec fn spec_value_only_evaluation(&self, action_count: usize) -> Option<E::V> {
        arbitrary()
    }

    /// An evaluation for agents that do not move, for policies that consume every perspective.
    /// Records of such rows carry no policy target.
    fn value_only_evaluation(&self, action_count: usize) -> (r: Option<E>)
        ensures
            match r {
                Some(e) => self.spec_value_only_evaluation(action_count) == Some(e@),
                None => self.spec_value_only_evaluation(action_count) is None,
            },
    ;

    open spec fn spec_eval_records(
        &self,
        evaluation: E::V,
        interior: Seq<(Seq<F>, Seq<Seq<N>>)>,
        view: V,
        agent: usize,
        rng: SplitMix64,
    ) -> Made<Self::Shown> {
        arbitrary()
    }

    /// Records emitted at once for a decision.
    fn eval_records(
        &self,
        evaluation: &E,
        interior: Vec<InteriorTarget<F, N>>,
        view: &V,
        agent: usize,
        rng: &mut SplitMix64,
    ) -> (r: Result<Vec<Self::Record>, Fault>)
        ensures
            match r {
                Ok(records) => self.spec_eval_records(
                    evaluation@,
                    targets(interior@),
                    *view,
                    agent,
                    *old(rng),
                ) == (
                    Ok::<_, Fault>(record_models(records@, |x: Self::Record| Self::shown(x))),
                    *final(rng),
                ),
                Err(f) => self.spec_eval_records(
                    evaluation@,
                    targets(interior@),
                    *view,
                    agent,
                    *old(rng),
                ).0 == Err::<Seq<Self::Shown>, _>(f),
            },
    ;

    open spec fn spec_episode_records(
        &self,
        trajectory: Seq<StepModel<F, N, E::V>>,
        tail: Seq<N>,
        view: V,
        agent: usize,
        rng: SplitMix64,
    ) -> Made<Self::Shown> {
        arbitrary()
    }

    /// Records of a finished trajectory; the tail is empty where its end is the game's.
    fn episode_records(
        &self,
        trajectory: &Vec<Step<F, N, E>>,
        tail: &[N],
        view: &V,
        agent: usize,
        rng: &mut SplitMix64,
    ) -> (r: Result<Vec<Self::Record>, Fault>)
        ensures
            match r {
                Ok(records) => self.spec_episode_records(
                    step_models(trajectory@),
                    tail@,
                    *view,
                    agent,
                    *old(rng),
                ) == (
                    Ok::<_, Fault>(record_models(records@, |x: Self::Record| Self::shown(x))),
                    *final(rng),
                ),
                Err(f) => self.spec_episode_records(
                    step_models(trajectory@),
                    tail@,
                    *view,
                    agent,
                    *old(rng),
                ).0 == Err::<Seq<Self::Shown>, _>(f),
            },
    ;
}

/// The bootstrap of rows of Q-values: each head's best legal entry.
pub open spec fn head_maxima<N: Scalar, V: ActionView>(
    row: Seq<N>,
    action_count: usize,
    legal: Seq<usize>,
    view: V,
    agent: usize,
) -> Result<Seq<N>, Fault> {
    let a = action_count as nat;
    let heads = heads_of(view, legal, agent);
    if a == 0 {
        Err(Fault::ActionRange)
    } else if strays(heads, a) {
        Err(Fault::HeadRange)
    } else {
        Ok(Seq::new(row.len() / a, |h: int| spec_largest(gathered(row, a, h as nat, heads))))
    }
}

/// Finds the bootstrap of a row of Q-values.
pub fn find_head_maxima<N: Scalar, V: ActionView>(
    row: &[N],
    action_count: usize,
    legal: &[usize],
    view: &V,
    agent: usize,
) -> (r: Result<Vec<N>, Fault>)
    ensures
        viewed(r) == head_maxima(row@, action_count, legal@, *view, agent),
{
    let a = action_count;
    if a == 0 {
        return Err(Fault::ActionRange);
    }
    let heads = find_heads(view, legal, agent);
    if any_stray(&heads, a) {
        return Err(Fault::HeadRange);
    }
    let len = row.len();
    let k = len / a;
    proof {
        assert(k * a <= len) by (nonlinear_arith)
            requires
                k == len as int / a as int,
                a > 0,
        ;
    }
    let mut out: Vec<N> = Vec::new();
    let mut h: usize = 0;
    while h < k
        invariant
            h <= k,
            a > 0,
            k * a <= len == row@.len(),
            !strays(heads@, a as nat),
            out@.len() == h,
            forall|x: int|
                0 <= x < h ==> #[trigger] out@[x] == spec_largest(
                    gathered(row@, a as nat, x as nat, heads@),
                ),
        decreases k - h,
    {
        let mut one: Vec<N> = Vec::new();
        let mut j: usize = 0;
        while j < heads.len()
            invariant
                j <= heads@.len(),
                h < k,
                k * a <= len == row@.len(),
                !strays(heads@, a as nat),
                one@.len() == j,
                forall|x: int| 0 <= x < j ==> #[trigger] one@[x] == row@[h * a + heads@[x]],
            decreases heads@.len() - j,
        {
            let x = heads[j];
            proof {
                assert(!(heads@[j as int] >= a));
                lemma_entry(h as nat, k as nat, a as nat, x as nat);
            }
            one.push(row[h * a + x]);
            j = j + 1;
        }
        assert(one@ =~= gathered(row@, a as nat, h as nat, heads@));
        out.push(largest(&one));
        h = h + 1;
    }
    assert(out@ =~= Seq::new(
        row@.len() / (a as nat),
        |h: int| spec_largest(gathered(row@, a as nat, h as nat, heads@)),
    ));
    Ok(out)
}

/// The bootstrap of rows of logits and a value: the value, which follows the logits.
pub open spec fn value_slot<N>(row: Seq<N>, action_count: usize) -> Result<Seq<N>, Fault> {
    if action_count < row.len() {
        Ok(seq![row[action_count as int]])
    } else {
        Err(Fault::RowWidth)
    }
}

/// Reads the value slot.
pub fn policy_value_tail<N: Scalar>(row: &[N], action_count: usize) -> (r: Result<Vec<N>, Fault>)
    ensures
        viewed(r) == value_slot(row@, action_count),
{
    if action_count < row.len() {
        let mut out: Vec<N> = Vec::new();
        out.push(row[action_count]);
        assert(out@ =~= seq![row@[action_count as int]]);
        Ok(out)
    } else {
        Err(Fault::RowWidth)
    }
}

/// An independent Bernoulli mark for each head, one draw each, and the generator then.
pub open spec fn spec_sample_mask<N: Scalar>(rng: SplitMix64, n: nat, p: N) -> (Seq<N>, SplitMix64)
    decreases n,
{
    if n == 0 {
        (Seq::empty(), rng)
    } else {
        let (before, current) = spec_sample_mask(rng, (n - 1) as nat, p);
        let (u, next) = <SplitMix64 as Rng<N>>::spec_unit(current);
        (
            before.push(
                if u.spec_less(p) {
                    N::spec_one()
                } else {
                    N::spec_zero()
                },
            ),
            next,
        )
    }
}

/// Samples a bootstrap mask.
pub fn sample_mask<N: Scalar>(rng: &mut SplitMix64, n_heads: usize, p: N) -> (r: Vec<N>)
    ensures
        (r@, *final(rng)) == spec_sample_mask(*old(rng), n_heads as nat, p),
        r@.len() == n_heads,
{
    let mut r: Vec<N> = Vec::new();
    let mut i: usize = 0;
    assert(r@ =~= Seq::empty());
    while i < n_heads
        invariant
            i <= n_heads,
            r@.len() == i,
            (r@, *rng) == spec_sample_mask(*old(rng), i as nat, p),
        decreases n_heads - i,
    {
        let u: N = <SplitMix64 as Rng<N>>::unit(rng);
        if u.less(p) {
            r.push(N::one());
        } else {
            r.push(N::zero());
        }
        i = i + 1;
    }
    r
}

} // verus!
