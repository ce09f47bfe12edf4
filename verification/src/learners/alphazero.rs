//! AlphaZero training-record production.

use vstd::prelude::*;

use crate::encoder::{head_permutation, ActionView};
#[allow(unused_imports)]
use crate::encoder::{is_identity, spec_head_permutation};
use crate::fault::Fault;
use crate::learner::{policy_value_tail, Learner, Step};
#[allow(unused_imports)]
use crate::learner::{record_models, step_models, value_slot, Made, StepModel};
use crate::learners::frame::{to_head_ids, to_head_row};
#[allow(unused_imports)]
use crate::learners::frame::{ids_in_head_frame, in_head_frame, scattered};
use crate::num::{sum, Scalar};
#[allow(unused_imports)]
use crate::num::spec_sum;
use crate::policies::tree::evaluation::SearchEvaluation;
#[allow(unused_imports)]
use crate::policies::tree::evaluation::EvaluationModel;
use crate::policies::tree::expectimax::backup::InteriorTarget;
use crate::policies::tree::expectimax::tree::SearchStats;
#[allow(unused_imports)]
use crate::policies::tree::expectimax::backup::targets;
use crate::rng::SplitMix64;
use crate::util::{copied, filled, reversed};
#[allow(unused_imports)]
use crate::util::{matrix, spec_filled, viewed};

verus! {

/// An observation, a policy target, a value target, a policy weight, a player and the legal actions
/// in the network's frame.
pub type AlphaZeroRecord<F, N> = (Vec<F>, Vec<N>, N, N, usize, Vec<usize>);

/// A record as a mathematical value.
pub type ZeroShown<F, N> = (Seq<F>, Seq<N>, N, N, usize, Seq<usize>);

/// Regresses the policy toward visits and the value toward the outcome.
pub struct AlphaZeroLearner<N> {
    pub gamma: N,
}

impl<N: Scalar> AlphaZeroLearner<N> {
    pub fn new(gamma: N) -> (r: Self)
        ensures
            r == (AlphaZeroLearner { gamma }),
    {
        AlphaZeroLearner { gamma }
    }
}

/// Visits as shares of their total; zeros where it is not positive, which marks a decision that was
/// not searched.
pub open spec fn visit_shares<N: Scalar>(visits: Seq<N>) -> Seq<N> {
    let total = spec_sum(visits);
    if total.spec_at_most(N::spec_zero()) {
        spec_filled(N::spec_zero(), visits.len())
    } else {
        visits.map_values(|v: N| v.spec_over(total))
    }
}

/// Finds the shares of visits.
pub fn normalized_visits<N: Scalar>(visits: &[N]) -> (r: Vec<N>)
    ensures
        r@ == visit_shares(visits@),
{
    let total = sum(visits);
    if total.at_most(N::zero()) {
        return filled(N::zero(), visits.len());
    }
    let mut r: Vec<N> = Vec::new();
    let mut i: usize = 0;
    while i < visits.len()
        invariant
            i <= visits@.len(),
            r@.len() == i,
            forall|j: int| 0 <= j < i ==> #[trigger] r@[j] == visits@[j].spec_over(total),
        decreases visits@.len() - i,
    {
        r.push(visits[i].over(total));
        i = i + 1;
    }
    assert(r@ =~= visits@.map_values(|v: N| v.spec_over(total)));
    r
}

/// The discounted return from the `t`-th decision on, `beyond` after the last.
pub open spec fn return_from<F, N: Scalar, M>(
    steps: Seq<StepModel<F, N, M>>,
    gamma: N,
    beyond: N,
    t: nat,
) -> N
    decreases steps.len() - t,
{
    if t >= steps.len() {
        beyond
    } else {
        steps[t as int].reward.spec_plus(
            gamma.spec_times(return_from(steps, gamma, beyond, t + 1)),
        )
    }
}

/// The policy weight of a decision: one where it was searched, else zero.
pub open spec fn policy_weight<N: Scalar>(visits: Seq<N>) -> N {
    if N::spec_zero().spec_less(spec_sum(visits)) {
        N::spec_one()
    } else {
        N::spec_zero()
    }
}

/// The record of one decision with the return `z`.
pub open spec fn zero_record<F, N: Scalar>(
    step: StepModel<F, N, EvaluationModel<N>>,
    z: N,
    perm: Seq<usize>,
    agent: usize,
) -> Result<ZeroShown<F, N>, Fault> {
    match in_head_frame(visit_shares(step.evaluation.visits), perm) {
        Err(f) => Err(f),
        Ok(pi) => match ids_in_head_frame(step.evaluation.legal, perm) {
            Err(f) => Err(f),
            Ok(legal) => Ok(
                (step.obs, pi, z, policy_weight(step.evaluation.visits), agent, legal),
            ),
        },
    }
}

/// The records of the decisions from the `t`-th on. Of several faults the last decision's counts.
pub open spec fn zero_records<F, N: Scalar>(
    steps: Seq<StepModel<F, N, EvaluationModel<N>>>,
    gamma: N,
    beyond: N,
    perm: Seq<usize>,
    agent: usize,
    t: nat,
) -> Result<Seq<ZeroShown<F, N>>, Fault>
    decreases steps.len() - t,
{
    if t >= steps.len() {
        Ok(Seq::empty())
    } else {
        match zero_records(steps, gamma, beyond, perm, agent, t + 1) {
            Err(f) => Err(f),
            Ok(rest) => match zero_record(
                steps[t as int],
                return_from(steps, gamma, beyond, t),
                perm,
                agent,
            ) {
                Err(f) => Err(f),
                Ok(one) => Ok(seq![one] + rest),
            },
        }
    }
}

/// A decision whose visits have no positive total gives a record without weight and without policy
/// target; its value target is the return all the same.
pub proof fn law_value_only<F, N: Scalar>(
    step: StepModel<F, N, EvaluationModel<N>>,
    z: N,
    perm: Seq<usize>,
    agent: usize,
)
    requires
        spec_sum(step.evaluation.visits).spec_at_most(N::spec_zero()),
        !N::spec_zero().spec_less(spec_sum(step.evaluation.visits)),
    ensures
        zero_record(step, z, perm, agent) matches Ok(r) ==> {
            &&& r.1 == spec_filled(N::spec_zero(), step.evaluation.visits.len())
            &&& r.2 == z
            &&& r.3 == N::spec_zero()
        },
{
    let zeros = spec_filled(N::spec_zero(), step.evaluation.visits.len());
    if !is_identity(perm) {
        lemma_zeros_scatter(zeros, perm, 0, zeros);
    }
}

proof fn lemma_zeros_scatter<N: Scalar>(row: Seq<N>, perm: Seq<usize>, a: nat, acc: Seq<N>)
    requires
        row == spec_filled(N::spec_zero(), row.len()),
        acc == row,
    ensures
        scattered(row, perm, a, acc) matches Ok(out) ==> out == row,
    decreases row.len() - a,
{
    if a < row.len() && a < perm.len() && perm[a as int] < acc.len() {
        assert(acc.update(perm[a as int] as int, row[a as int]) =~= row);
        lemma_zeros_scatter(row, perm, a + 1, acc.update(perm[a as int] as int, row[a as int]));
    }
}

proof fn lemma_zero_fault<F, N: Scalar>(
    steps: Seq<StepModel<F, N, EvaluationModel<N>>>,
    gamma: N,
    beyond: N,
    perm: Seq<usize>,
    agent: usize,
    t: nat,
    f: Fault,
)
    requires
        t <= steps.len(),
        zero_records(steps, gamma, beyond, perm, agent, t) == Err::<Seq<ZeroShown<F, N>>, _>(f),
    ensures
        zero_records(steps, gamma, beyond, perm, agent, 0) == Err::<Seq<ZeroShown<F, N>>, _>(f),
    decreases t,
{
    if t > 0 {
        lemma_zero_fault(steps, gamma, beyond, perm, agent, (t - 1) as nat, f);
    }
}

/// The first of the tail, or zero.
pub open spec fn first_or_zero<N: Scalar>(tail: Seq<N>) -> N {
    if tail.len() == 0 {
        N::spec_zero()
    } else {
        tail[0]
    }
}

/// The action count that a trajectory's visits have.
pub open spec fn visit_width<F, N>(steps: Seq<StepModel<F, N, EvaluationModel<N>>>) -> nat {
    if steps.len() == 0 {
        0
    } else {
        steps[0].evaluation.visits.len()
    }
}

impl<N: Scalar, F: Copy, V: ActionView> Learner<
    N,
    F,
    SearchEvaluation<N>,
    V,
> for AlphaZeroLearner<N> {
    type Record = AlphaZeroRecord<F, N>;

    type Shown = ZeroShown<F, N>;

    open spec fn shown(record: AlphaZeroRecord<F, N>) -> ZeroShown<F, N> {
        (record.0@, record.1@, record.2, record.3, record.4, record.5@)
    }

    open spec fn spec_uses_episode_tail(&self) -> bool {
        true
    }

    fn uses_episode_tail(&self) -> (r: bool) {
        true
    }

    open spec fn spec_needs_next_obs(&self) -> bool {
        false
    }

    fn needs_next_obs(&self) -> (r: bool) {
        false
    }

    open spec fn spec_needs_interior(&self) -> bool {
        false
    }

    fn needs_interior(&self) -> (r: bool) {
        false
    }

    open spec fn spec_tails_all_trajectories(&self) -> bool {
        false
    }

    fn tails_all_trajectories(&self) -> (r: bool) {
        false
    }

    open spec fn spec_bootstraps_fragments(&self) -> bool {
        false
    }

    fn bootstraps_fragments(&self) -> (r: bool) {
        false
    }

    open spec fn spec_tail_from_row(
        &self,
        row: Seq<N>,
        action_count: usize,
        legal: Seq<usize>,
        view: V,
        agent: usize,
    ) -> Result<Seq<N>, Fault> {
        value_slot(row, action_count)
    }

    fn tail_from_row(
        &self,
        row: &[N],
        action_count: usize,
        legal: &[usize],
        view: &V,
        agent: usize,
    ) -> (r: Result<Vec<N>, Fault>) {
        policy_value_tail(row, action_count)
    }

    open spec fn spec_value_only_evaluation(&self, action_count: usize) -> Option<
        EvaluationModel<N>,
    > {
        Some(
            EvaluationModel {
                values: seq![spec_filled(N::spec_zero(), action_count as nat)],
                visits: spec_filled(N::spec_zero(), action_count as nat),
                legal: Seq::empty(),
                stats: SearchStats::<N>::none(),
            },
        )
    }

    fn value_only_evaluation(&self, action_count: usize) -> (r: Option<SearchEvaluation<N>>) {
        let mut values: Vec<Vec<N>> = Vec::new();
        values.push(filled(N::zero(), action_count));
        assert(matrix(values@) =~= seq![spec_filled(N::spec_zero(), action_count as nat)]);
        let legal: Vec<usize> = Vec::new();
        assert(legal@ =~= Seq::empty());
        Some(
            SearchEvaluation {
                values,
                visits: filled(N::zero(), action_count),
                legal,
                stats: SearchStats::default(),
            },
        )
    }

    /// Nothing is emitted at once.
    open spec fn spec_eval_records(
        &self,
        evaluation: EvaluationModel<N>,
        interior: Seq<(Seq<F>, Seq<Seq<N>>)>,
        view: V,
        agent: usize,
        rng: SplitMix64,
    ) -> Made<ZeroShown<F, N>> {
        (Ok(Seq::empty()), rng)
    }

    fn eval_records(
        &self,
        evaluation: &SearchEvaluation<N>,
        interior: Vec<InteriorTarget<F, N>>,
        view: &V,
        agent: usize,
        rng: &mut SplitMix64,
    ) -> (r: Result<Vec<AlphaZeroRecord<F, N>>, Fault>) {
        let out: Vec<AlphaZeroRecord<F, N>> = Vec::new();
        assert(record_models(
            out@,
            |x: AlphaZeroRecord<F, N>| <Self as Learner<N, F, SearchEvaluation<N>, V>>::shown(x),
        ) =~= Seq::empty());
        Ok(out)
    }

    /// A record for each decision, with its visits as the policy target and its return as the value
    /// target, in the network's frame.
    open spec fn spec_episode_records(
        &self,
        trajectory: Seq<StepModel<F, N, EvaluationModel<N>>>,
        tail: Seq<N>,
        view: V,
        agent: usize,
        rng: SplitMix64,
    ) -> Made<ZeroShown<F, N>> {
        let perm = spec_head_permutation(view, visit_width(trajectory) as usize, agent);
        (zero_records(trajectory, self.gamma, first_or_zero(tail), perm, agent, 0), rng)
    }

    #[verifier::loop_isolation(false)]
    fn episode_records(
        &self,
        trajectory: &Vec<Step<F, N, SearchEvaluation<N>>>,
        tail: &[N],
        view: &V,
        agent: usize,
        rng: &mut SplitMix64,
    ) -> (r: Result<Vec<AlphaZeroRecord<F, N>>, Fault>) {
        let ghost steps = step_models(trajectory@);
        let ghost shown = |x: AlphaZeroRecord<F, N>|
            <Self as Learner<N, F, SearchEvaluation<N>, V>>::shown(x);
        let n = trajectory.len();
        let beyond = if tail.len() == 0 {
            N::zero()
        } else {
            tail[0]
        };
        let a = if n == 0 {
            0
        } else {
            assert(steps[0] == trajectory@[0]@);
            trajectory[0].evaluation.visits.len()
        };
        let (perm, identity) = head_permutation(view, a, agent);
        let mut z = beyond;
        let mut out: Vec<AlphaZeroRecord<F, N>> = Vec::new();
        let mut t = n;
        assert(record_models(out@, shown).reverse() =~= Seq::empty());
        while t > 0
            invariant
                t <= n,
                z == return_from(steps, self.gamma, beyond, t as nat),
                zero_records(steps, self.gamma, beyond, perm@, agent, t as nat) == Ok::<_, Fault>(
                    record_models(out@, shown).reverse(),
                ),
            decreases t,
        {
            t = t - 1;
            let step = &trajectory[t];
            assert(steps[t as int] == step@);
            z = step.reward.plus(self.gamma.times(z));
            let weight = if N::zero().less(sum(&step.evaluation.visits)) {
                N::one()
            } else {
                N::zero()
            };
            let shares = normalized_visits(&step.evaluation.visits);
            let pi = match to_head_row(&shares, &perm, identity) {
                Ok(pi) => pi,
                Err(f) => {
                    proof {
                        lemma_zero_fault(steps, self.gamma, beyond, perm@, agent, t as nat, f);
                    }
                    return Err(f);
                },
            };
            let legal = match to_head_ids(&step.evaluation.legal, &perm, identity) {
                Ok(legal) => legal,
                Err(f) => {
                    proof {
                        lemma_zero_fault(steps, self.gamma, beyond, perm@, agent, t as nat, f);
                    }
                    return Err(f);
                },
            };
            let ghost before = record_models(out@, shown);
            let record = (copied(&step.obs), pi, z, weight, agent, legal);
            let ghost one = shown(record);
            out.push(record);
            assert(record_models(out@, shown) =~= before.push(one));
            assert(record_models(out@, shown).reverse() =~= seq![one] + before.reverse());
        }
        let ghost held = record_models(out@, shown).reverse();
        let out = reversed(out);
        assert(record_models(out@, shown) =~= held);
        Ok(out)
    }
}

} // verus!
