//! PPO training-record production: generalized advantages over an agent's own decisions.

use vstd::prelude::*;

use crate::encoder::ActionView;
use crate::fault::Fault;
use crate::learner::{policy_value_tail, Learner, Step};
#[allow(unused_imports)]
use crate::learner::{record_models, step_models, value_slot, Made, StepModel};
#[allow(unused_imports)]
use crate::learners::alphazero::first_or_zero;
use crate::num::Scalar;
use crate::policies::modelfree::ppo::PpoEvaluation;
#[allow(unused_imports)]
use crate::policies::modelfree::ppo::PpoModel;
use crate::policies::tree::expectimax::backup::InteriorTarget;
#[allow(unused_imports)]
use crate::policies::tree::expectimax::backup::targets;
use crate::policies::tree::expectimax::evaluate::find_heads;
#[allow(unused_imports)]
use crate::policies::tree::expectimax::evaluate::heads_of;
use crate::rng::SplitMix64;
use crate::util::{copied, reversed};
#[allow(unused_imports)]
use crate::util::viewed;

verus! {

/// A decision to learn from.
pub struct PpoRecord<F, N> {
    pub player: usize,
    pub obs: Vec<F>,
    pub action: usize,
    pub behavior_log_prob: N,
    pub advantage: N,
    pub ret: N,
    pub value: N,
    pub legal: Vec<usize>,
}

/// A record as a mathematical value.
#[verifier::ext_equal]
pub struct PpoRecordModel<F, N> {
    pub player: usize,
    pub obs: Seq<F>,
    pub action: usize,
    pub behavior_log_prob: N,
    pub advantage: N,
    pub ret: N,
    pub value: N,
    pub legal: Seq<usize>,
}

impl<F, N> View for PpoRecord<F, N> {
    type V = PpoRecordModel<F, N>;

    open spec fn view(&self) -> PpoRecordModel<F, N> {
        PpoRecordModel {
            player: self.player,
            obs: self.obs@,
            action: self.action,
            behavior_log_prob: self.behavior_log_prob,
            advantage: self.advantage,
            ret: self.ret,
            value: self.value,
            legal: self.legal@,
        }
    }
}

/// Makes generalized advantages.
pub struct Ppo<N> {
    pub gamma: N,
    pub lam: N,
}

impl<N: Scalar> Ppo<N> {
    pub fn new(gamma: N, lam: N) -> (r: Self)
        ensures
            r == (Ppo { gamma, lam }),
    {
        Ppo { gamma, lam }
    }
}

/// The value that the `t`-th decision sees next: the next decision's, or `beyond` after the last.
pub open spec fn next_value<F, N>(steps: Seq<StepModel<F, N, PpoModel<N>>>, beyond: N, t: nat) -> N {
    if t + 1 < steps.len() {
        steps[t as int + 1].evaluation.value
    } else {
        beyond
    }
}

/// The one-step advantage of the `t`-th decision.
pub open spec fn one_step_advantage<F, N: Scalar>(
    steps: Seq<StepModel<F, N, PpoModel<N>>>,
    gamma: N,
    beyond: N,
    t: nat,
) -> N {
    steps[t as int].reward.spec_plus(gamma.spec_times(next_value(steps, beyond, t))).spec_minus(
        steps[t as int].evaluation.value,
    )
}

/// The generalized advantage of the `t`-th decision; zero beyond the last.
pub open spec fn advantage_from<F, N: Scalar>(
    steps: Seq<StepModel<F, N, PpoModel<N>>>,
    gamma: N,
    lam: N,
    beyond: N,
    t: nat,
) -> N
    decreases steps.len() - t,
{
    if t >= steps.len() {
        N::spec_zero()
    } else {
        one_step_advantage(steps, gamma, beyond, t).spec_plus(
            gamma.spec_times(lam).spec_times(advantage_from(steps, gamma, lam, beyond, t + 1)),
        )
    }
}

/// Where `x` first stands in `xs` from the `i`-th on.
pub open spec fn slot_from(xs: Seq<usize>, x: usize, i: nat) -> Option<nat>
    decreases xs.len() - i,
{
    if i >= xs.len() {
        None
    } else if xs[i as int] == x {
        Some(i)
    } else {
        slot_from(xs, x, i + 1)
    }
}

/// Finds where `x` first stands in `xs`.
pub fn find_slot(xs: &[usize], x: usize) -> (r: Option<usize>)
    ensures
        match r {
            Some(i) => slot_from(xs@, x, 0) == Some(i as nat) && i < xs@.len() && xs@[i as int]
                == x,
            None => slot_from(xs@, x, 0) is None,
        },
{
    let mut i: usize = 0;
    while i < xs.len()
        invariant
            i <= xs@.len(),
            slot_from(xs@, x, 0) == slot_from(xs@, x, i as nat),
        decreases xs@.len() - i,
    {
        if xs[i] == x {
            return Some(i);
        }
        i = i + 1;
    }
    None
}

/// The record of one decision with its advantage. The executed action must be one of the legal ones
/// and have a log-probability.
pub open spec fn actor_record<F, N: Scalar, V: ActionView>(
    step: StepModel<F, N, PpoModel<N>>,
    advantage: N,
    view: V,
    agent: usize,
) -> Result<PpoRecordModel<F, N>, Fault> {
    match slot_from(step.evaluation.legal, step.action, 0) {
        None => Err(Fault::IllegalAction),
        Some(slot) => if slot >= step.evaluation.log_probs.len() {
            Err(Fault::RowWidth)
        } else {
            Ok(
                PpoRecordModel {
                    player: agent,
                    obs: step.obs,
                    action: view.spec_head_index(step.action, agent),
                    behavior_log_prob: step.evaluation.log_probs[slot as int],
                    advantage,
                    ret: advantage.spec_plus(step.evaluation.value),
                    value: step.evaluation.value,
                    legal: heads_of(view, step.evaluation.legal, agent),
                },
            )
        },
    }
}

/// The records of the decisions from the `t`-th on. Of several faults the last decision's counts.
pub open spec fn actor_records<F, N: Scalar, V: ActionView>(
    steps: Seq<StepModel<F, N, PpoModel<N>>>,
    gamma: N,
    lam: N,
    beyond: N,
    view: V,
    agent: usize,
    t: nat,
) -> Result<Seq<PpoRecordModel<F, N>>, Fault>
    decreases steps.len() - t,
{
    if t >= steps.len() {
        Ok(Seq::empty())
    } else {
        match actor_records(steps, gamma, lam, beyond, view, agent, t + 1) {
            Err(f) => Err(f),
            Ok(rest) => match actor_record(
                steps[t as int],
                advantage_from(steps, gamma, lam, beyond, t),
                view,
                agent,
            ) {
                Err(f) => Err(f),
                Ok(one) => Ok(seq![one] + rest),
            },
        }
    }
}

/// Every decision has its record, in order, with the generalized advantage and the return that is the
/// advantage over the value.
pub proof fn law_advantages<F, N: Scalar, V: ActionView>(
    steps: Seq<StepModel<F, N, PpoModel<N>>>,
    gamma: N,
    lam: N,
    beyond: N,
    view: V,
    agent: usize,
)
    ensures
        actor_records(steps, gamma, lam, beyond, view, agent, 0) matches Ok(out) ==> {
            &&& out.len() == steps.len()
            &&& forall|t: int|
                0 <= t < steps.len() ==> (#[trigger] out[t]).advantage == advantage_from(
                    steps,
                    gamma,
                    lam,
                    beyond,
                    t as nat,
                ) && out[t].ret == out[t].advantage.spec_plus(out[t].value) && out[t].value
                    == steps[t].evaluation.value
        },
{
    lemma_advantages(steps, gamma, lam, beyond, view, agent, 0);
    if let Ok(out) = actor_records(steps, gamma, lam, beyond, view, agent, 0) {
        assert forall|t: int| 0 <= t < steps.len() implies (#[trigger] out[t]).advantage
            == advantage_from(steps, gamma, lam, beyond, t as nat) && out[t].ret
            == out[t].advantage.spec_plus(out[t].value) && out[t].value
            == steps[t].evaluation.value by {
            assert(out[t] == out[t - 0]);
        }
    }
}

proof fn lemma_advantages<F, N: Scalar, V: ActionView>(
    steps: Seq<StepModel<F, N, PpoModel<N>>>,
    gamma: N,
    lam: N,
    beyond: N,
    view: V,
    agent: usize,
    t: nat,
)
    requires
        t <= steps.len(),
    ensures
        actor_records(steps, gamma, lam, beyond, view, agent, t) matches Ok(out) ==> {
            &&& out.len() == steps.len() - t
            &&& forall|i: int|
                t <= i < steps.len() ==> (#[trigger] out[i - t]).advantage == advantage_from(
                    steps,
                    gamma,
                    lam,
                    beyond,
                    i as nat,
                ) && out[i - t].ret == out[i - t].advantage.spec_plus(out[i - t].value) && out[i
                    - t].value == steps[i].evaluation.value
        },
    decreases steps.len() - t,
{
    if t < steps.len() {
        lemma_advantages(steps, gamma, lam, beyond, view, agent, t + 1);
        if let Ok(out) = actor_records(steps, gamma, lam, beyond, view, agent, t) {
            let rest = actor_records(steps, gamma, lam, beyond, view, agent, t + 1)->Ok_0;
            assert forall|i: int| t <= i < steps.len() implies (#[trigger] out[i - t]).advantage
                == advantage_from(steps, gamma, lam, beyond, i as nat) && out[i - t].ret == out[i
                - t].advantage.spec_plus(out[i - t].value) && out[i - t].value
                == steps[i].evaluation.value by {
                if i > t {
                    assert(out[i - t] == rest[i - (t + 1)]);
                }
            }
        }
    }
}

proof fn lemma_actor_fault<F, N: Scalar, V: ActionView>(
    steps: Seq<StepModel<F, N, PpoModel<N>>>,
    gamma: N,
    lam: N,
    beyond: N,
    view: V,
    agent: usize,
    t: nat,
    f: Fault,
)
    requires
        t <= steps.len(),
        actor_records(steps, gamma, lam, beyond, view, agent, t) == Err::<
            Seq<PpoRecordModel<F, N>>,
            _,
        >(f),
    ensures
        actor_records(steps, gamma, lam, beyond, view, agent, 0) == Err::<
            Seq<PpoRecordModel<F, N>>,
            _,
        >(f),
    decreases t,
{
    if t > 0 {
        lemma_actor_fault(steps, gamma, lam, beyond, view, agent, (t - 1) as nat, f);
    }
}

impl<N: Scalar, F: Copy, V: ActionView> Learner<N, F, PpoEvaluation<N>, V> for Ppo<N> {
    type Record = PpoRecord<F, N>;

    type Shown = PpoRecordModel<F, N>;

    open spec fn shown(record: PpoRecord<F, N>) -> PpoRecordModel<F, N> {
        record@
    }

    open spec fn spec_uses_episode_tail(&self) -> bool {
        true
    }

    fn uses_episode_tail(&self) -> (r: bool) {
        true
    }

    open spec fn spec_needs_next_obs(&self) -> bool {
        false
    }

    fn needs_next_obs(&self) -> (r: bool) {
        false
    }

    open spec fn spec_needs_interior(&self) -> bool {
        false
    }

    fn needs_interior(&self) -> (r: bool) {
        false
    }

    open spec fn spec_tails_all_trajectories(&self) -> bool {
        true
    }

    fn tails_all_trajectories(&self) -> (r: bool) {
        true
    }

    open spec fn spec_bootstraps_fragments(&self) -> bool {
        true
    }

    fn bootstraps_fragments(&self) -> (r: bool) {
        true
    }

    open spec fn spec_tail_from_row(
        &self,
        row: Seq<N>,
        action_count: usize,
        legal: Seq<usize>,
        view: V,
        agent: usize,
    ) -> Result<Seq<N>, Fault> {
        value_slot(row, action_count)
    }

    fn tail_from_row(
        &self,
        row: &[N],
        action_count: usize,
        legal: &[usize],
        view: &V,
        agent: usize,
    ) -> (r: Result<Vec<N>, Fault>) {
        policy_value_tail(row, action_count)
    }

    open spec fn spec_value_only_evaluation(&self, action_count: usize) -> Option<PpoModel<N>> {
        None
    }

    fn value_only_evaluation(&self, action_count: usize) -> (r: Option<PpoEvaluation<N>>) {
        None
    }

    /// Nothing is emitted at once.
    open spec fn spec_eval_records(
        &self,
        evaluation: PpoModel<N>,
        interior: Seq<(Seq<F>, Seq<Seq<N>>)>,
        view: V,
        agent: usize,
        rng: SplitMix64,
    ) -> Made<PpoRecordModel<F, N>> {
        (Ok(Seq::empty()), rng)
    }

    fn eval_records(
        &self,
        evaluation: &PpoEvaluation<N>,
        interior: Vec<InteriorTarget<F, N>>,
        view: &V,
        agent: usize,
        rng: &mut SplitMix64,
    ) -> (r: Result<Vec<PpoRecord<F, N>>, Fault>) {
        let out: Vec<PpoRecord<F, N>> = Vec::new();
        assert(record_models(
            out@,
            |x: PpoRecord<F, N>| <Self as Learner<N, F, PpoEvaluation<N>, V>>::shown(x),
        ) =~= Seq::empty());
        Ok(out)
    }

    /// A record for each decision. Discounting is by own decision: rewards between two of them stand
    /// on the step that caused them.
    open spec fn spec_episode_records(
        &self,
        trajectory: Seq<StepModel<F, N, PpoModel<N>>>,
        tail: Seq<N>,
        view: V,
        agent: usize,
        rng: SplitMix64,
    ) -> Made<PpoRecordModel<F, N>> {
        (
            actor_records(
                trajectory,
                self.gamma,
                self.lam,
                first_or_zero(tail),
                view,
                agent,
                0,
            ),
            rng,
        )
    }

    #[verifier::loop_isolation(false)]
    fn episode_records(
        &self,
        trajectory: &Vec<Step<F, N, PpoEvaluation<N>>>,
        tail: &[N],
        view: &V,
        agent: usize,
        rng: &mut SplitMix64,
    ) -> (r: Result<Vec<PpoRecord<F, N>>, Fault>) {
        let ghost steps = step_models(trajectory@);
        let ghost shown = |x: PpoRecord<F, N>|
            <Self as Learner<N, F, PpoEvaluation<N>, V>>::shown(x);
        let n = trajectory.len();
        let beyond = if tail.len() == 0 {
            N::zero()
        } else {
            tail[0]
        };
        let mut next = beyond;
        let mut gae = N::zero();
        let mut out: Vec<PpoRecord<F, N>> = Vec::new();
        let mut t = n;
        assert(record_models(out@, shown).reverse() =~= Seq::empty());
        while t > 0
            invariant
                t <= n,
                next == (if t < n {
                    steps[t as int].evaluation.value
                } else {
                    beyond
                }),
                gae == advantage_from(steps, self.gamma, self.lam, beyond, t as nat),
                actor_records(steps, self.gamma, self.lam, beyond, *view, agent, t as nat) == Ok::<
                    _,
                    Fault,
                >(record_models(out@, shown).reverse()),
            decreases t,
        {
            t = t - 1;
            let step = &trajectory[t];
            assert(steps[t as int] == step@);
            let value = step.evaluation.value;
            let delta = step.reward.plus(self.gamma.times(next)).minus(value);
            gae = delta.plus(self.gamma.times(self.lam).times(gae));
            let slot = match find_slot(&step.evaluation.legal, step.action) {
                Some(slot) => slot,
                None => {
                    proof {
                        lemma_actor_fault(
                            steps,
                            self.gamma,
                            self.lam,
                            beyond,
                            *view,
                            agent,
                            t as nat,
                            Fault::IllegalAction,
                        );
                    }
                    return Err(Fault::IllegalAction);
                },
            };
            if slot >= step.evaluation.log_probs.len() {
                proof {
                    lemma_actor_fault(
                        steps,
                        self.gamma,
                        self.lam,
                        beyond,
                        *view,
                        agent,
                        t as nat,
                        Fault::RowWidth,
                    );
                }
                return Err(Fault::RowWidth);
            }
            let ghost before = record_models(out@, shown);
            let record = PpoRecord {
                player: agent,
                obs: copied(&step.obs),
                action: view.head_index(step.action, agent),
                behavior_log_prob: step.evaluation.log_probs[slot],
                advantage: gae,
                ret: gae.plus(value),
                value,
                legal: find_heads(view, &step.evaluation.legal, agent),
            };
            let ghost one = shown(record);
            out.push(record);
            assert(record_models(out@, shown) =~= before.push(one));
            assert(record_models(out@, shown).reverse() =~= seq![one] + before.reverse());
            next = value;
        }
        let ghost held = record_models(out@, shown).reverse();
        let out = reversed(out);
        assert(record_models(out@, shown) =~= held);
        Ok(out)
    }
}

} // verus!
