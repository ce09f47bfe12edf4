//! DQN training-record production.

use vstd::prelude::*;

use crate::encoder::ActionView;
use crate::fault::Fault;
use crate::learner::{find_head_maxima, sample_mask, Learner, Step};
#[allow(unused_imports)]
use crate::learner::{
    head_maxima, record_models, spec_sample_mask, step_models, Made, StepModel,
};
use crate::num::Scalar;
use crate::policies::modelfree::epsilon_greedy_q::QEvaluation;
#[allow(unused_imports)]
use crate::policies::modelfree::epsilon_greedy_q::QModel;
use crate::policies::tree::expectimax::backup::InteriorTarget;
#[allow(unused_imports)]
use crate::policies::tree::expectimax::backup::targets;
use crate::policies::tree::expectimax::evaluate::find_heads;
#[allow(unused_imports)]
use crate::policies::tree::expectimax::evaluate::heads_of;
use crate::rng::SplitMix64;
use crate::util::copied;
#[allow(unused_imports)]
use crate::util::viewed;

verus! {

/// A transition over one window of an agent's own decisions.
pub struct DqnRecord<F, N> {
    pub player: usize,
    pub obs: Vec<F>,
    pub action: usize,
    pub reward: N,
    pub next_obs: Vec<F>,
    pub terminal: bool,
    /// The discount to the power of the decisions that the window spans; zero where it cannot
    /// bootstrap. The target is the reward and this much of the next value.
    pub discount: N,
    pub mask: Vec<N>,
    pub legal: Vec<usize>,
    pub next_legal: Vec<usize>,
}

/// A record as a mathematical value.
#[verifier::ext_equal]
pub struct DqnModel<F, N> {
    pub player: usize,
    pub obs: Seq<F>,
    pub action: usize,
    pub reward: N,
    pub next_obs: Seq<F>,
    pub terminal: bool,
    pub discount: N,
    pub mask: Seq<N>,
    pub legal: Seq<usize>,
    pub next_legal: Seq<usize>,
}

impl<F, N> View for DqnRecord<F, N> {
    type V = DqnModel<F, N>;

    open spec fn view(&self) -> DqnModel<F, N> {
        DqnModel {
            player: self.player,
            obs: self.obs@,
            action: self.action,
            reward: self.reward,
            next_obs: self.next_obs@,
            terminal: self.terminal,
            discount: self.discount,
            mask: self.mask@,
            legal: self.legal@,
            next_legal: self.next_legal@,
        }
    }
}

/// Makes transitions over windows of several decisions.
pub struct Dqn<N> {
    n_heads: usize,
    bootstrap_p: N,
    n_step: usize,
    gamma: N,
}

/// The learner by its longer name.
pub type DqnLearner<N> = Dqn<N>;

/// The reward and the discount that the decisions from the `i`-th before the `e`-th add to what
/// there is.
pub open spec fn window_from<F, N: Scalar, M>(
    steps: Seq<StepModel<F, N, M>>,
    gamma: N,
    i: nat,
    e: nat,
    reward: N,
    discount: N,
) -> (N, N)
    decreases e - i,
{
    if i >= e {
        (reward, discount)
    } else {
        window_from(
            steps,
            gamma,
            i + 1,
            e,
            reward.spec_plus(discount.spec_times(steps[i as int].reward)),
            discount.spec_times(gamma),
        )
    }
}

/// Where the window of the `t`-th decision ends: so many decisions later, or with the trajectory.
pub open spec fn window_end(t: nat, n_step: nat, len: nat) -> nat {
    if t + n_step < len {
        t + n_step
    } else {
        len
    }
}

/// The record of the `t`-th decision. It bootstraps from the agent's next own decision after the
/// window, or from what follows the last.
pub open spec fn transition_record<F, N: Scalar, V: ActionView>(
    steps: Seq<StepModel<F, N, QModel<N>>>,
    n_step: nat,
    gamma: N,
    view: V,
    agent: usize,
    t: nat,
    mask: Seq<N>,
) -> DqnModel<F, N> {
    let e = window_end(t, n_step, steps.len());
    let (reward, discount) = window_from(steps, gamma, t, e, N::spec_zero(), N::spec_one());
    let step = steps[t as int];
    let last = steps[e - 1];
    let (next_obs, next_ids) = if e < steps.len() {
        (steps[e as int].obs, steps[e as int].evaluation.legal)
    } else {
        (last.next_obs, last.next_legal)
    };
    let next_legal = if last.terminal {
        Seq::empty()
    } else {
        heads_of(view, next_ids, agent)
    };
    DqnModel {
        player: agent,
        obs: step.obs,
        action: view.spec_head_index(step.action, agent),
        reward,
        next_obs,
        terminal: last.terminal,
        discount: if next_legal.len() == 0 {
            N::spec_zero()
        } else {
            discount
        },
        mask,
        legal: heads_of(view, step.evaluation.legal, agent),
        next_legal,
    }
}

/// `acc` with the records from the `t`-th on, and the generator then.
pub open spec fn transition_records<F, N: Scalar, V: ActionView>(
    steps: Seq<StepModel<F, N, QModel<N>>>,
    n_heads: nat,
    p: N,
    n_step: nat,
    gamma: N,
    view: V,
    agent: usize,
    t: nat,
    acc: Seq<DqnModel<F, N>>,
    rng: SplitMix64,
) -> (Seq<DqnModel<F, N>>, SplitMix64)
    decreases steps.len() - t,
{
    if t >= steps.len() {
        (acc, rng)
    } else {
        let (mask, next) = spec_sample_mask(rng, n_heads, p);
        let one = transition_record(steps, n_step, gamma, view, agent, t, mask);
        transition_records(
            steps,
            n_heads,
            p,
            n_step,
            gamma,
            view,
            agent,
            t + 1,
            acc.push(one),
            next,
        )
    }
}

/// Every decision has its record, in order.
pub proof fn law_transitions<F, N: Scalar, V: ActionView>(
    steps: Seq<StepModel<F, N, QModel<N>>>,
    n_heads: nat,
    p: N,
    n_step: nat,
    gamma: N,
    view: V,
    agent: usize,
    rng: SplitMix64,
)
    ensures
        ({
            let out = transition_records(
                steps,
                n_heads,
                p,
                n_step,
                gamma,
                view,
                agent,
                0,
                Seq::empty(),
                rng,
            ).0;
            out.len() == steps.len() && forall|t: int|
                0 <= t < steps.len() ==> (#[trigger] out[t]) == transition_record(
                    steps,
                    n_step,
                    gamma,
                    view,
                    agent,
                    t as nat,
                    out[t].mask,
                )
        }),
{
    lemma_transitions(steps, n_heads, p, n_step, gamma, view, agent, 0, Seq::empty(), rng);
}

proof fn lemma_transitions<F, N: Scalar, V: ActionView>(
    steps: Seq<StepModel<F, N, QModel<N>>>,
    n_heads: nat,
    p: N,
    n_step: nat,
    gamma: N,
    view: V,
    agent: usize,
    t: nat,
    acc: Seq<DqnModel<F, N>>,
    rng: SplitMix64,
)
    requires
        t == acc.len() <= steps.len(),
        forall|i: int|
            0 <= i < t ==> (#[trigger] acc[i]) == transition_record(
                steps,
                n_step,
                gamma,
                view,
                agent,
                i as nat,
                acc[i].mask,
            ),
    ensures
        ({
            let out = transition_records(
                steps,
                n_heads,
                p,
                n_step,
                gamma,
                view,
                agent,
                t,
                acc,
                rng,
            ).0;
            out.len() == steps.len() && forall|i: int|
                0 <= i < steps.len() ==> (#[trigger] out[i]) == transition_record(
                    steps,
                    n_step,
                    gamma,
                    view,
                    agent,
                    i as nat,
                    out[i].mask,
                )
        }),
    decreases steps.len() - t,
{
    if t < steps.len() {
        let (mask, next) = spec_sample_mask(rng, n_heads, p);
        let one = transition_record(steps, n_step, gamma, view, agent, t, mask);
        lemma_transitions(
            steps,
            n_heads,
            p,
            n_step,
            gamma,
            view,
            agent,
            t + 1,
            acc.push(one),
            next,
        );
    }
}

/// A window that ends with the game's end bootstraps from nothing, and so does one after which
/// nothing is legal; any other carries the discount of its whole length.
pub proof fn law_bootstrap<F, N: Scalar, V: ActionView>(
    steps: Seq<StepModel<F, N, QModel<N>>>,
    n_step: nat,
    gamma: N,
    view: V,
    agent: usize,
    t: nat,
    mask: Seq<N>,
)
    requires
        t < steps.len(),
        n_step >= 1,
    ensures
        ({
            let e = window_end(t, n_step, steps.len());
            let r = transition_record(steps, n_step, gamma, view, agent, t, mask);
            &&& t < e <= steps.len() && e <= t + n_step
            &&& r.terminal == steps[e - 1].terminal
            &&& r.terminal ==> r.next_legal.len() == 0
            &&& r.next_legal.len() == 0 ==> r.discount == N::spec_zero()
            &&& r.next_legal.len() > 0 ==> r.discount == power(gamma, (e - t) as nat)
        }),
{
    let e = window_end(t, n_step, steps.len());
    lemma_window_discount(steps, gamma, t, t, e, N::spec_zero(), N::spec_one());
}

/// The product of so many factors, from the left.
pub open spec fn power<N: Scalar>(x: N, k: nat) -> N
    decreases k,
{
    if k == 0 {
        N::spec_one()
    } else {
        power(x, (k - 1) as nat).spec_times(x)
    }
}

proof fn lemma_window_discount<F, N: Scalar, M>(
    steps: Seq<StepModel<F, N, M>>,
    gamma: N,
    t: nat,
    i: nat,
    e: nat,
    reward: N,
    discount: N,
)
    requires
        t <= i <= e,
        discount == power(gamma, (i - t) as nat),
    ensures
        window_from(steps, gamma, i, e, reward, discount).1 == power(gamma, (e - t) as nat),
    decreases e - i,
{
    if i < e {
        lemma_window_discount(
            steps,
            gamma,
            t,
            i + 1,
            e,
            reward.spec_plus(discount.spec_times(steps[i as int].reward)),
            discount.spec_times(gamma),
        );
    }
}

impl<N> Dqn<N> {
    #[verifier::type_invariant]
    spec fn positive(self) -> bool {
        self.n_heads >= 1 && self.n_step >= 1
    }
}

impl<N: Scalar> Dqn<N> {
    pub closed spec fn heads(self) -> nat {
        self.n_heads as nat
    }

    pub closed spec fn mask_probability(self) -> N {
        self.bootstrap_p
    }

    pub closed spec fn steps(self) -> nat {
        self.n_step as nat
    }

    pub closed spec fn discount(self) -> N {
        self.gamma
    }

    /// At least one head and one step.
    pub fn new(n_heads: usize, bootstrap_p: N, n_step: usize, gamma: N) -> (r: Self)
        ensures
            r.heads() == (if n_heads == 0 {
                1
            } else {
                n_heads as int
            }),
            r.mask_probability() == bootstrap_p,
            r.steps() == (if n_step == 0 {
                1
            } else {
                n_step as int
            }),
            r.discount() == gamma,
    {
        let n_heads = if n_heads == 0 {
            1
        } else {
            n_heads
        };
        let n_step = if n_step == 0 {
            1
        } else {
            n_step
        };
        Dqn { n_heads, bootstrap_p, n_step, gamma }
    }
}

/// Makes the record of one decision.
fn window_record<F: Copy, N: Scalar, V: ActionView>(
    trajectory: &Vec<Step<F, N, QEvaluation<N>>>,
    n_step: usize,
    gamma: N,
    view: &V,
    agent: usize,
    t: usize,
    mask: Vec<N>,
) -> (r: DqnRecord<F, N>)
    requires
        t < trajectory@.len(),
        n_step >= 1,
    ensures
        r@ == transition_record(
            step_models(trajectory@),
            n_step as nat,
            gamma,
            *view,
            agent,
            t as nat,
            mask@,
        ),
{
    let ghost steps = step_models(trajectory@);
    let len = trajectory.len();
    let e = if n_step < len - t {
        t + n_step
    } else {
        len
    };
    let mut reward = N::zero();
    let mut discount = N::one();
    let mut i = t;
    while i < e
        invariant
            t <= i <= e <= len == trajectory@.len(),
            steps == step_models(trajectory@),
            window_from(steps, gamma, i as nat, e as nat, reward, discount) == window_from(
                steps,
                gamma,
                t as nat,
                e as nat,
                N::spec_zero(),
                N::spec_one(),
            ),
        decreases e - i,
    {
        assert(steps[i as int] == trajectory@[i as int]@);
        reward = reward.plus(discount.times(trajectory[i].reward));
        discount = discount.times(gamma);
        i = i + 1;
    }
    let step = &trajectory[t];
    let last = &trajectory[e - 1];
    assert(steps[t as int] == step@);
    assert(steps[e - 1] == last@);
    let next_obs = if e < len {
        assert(steps[e as int] == trajectory@[e as int]@);
        copied(&trajectory[e].obs)
    } else {
        copied(&last.next_obs)
    };
    let next_legal = if last.terminal {
        Vec::new()
    } else if e < len {
        assert(steps[e as int] == trajectory@[e as int]@);
        find_heads(view, &trajectory[e].evaluation.legal, agent)
    } else {
        find_heads(view, &last.next_legal, agent)
    };
    let discount = if next_legal.len() == 0 {
        N::zero()
    } else {
        discount
    };
    let r = DqnRecord {
        player: agent,
        obs: copied(&step.obs),
        action: view.head_index(step.action, agent),
        reward,
        next_obs,
        terminal: last.terminal,
        discount,
        mask,
        legal: find_heads(view, &step.evaluation.legal, agent),
        next_legal,
    };
    assert(r@ =~= transition_record(
        steps,
        n_step as nat,
        gamma,
        *view,
        agent,
        t as nat,
        mask@,
    ));
    r
}

impl<N: Scalar, F: Copy, V: ActionView> Learner<N, F, QEvaluation<N>, V> for Dqn<N> {
    type Record = DqnRecord<F, N>;

    type Shown = DqnModel<F, N>;

    open spec fn shown(record: DqnRecord<F, N>) -> DqnModel<F, N> {
        record@
    }

    open spec fn spec_uses_episode_tail(&self) -> bool {
        false
    }

    fn uses_episode_tail(&self) -> (r: bool) {
        false
    }

    open spec fn spec_needs_next_obs(&self) -> bool {
        true
    }

    fn needs_next_obs(&self) -> (r: bool) {
        true
    }

    open spec fn spec_needs_interior(&self) -> bool {
        false
    }

    fn needs_interior(&self) -> (r: bool) {
        false
    }

    open spec fn spec_tails_all_trajectories(&self) -> bool {
        false
    }

    fn tails_all_trajectories(&self) -> (r: bool) {
        false
    }

    open spec fn spec_bootstraps_fragments(&self) -> bool {
        false
    }

    fn bootstraps_fragments(&self) -> (r: bool) {
        false
    }

    open spec fn spec_tail_from_row(
        &self,
        row: Seq<N>,
        action_count: usize,
        legal: Seq<usize>,
        view: V,
        agent: usize,
    ) -> Result<Seq<N>, Fault> {
        head_maxima(row, action_count, legal, view, agent)
    }

    fn tail_from_row(
        &self,
        row: &[N],
        action_count: usize,
        legal: &[usize],
        view: &V,
        agent: usize,
    ) -> (r: Result<Vec<N>, Fault>) {
        find_head_maxima(row, action_count, legal, view, agent)
    }

    open spec fn spec_value_only_evaluation(&self, action_count: usize) -> Option<QModel<N>> {
        None
    }

    fn value_only_evaluation(&self, action_count: usize) -> (r: Option<QEvaluation<N>>) {
        None
    }

    /// Nothing is emitted at once.
    open spec fn spec_eval_records(
        &self,
        evaluation: QModel<N>,
        interior: Seq<(Seq<F>, Seq<Seq<N>>)>,
        view: V,
        agent: usize,
        rng: SplitMix64,
    ) -> Made<DqnModel<F, N>> {
        (Ok(Seq::empty()), rng)
    }

    fn eval_records(
        &self,
        evaluation: &QEvaluation<N>,
        interior: Vec<InteriorTarget<F, N>>,
        view: &V,
        agent: usize,
        rng: &mut SplitMix64,
    ) -> (r: Result<Vec<DqnRecord<F, N>>, Fault>) {
        let out: Vec<DqnRecord<F, N>> = Vec::new();
        assert(record_models(
            out@,
            |x: DqnRecord<F, N>| <Self as Learner<N, F, QEvaluation<N>, V>>::shown(x),
        ) =~= Seq::empty());
        Ok(out)
    }

    /// A masked record for each decision.
    open spec fn spec_episode_records(
        &self,
        trajectory: Seq<StepModel<F, N, QModel<N>>>,
        tail: Seq<N>,
        view: V,
        agent: usize,
        rng: SplitMix64,
    ) -> Made<DqnModel<F, N>> {
        let (out, next) = transition_records(
            trajectory,
            self.heads(),
            self.mask_probability(),
            self.steps(),
            self.discount(),
            view,
            agent,
            0,
            Seq::empty(),
            rng,
        );
        (Ok(out), next)
    }

    #[verifier::loop_isolation(false)]
    fn episode_records(
        &self,
        trajectory: &Vec<Step<F, N, QEvaluation<N>>>,
        tail: &[N],
        view: &V,
        agent: usize,
        rng: &mut SplitMix64,
    ) -> (r: Result<Vec<DqnRecord<F, N>>, Fault>) {
        proof {
            use_type_invariant(self);
        }
        let ghost steps = step_models(trajectory@);
        let ghost shown = |x: DqnRecord<F, N>| <Self as Learner<N, F, QEvaluation<N>, V>>::shown(x);
        let ghost goal = transition_records(
            steps,
            self.heads(),
            self.mask_probability(),
            self.steps(),
            self.discount(),
            *view,
            agent,
            0,
            Seq::empty(),
            *old(rng),
        );
        let mut out: Vec<DqnRecord<F, N>> = Vec::new();
        assert(record_models(out@, shown) =~= Seq::empty());
        let mut t: usize = 0;
        while t < trajectory.len()
            invariant
                t <= trajectory@.len(),
                transition_records(
                    steps,
                    self.heads(),
                    self.mask_probability(),
                    self.steps(),
                    self.discount(),
                    *view,
                    agent,
                    t as nat,
                    record_models(out@, shown),
                    *rng,
                ) == goal,
            decreases trajectory@.len() - t,
        {
            let ghost before = record_models(out@, shown);
            let mask = sample_mask(rng, self.n_heads, self.bootstrap_p);
            let record = window_record(
                trajectory,
                self.n_step,
                self.gamma,
                view,
                agent,
                t,
                mask,
            );
            let ghost one = shown(record);
            out.push(record);
            assert(record_models(out@, shown) =~= before.push(one));
            t = t + 1;
        }
        Ok(out)
    }
}

} // verus!
