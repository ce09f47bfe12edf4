//! What learners ask for, and that they do not look at what they do not ask for.

use vstd::prelude::*;

#[allow(unused_imports)]
use super::alphazero::{zero_records, AlphaZeroLearner};
#[allow(unused_imports)]
use super::dqn::Dqn;
#[allow(unused_imports)]
use super::ppo::{actor_records, advantage_from, Ppo};
#[allow(unused_imports)]
use super::treestrap::{blended_from, moves_of, tail_or_zeros, PlayedShown, TreeStrap};
#[allow(unused_imports)]
use crate::encoder::ActionView;
#[allow(unused_imports)]
use crate::learner::{Learner, StepModel};
#[allow(unused_imports)]
use crate::num::Scalar;
#[allow(unused_imports)]
use crate::policies::modelfree::epsilon_greedy_q::{QEvaluation, QModel};
#[allow(unused_imports)]
use crate::policies::modelfree::ppo::{PpoEvaluation, PpoModel};
#[allow(unused_imports)]
use crate::policies::tree::evaluation::{EvaluationModel, SearchEvaluation};
#[allow(unused_imports)]
use crate::rng::SplitMix64;

verus! {

/// Steps that agree but for what followed them.
pub open spec fn agree<F, N, M>(a: Seq<StepModel<F, N, M>>, b: Seq<StepModel<F, N, M>>) -> bool {
    &&& a.len() == b.len()
    &&& forall|t: int|
        0 <= t < a.len() ==> {
            let (x, y) = (#[trigger] a[t], b[t]);
            x.obs == y.obs && x.evaluation == y.evaluation && x.action == y.action && x.reward
                == y.reward
        }
}

/// The window learner asks for what follows a decision, and for no tail: its records are the same
/// whatever the tail is.
pub proof fn law_windows_ask_for_what_follows<F: Copy, N: Scalar, V: ActionView>(
    learner: Dqn<N>,
    steps: Seq<StepModel<F, N, QModel<N>>>,
    a: Seq<N>,
    b: Seq<N>,
    view: V,
    agent: usize,
    rng: SplitMix64,
)
    ensures
        <Dqn<N> as Learner<N, F, QEvaluation<N>, V>>::spec_needs_next_obs(&learner),
        !<Dqn<N> as Learner<N, F, QEvaluation<N>, V>>::spec_uses_episode_tail(&learner),
        !<Dqn<N> as Learner<N, F, QEvaluation<N>, V>>::spec_needs_interior(&learner),
        <Dqn<N> as Learner<N, F, QEvaluation<N>, V>>::spec_episode_records(
            &learner,
            steps,
            a,
            view,
            agent,
            rng,
        ) == <Dqn<N> as Learner<N, F, QEvaluation<N>, V>>::spec_episode_records(
            &learner,
            steps,
            b,
            view,
            agent,
            rng,
        ),
{
}

proof fn lemma_same_advantage<F, N: Scalar>(
    a: Seq<StepModel<F, N, PpoModel<N>>>,
    b: Seq<StepModel<F, N, PpoModel<N>>>,
    gamma: N,
    lam: N,
    beyond: N,
    t: nat,
)
    requires
        agree(a, b),
    ensures
        advantage_from(a, gamma, lam, beyond, t) == advantage_from(b, gamma, lam, beyond, t),
    decreases a.len() - t,
{
    if t < a.len() {
        lemma_same_advantage(a, b, gamma, lam, beyond, t + 1);
        assert(a[t as int].reward == b[t as int].reward);
        if t + 1 < a.len() {
            assert(a[t as int + 1].evaluation == b[t as int + 1].evaluation);
        }
    }
}

proof fn lemma_same_actor<F, N: Scalar, V: ActionView>(
    a: Seq<StepModel<F, N, PpoModel<N>>>,
    b: Seq<StepModel<F, N, PpoModel<N>>>,
    gamma: N,
    lam: N,
    beyond: N,
    view: V,
    agent: usize,
    t: nat,
)
    requires
        agree(a, b),
    ensures
        actor_records(a, gamma, lam, beyond, view, agent, t) == actor_records(
            b,
            gamma,
            lam,
            beyond,
            view,
            agent,
            t,
        ),
    decreases a.len() - t,
{
    if t < a.len() {
        lemma_same_actor(a, b, gamma, lam, beyond, view, agent, t + 1);
        lemma_same_advantage(a, b, gamma, lam, beyond, t);
        assert(a[t as int].obs == b[t as int].obs);
    }
}

/// The actor's learner asks for the tail of every trajectory, fragments too, and not for what follows a
/// decision: its records are the same whatever followed, and draw nothing.
pub proof fn law_actors_ask_for_tails<F: Copy, N: Scalar, V: ActionView>(
    learner: Ppo<N>,
    a: Seq<StepModel<F, N, PpoModel<N>>>,
    b: Seq<StepModel<F, N, PpoModel<N>>>,
    tail: Seq<N>,
    view: V,
    agent: usize,
    rng: SplitMix64,
)
    requires
        agree(a, b),
    ensures
        <Ppo<N> as Learner<N, F, PpoEvaluation<N>, V>>::spec_uses_episode_tail(&learner),
        <Ppo<N> as Learner<N, F, PpoEvaluation<N>, V>>::spec_tails_all_trajectories(&learner),
        <Ppo<N> as Learner<N, F, PpoEvaluation<N>, V>>::spec_bootstraps_fragments(&learner),
        !<Ppo<N> as Learner<N, F, PpoEvaluation<N>, V>>::spec_needs_next_obs(&learner),
        !<Ppo<N> as Learner<N, F, PpoEvaluation<N>, V>>::spec_needs_interior(&learner),
        ({
            let x = <Ppo<N> as Learner<N, F, PpoEvaluation<N>, V>>::spec_episode_records(
                &learner,
                a,
                tail,
                view,
                agent,
                rng,
            );
            let y = <Ppo<N> as Learner<N, F, PpoEvaluation<N>, V>>::spec_episode_records(
                &learner,
                b,
                tail,
                view,
                agent,
                rng,
            );
            x == y && x.1 == rng
        }),
{
    let beyond = super::alphazero::first_or_zero(tail);
    lemma_same_actor(a, b, learner.gamma, learner.lam, beyond, view, agent, 0);
}

proof fn lemma_same_return<F, N: Scalar, M>(
    a: Seq<StepModel<F, N, M>>,
    b: Seq<StepModel<F, N, M>>,
    gamma: N,
    beyond: N,
    t: nat,
)
    requires
        agree(a, b),
    ensures
        super::alphazero::return_from(a, gamma, beyond, t) == super::alphazero::return_from(
            b,
            gamma,
            beyond,
            t,
        ),
    decreases a.len() - t,
{
    if t < a.len() {
        lemma_same_return(a, b, gamma, beyond, t + 1);
        assert(a[t as int].reward == b[t as int].reward);
    }
}

proof fn lemma_same_zero<F, N: Scalar>(
    a: Seq<StepModel<F, N, EvaluationModel<N>>>,
    b: Seq<StepModel<F, N, EvaluationModel<N>>>,
    gamma: N,
    beyond: N,
    perm: Seq<usize>,
    agent: usize,
    t: nat,
)
    requires
        agree(a, b),
    ensures
        zero_records(a, gamma, beyond, perm, agent, t) == zero_records(
            b,
            gamma,
            beyond,
            perm,
            agent,
            t,
        ),
    decreases a.len() - t,
{
    if t < a.len() {
        lemma_same_zero(a, b, gamma, beyond, perm, agent, t + 1);
        lemma_same_return(a, b, gamma, beyond, t);
        assert(a[t as int].obs == b[t as int].obs);
    }
}

/// The learner from visits asks for tails, and not for what follows a decision: its records are the
/// same whatever followed, and draw nothing. Where nobody searched it makes steps without a policy
/// target.
pub proof fn law_visits_ask_for_tails<F: Copy, N: Scalar, V: ActionView>(
    learner: AlphaZeroLearner<N>,
    a: Seq<StepModel<F, N, EvaluationModel<N>>>,
    b: Seq<StepModel<F, N, EvaluationModel<N>>>,
    tail: Seq<N>,
    view: V,
    agent: usize,
    rng: SplitMix64,
    actions: usize,
    x: int,
)
    requires
        agree(a, b),
        0 <= x < actions,
    ensures
        <AlphaZeroLearner<N> as Learner<N, F, SearchEvaluation<N>, V>>::spec_uses_episode_tail(
            &learner,
        ),
        !<AlphaZeroLearner<N> as Learner<N, F, SearchEvaluation<N>, V>>::spec_needs_next_obs(
            &learner,
        ),
        !<AlphaZeroLearner<N> as Learner<N, F, SearchEvaluation<N>, V>>::spec_needs_interior(
            &learner,
        ),
        <AlphaZeroLearner<N> as Learner<
            N,
            F,
            SearchEvaluation<N>,
            V,
        >>::spec_value_only_evaluation(&learner, actions) matches Some(e) && e.visits.len()
            == actions && e.visits[x] == N::spec_zero() && e.legal.len() == 0,
        ({
            let p = <AlphaZeroLearner<N> as Learner<
                N,
                F,
                SearchEvaluation<N>,
                V,
            >>::spec_episode_records(&learner, a, tail, view, agent, rng);
            let q = <AlphaZeroLearner<N> as Learner<
                N,
                F,
                SearchEvaluation<N>,
                V,
            >>::spec_episode_records(&learner, b, tail, view, agent, rng);
            p == q && p.1 == rng
        }),
{
    let beyond = super::alphazero::first_or_zero(tail);
    if a.len() > 0 {
        assert(a[0].evaluation == b[0].evaluation);
    }
    let perm = crate::encoder::spec_head_permutation(
        view,
        super::alphazero::visit_width(a) as usize,
        agent,
    );
    lemma_same_zero(a, b, learner.gamma, beyond, perm, agent, 0);
}

proof fn lemma_unblended<N: Scalar>(
    trajectory: Seq<PlayedShown<N>>,
    gamma: N,
    weight: N,
    a: Seq<N>,
    b: Seq<N>,
    t: nat,
)
    requires
        !N::spec_zero().spec_less(weight),
    ensures
        blended_from(trajectory, gamma, weight, a, t) == blended_from(
            trajectory,
            gamma,
            weight,
            b,
            t,
        ),
    decreases trajectory.len() - t,
{
    if t < trajectory.len() {
        lemma_unblended(trajectory, gamma, weight, a, b, t + 1);
    }
}

/// The learner from searched values asks for tails where it blends outcomes in, and only there: where
/// it does not, its records are the same whatever the tail is. It asks for interior targets where it
/// is told to.
pub proof fn law_values_ask_for_tails_to_blend<F: Copy, N: Scalar, V: ActionView>(
    learner: TreeStrap<N>,
    steps: Seq<StepModel<F, N, EvaluationModel<N>>>,
    a: Seq<N>,
    b: Seq<N>,
    view: V,
    agent: usize,
    rng: SplitMix64,
)
    ensures
        <TreeStrap<N> as Learner<N, F, SearchEvaluation<N>, V>>::spec_uses_episode_tail(&learner)
            == N::spec_zero().spec_less(learner.outcome_weight),
        <TreeStrap<N> as Learner<N, F, SearchEvaluation<N>, V>>::spec_needs_interior(&learner)
            == learner.interior_targets,
        !<TreeStrap<N> as Learner<N, F, SearchEvaluation<N>, V>>::spec_needs_next_obs(&learner),
        !<TreeStrap<N> as Learner<N, F, SearchEvaluation<N>, V>>::spec_uses_episode_tail(&learner)
            ==> <TreeStrap<N> as Learner<N, F, SearchEvaluation<N>, V>>::spec_episode_records(
            &learner,
            steps,
            a,
            view,
            agent,
            rng,
        ) == <TreeStrap<N> as Learner<N, F, SearchEvaluation<N>, V>>::spec_episode_records(
            &learner,
            steps,
            b,
            view,
            agent,
            rng,
        ),
{
    if !N::spec_zero().spec_less(learner.outcome_weight) && steps.len() > 0 {
        let k = steps[0].evaluation.values.len();
        lemma_unblended(
            moves_of(steps),
            learner.gamma,
            learner.outcome_weight,
            tail_or_zeros(a, k),
            tail_or_zeros(b, k),
            0,
        );
    }
}

} // verus!
