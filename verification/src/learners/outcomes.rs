//! What the records of an episode say of it.

use vstd::prelude::*;

#[allow(unused_imports)]
use crate::encoder::ActionView;
#[allow(unused_imports)]
use crate::fault::Fault;
#[allow(unused_imports)]
use crate::learner::{spec_sample_mask, Learner, StepModel};
#[allow(unused_imports)]
use crate::learners::dqn::{
    law_transitions, transition_record, transition_records, window_end, window_from, Dqn, DqnModel,
};
#[allow(unused_imports)]
use crate::learners::ppo::{
    actor_record, actor_records, advantage_from, next_value, slot_from, Ppo, PpoRecordModel,
};
#[allow(unused_imports)]
use crate::learners::strapped::law_marks;
#[allow(unused_imports)]
use crate::num::{law_outlook, law_ring, law_sum, outlook, power, ring, spec_sum, Scalar};
#[allow(unused_imports)]
use crate::policies::modelfree::epsilon_greedy_q::{QEvaluation, QModel};
#[allow(unused_imports)]
use crate::policies::modelfree::ppo::{PpoEvaluation, PpoModel};
#[allow(unused_imports)]
use crate::rng::SplitMix64;

verus! {

/// The rewards of a trajectory from the `t`-th decision on.
pub open spec fn rewards_from<F, N, M>(steps: Seq<StepModel<F, N, M>>, t: nat) -> Seq<N> {
    Seq::new((steps.len() - t) as nat, |i: int| steps[t + i].reward)
}

/// `heads` are the heads of `actions`, one for one.
pub open spec fn heads_match<V: ActionView>(
    heads: Seq<usize>,
    actions: Seq<usize>,
    view: V,
    agent: usize,
) -> bool {
    &&& heads.len() == actions.len()
    &&& forall|i: int|
        0 <= i < actions.len() ==> #[trigger] heads[i] == view.spec_head_index(actions[i], agent)
}

/// `slot` is the first at which `action` stands among the legal actions.
pub open spec fn chosen_slot<N>(evaluation: PpoModel<N>, action: usize, slot: int) -> bool {
    &&& 0 <= slot < evaluation.legal.len()
    &&& evaluation.legal[slot] == action
    &&& forall|j: int| 0 <= j < slot ==> #[trigger] evaluation.legal[j] != action
}

/// The record says who saw what, did what among what was legal, how likely that was when it was
/// chosen, and what was expected.
pub open spec fn tells<F, N, V: ActionView>(
    record: PpoRecordModel<F, N>,
    step: StepModel<F, N, PpoModel<N>>,
    view: V,
    agent: usize,
    slot: int,
) -> bool {
    &&& chosen_slot(step.evaluation, step.action, slot)
    &&& slot < step.evaluation.log_probs.len()
    &&& record.behavior_log_prob == step.evaluation.log_probs[slot]
    &&& record.player == agent
    &&& record.obs == step.obs
    &&& record.action == view.spec_head_index(step.action, agent)
    &&& record.value == step.evaluation.value
    &&& heads_match(record.legal, step.evaluation.legal, view, agent)
}

proof fn lemma_slot<N>(evaluation: PpoModel<N>, action: usize, i: nat)
    requires
        forall|j: int| 0 <= j < i ==> #[trigger] evaluation.legal[j] != action,
    ensures
        match slot_from(evaluation.legal, action, i) {
            Some(s) => chosen_slot(evaluation, action, s as int),
            None => forall|j: int|
                0 <= j < evaluation.legal.len() ==> #[trigger] evaluation.legal[j] != action,
        },
    decreases evaluation.legal.len() - i,
{
    if i < evaluation.legal.len() && evaluation.legal[i as int] != action {
        lemma_slot(evaluation, action, i + 1);
    }
}

proof fn lemma_actor<F, N: Scalar, V: ActionView>(
    steps: Seq<StepModel<F, N, PpoModel<N>>>,
    gamma: N,
    lam: N,
    beyond: N,
    view: V,
    agent: usize,
    t: nat,
    i: nat,
)
    requires
        t <= i < steps.len(),
    ensures
        actor_records(steps, gamma, lam, beyond, view, agent, t) matches Ok(out) ==> {
            &&& out.len() == steps.len() - t
            &&& actor_record(
                steps[i as int],
                advantage_from(steps, gamma, lam, beyond, i),
                view,
                agent,
            ) == Ok::<_, Fault>(out[i - t])
        },
        actor_records(steps, gamma, lam, beyond, view, agent, t) is Ok ==> actor_records(
            steps,
            gamma,
            lam,
            beyond,
            view,
            agent,
            i,
        ) is Ok,
    decreases steps.len() - t,
{
    if t < i {
        lemma_actor(steps, gamma, lam, beyond, view, agent, t + 1, i);
        if let Ok(out) = actor_records(steps, gamma, lam, beyond, view, agent, t) {
            let rest = actor_records(steps, gamma, lam, beyond, view, agent, t + 1)->Ok_0;
            assert(out[i - t] == rest[i - (t + 1)]);
        }
    } else {
        lemma_actor_count(steps, gamma, lam, beyond, view, agent, t);
    }
}

proof fn lemma_actor_count<F, N: Scalar, V: ActionView>(
    steps: Seq<StepModel<F, N, PpoModel<N>>>,
    gamma: N,
    lam: N,
    beyond: N,
    view: V,
    agent: usize,
    t: nat,
)
    requires
        t <= steps.len(),
    ensures
        actor_records(steps, gamma, lam, beyond, view, agent, t) matches Ok(out) ==> out.len()
            == steps.len() - t,
    decreases steps.len() - t,
{
    if t < steps.len() {
        lemma_actor_count(steps, gamma, lam, beyond, view, agent, t + 1);
    }
}

/// The records of a PPO episode.
pub open spec fn ppo_records<F: Copy, N: Scalar, V: ActionView>(
    learner: Ppo<N>,
    steps: Seq<StepModel<F, N, PpoModel<N>>>,
    tail: Seq<N>,
    view: V,
    agent: usize,
    rng: SplitMix64,
) -> Result<Seq<PpoRecordModel<F, N>>, Fault> {
    <Ppo<N> as Learner<N, F, PpoEvaluation<N>, V>>::spec_episode_records(
        &learner,
        steps,
        tail,
        view,
        agent,
        rng,
    ).0
}

/// Every decision has one record, in order, which says what was done: the log-probability is that of
/// the action that was executed, which stands first at `slot` among the legal ones.
pub proof fn law_ppo_records_tell_what_was_done<F: Copy, N: Scalar, V: ActionView>(
    learner: Ppo<N>,
    steps: Seq<StepModel<F, N, PpoModel<N>>>,
    tail: Seq<N>,
    view: V,
    agent: usize,
    rng: SplitMix64,
    t: int,
) -> (slot: int)
    requires
        0 <= t < steps.len(),
    ensures
        ppo_records(learner, steps, tail, view, agent, rng) matches Ok(out) ==> {
            &&& out.len() == steps.len()
            &&& tells(out[t], steps[t], view, agent, slot)
        },
{
    let beyond = if tail.len() == 0 {
        N::spec_zero()
    } else {
        tail[0]
    };
    lemma_actor(steps, learner.gamma, learner.lam, beyond, view, agent, 0, t as nat);
    lemma_slot(steps[t].evaluation, steps[t].action, 0);
    match slot_from(steps[t].evaluation.legal, steps[t].action, 0) {
        Some(s) => s as int,
        None => 0,
    }
}

proof fn lemma_actor_owed<F, N: Scalar, V: ActionView>(
    steps: Seq<StepModel<F, N, PpoModel<N>>>,
    gamma: N,
    lam: N,
    beyond: N,
    view: V,
    agent: usize,
    t: nat,
)
    requires
        forall|i: int|
            0 <= i < steps.len() ==> (#[trigger] steps[i]).evaluation.legal.contains(
                steps[i].action,
            ) && steps[i].evaluation.log_probs.len() == steps[i].evaluation.legal.len(),
    ensures
        actor_records(steps, gamma, lam, beyond, view, agent, t) is Ok,
    decreases steps.len() - t,
{
    if t < steps.len() {
        lemma_actor_owed(steps, gamma, lam, beyond, view, agent, t + 1);
        let e = steps[t as int].evaluation;
        let action = steps[t as int].action;
        lemma_slot(e, action, 0);
        assert(e.legal.contains(action));
        let j = choose|j: int| 0 <= j < e.legal.len() && e.legal[j] == action;
        assert(slot_from(e.legal, action, 0) is Some);
    }
}

/// Records are owed wherever every executed action was legal and every legal action has its
/// log-probability.
pub proof fn law_ppo_records_are_owed<F: Copy, N: Scalar, V: ActionView>(
    learner: Ppo<N>,
    steps: Seq<StepModel<F, N, PpoModel<N>>>,
    tail: Seq<N>,
    view: V,
    agent: usize,
    rng: SplitMix64,
)
    requires
        forall|i: int|
            0 <= i < steps.len() ==> (#[trigger] steps[i]).evaluation.legal.contains(
                steps[i].action,
            ) && steps[i].evaluation.log_probs.len() == steps[i].evaluation.legal.len(),
    ensures
        ppo_records(learner, steps, tail, view, agent, rng) matches Ok(out) && out.len()
            == steps.len(),
{
    let beyond = if tail.len() == 0 {
        N::spec_zero()
    } else {
        tail[0]
    };
    lemma_actor_owed(steps, learner.gamma, learner.lam, beyond, view, agent, 0);
    lemma_actor_count(steps, learner.gamma, learner.lam, beyond, view, agent, 0);
}

/// What a PPO record should come to is its one reward and, discounted, what comes next: the next
/// record's value, and so much of what that record came to beyond it as the trace keeps. After the
/// last decision the tail stands for both.
pub proof fn law_ppo_returns_look_ahead<F: Copy, N: Scalar, V: ActionView>(
    learner: Ppo<N>,
    steps: Seq<StepModel<F, N, PpoModel<N>>>,
    tail: Seq<N>,
    view: V,
    agent: usize,
    rng: SplitMix64,
    t: int,
)
    requires
        ring::<N>(),
        0 <= t < steps.len(),
    ensures
        ppo_records(learner, steps, tail, view, agent, rng) matches Ok(out) ==> {
            let value = if t + 1 < steps.len() {
                out[t + 1].value
            } else if tail.len() > 0 {
                tail[0]
            } else {
                N::spec_zero()
            };
            let ret = if t + 1 < steps.len() {
                out[t + 1].ret
            } else {
                value
            };
            let kept = N::spec_one().spec_minus(learner.lam).spec_times(value).spec_plus(
                learner.lam.spec_times(ret),
            );
            &&& out[t].ret == steps[t].reward.spec_plus(learner.gamma.spec_times(kept))
            &&& out[t].ret == out[t].value.spec_plus(out[t].advantage)
        },
{
    let beyond = if tail.len() == 0 {
        N::spec_zero()
    } else {
        tail[0]
    };
    let g = learner.gamma;
    let l = learner.lam;
    lemma_actor(steps, g, l, beyond, view, agent, 0, t as nat);
    if t + 1 < steps.len() {
        lemma_actor(steps, g, l, beyond, view, agent, 0, (t + 1) as nat);
    }
    if let Ok(out) = ppo_records(learner, steps, tail, view, agent, rng) {
        let v = steps[t].evaluation.value;
        let r = steps[t].reward;
        let next = next_value(steps, beyond, t as nat);
        let later = advantage_from(steps, g, l, beyond, (t + 1) as nat);
        let ret = if t + 1 < steps.len() {
            out[t + 1].ret
        } else {
            next
        };
        law_ring(next, next, next);
        law_ring(later, next, next);
        assert(ret == later.spec_plus(next));
        lemma_lambda(r, g, l, v, next, later);
        law_ring(v, out[t].advantage, v);
    }
}

proof fn lemma_lambda<N: Scalar>(r: N, g: N, l: N, v: N, next: N, later: N)
    requires
        ring::<N>(),
    ensures
        r.spec_plus(g.spec_times(next)).spec_minus(v).spec_plus(
            g.spec_times(l).spec_times(later),
        ).spec_plus(v) == r.spec_plus(
            g.spec_times(
                N::spec_one().spec_minus(l).spec_times(next).spec_plus(
                    l.spec_times(later.spec_plus(next)),
                ),
            ),
        ),
{
    let one = N::spec_one();
    let a = r.spec_plus(g.spec_times(next));
    let b = g.spec_times(l).spec_times(later);
    let nv = v.spec_negated();
    // a - v + b + v == a + b
    law_ring(a, v, b);
    law_ring(a.spec_minus(v), b, v);
    law_ring(b, v, v);
    law_ring(a.spec_minus(v), v, b);
    assert(a.spec_minus(v).spec_plus(b).spec_plus(v) == a.spec_plus(b));
    // (1 - l) next + l (later + next) == next + l later
    let c = one.spec_minus(l);
    law_ring(next, c, l);
    law_ring(one, l, l);
    law_ring(l, later, next);
    law_ring(l.spec_times(later), l.spec_times(next), next);
    law_ring(c.spec_times(next), l.spec_times(next), l.spec_times(later));
    law_ring(next, l.spec_times(later), l);
    assert(c.spec_plus(l) == one);
    assert(c.spec_times(next).spec_plus(l.spec_times(next)) == next);
    assert(c.spec_times(next).spec_plus(l.spec_times(later.spec_plus(next))) == next.spec_plus(
        l.spec_times(later),
    ));
    law_ring(g, next, l.spec_times(later));
    law_ring(g, l, later);
    law_ring(r, g.spec_times(next), b);
}

/// With a trace that keeps everything, a record should come to what the rest of the trajectory pays:
/// each later reward by the discount to the power of how many decisions off it is, and the tail.
pub proof fn law_ppo_full_traces_pay_everything<F: Copy, N: Scalar, V: ActionView>(
    learner: Ppo<N>,
    steps: Seq<StepModel<F, N, PpoModel<N>>>,
    tail: Seq<N>,
    view: V,
    agent: usize,
    rng: SplitMix64,
    t: int,
)
    requires
        ring::<N>(),
        learner.lam == N::spec_one(),
        0 <= t < steps.len(),
    ensures
        ppo_records(learner, steps, tail, view, agent, rng) matches Ok(out) ==> out[t].ret
            == outlook(
            rewards_from(steps, t as nat),
            learner.gamma,
            if tail.len() > 0 {
                tail[0]
            } else {
                N::spec_zero()
            },
        ),
    decreases steps.len() - t,
{
    let one = N::spec_one();
    let beyond = if tail.len() > 0 {
        tail[0]
    } else {
        N::spec_zero()
    };
    law_ppo_returns_look_ahead(learner, steps, tail, view, agent, rng, t);
    let later = rewards_from(steps, (t + 1) as nat);
    assert(rewards_from(steps, t as nat) =~= seq![steps[t].reward] + later);
    law_outlook(steps[t].reward, later, learner.gamma, beyond);
    if t + 1 < steps.len() {
        law_ppo_full_traces_pay_everything(learner, steps, tail, view, agent, rng, t + 1);
    } else {
        assert(later =~= Seq::empty());
    }
    if let Ok(out) = ppo_records(learner, steps, tail, view, agent, rng) {
        let value = if t + 1 < steps.len() {
            out[t + 1].value
        } else {
            beyond
        };
        let ret = if t + 1 < steps.len() {
            out[t + 1].ret
        } else {
            value
        };
        law_ring(one, one, one);
        law_ring(value, value, value);
        law_ring(ret, ret, ret);
    }
}

proof fn lemma_window<F, N: Scalar, M>(
    steps: Seq<StepModel<F, N, M>>,
    gamma: N,
    t: nat,
    i: nat,
    e: nat,
    reward: N,
    discount: N,
)
    requires
        t <= i <= e,
        discount == power(gamma, (i - t) as nat),
        reward == spec_sum(
            Seq::new(
                (i - t) as nat,
                |j: int| power(gamma, j as nat).spec_times(steps[t + j].reward),
            ),
        ),
    ensures
        window_from(steps, gamma, i, e, reward, discount) == (
            spec_sum(
                Seq::new(
                    (e - t) as nat,
                    |j: int| power(gamma, j as nat).spec_times(steps[t + j].reward),
                ),
            ),
            power(gamma, (e - t) as nat),
        ),
    decreases e - i,
{
    if i < e {
        let term = |j: int| power(gamma, j as nat).spec_times(steps[t + j].reward);
        let so_far = Seq::new((i - t) as nat, term);
        law_sum(so_far, term(i - t));
        assert(so_far.push(term(i - t)) =~= Seq::new((i + 1 - t) as nat, term));
        lemma_window(
            steps,
            gamma,
            t,
            i + 1,
            e,
            reward.spec_plus(discount.spec_times(steps[i as int].reward)),
            discount.spec_times(gamma),
        );
    }
}

/// The records of a DQN episode.
pub open spec fn dqn_records<F: Copy, N: Scalar, V: ActionView>(
    learner: Dqn<N>,
    steps: Seq<StepModel<F, N, QModel<N>>>,
    tail: Seq<N>,
    view: V,
    agent: usize,
    rng: SplitMix64,
) -> Result<Seq<DqnModel<F, N>>, Fault> {
    <Dqn<N> as Learner<N, F, QEvaluation<N>, V>>::spec_episode_records(
        &learner,
        steps,
        tail,
        view,
        agent,
        rng,
    ).0
}

/// Every decision has one record, in order. A window of rewards, each by the discount to the power of
/// how far off it is, leads from the decision to where the agent decides next: the record of that
/// decision has the same observation and the same legal actions. Where the trajectory ends before,
/// what followed its last decision stands there. After the game's end nothing is legal, and where
/// nothing is legal nothing is bootstrapped.
pub proof fn law_windows_lead_to_the_next_decision<F: Copy, N: Scalar, V: ActionView>(
    learner: Dqn<N>,
    steps: Seq<StepModel<F, N, QModel<N>>>,
    tail: Seq<N>,
    view: V,
    agent: usize,
    rng: SplitMix64,
    t: int,
)
    requires
        0 <= t < steps.len(),
        learner.steps() >= 1,
    ensures
        dqn_records(learner, steps, tail, view, agent, rng) matches Ok(out) && {
            let n = learner.steps() as int;
            let ends = t + n >= steps.len();
            let span = if ends {
                steps.len() - t
            } else {
                n
            };
            let last = steps[t + span - 1];
            &&& out.len() == steps.len()
            &&& out[t].player == agent
            &&& out[t].obs == steps[t].obs
            &&& out[t].action == view.spec_head_index(steps[t].action, agent)
            &&& heads_match(out[t].legal, steps[t].evaluation.legal, view, agent)
            &&& out[t].terminal == last.terminal
            &&& out[t].reward == spec_sum(
                Seq::new(
                    span as nat,
                    |j: int| power(learner.discount(), j as nat).spec_times(steps[t + j].reward),
                ),
            )
            &&& !ends ==> out[t].next_obs == out[t + n].obs
            &&& !ends && !out[t].terminal ==> out[t].next_legal == out[t + n].legal
            &&& ends ==> out[t].next_obs == last.next_obs
            &&& ends && !out[t].terminal ==> heads_match(
                out[t].next_legal,
                last.next_legal,
                view,
                agent,
            )
            &&& out[t].terminal ==> out[t].next_legal.len() == 0
            &&& out[t].discount == if out[t].next_legal.len() == 0 {
                N::spec_zero()
            } else {
                power(learner.discount(), span as nat)
            }
        },
{
    law_transitions(
        steps,
        learner.heads(),
        learner.mask_probability(),
        learner.steps(),
        learner.discount(),
        view,
        agent,
        rng,
    );
    let e = window_end(t as nat, learner.steps(), steps.len());
    let term = |j: int| power(learner.discount(), j as nat).spec_times(steps[t + j].reward);
    assert(Seq::new(0, term) =~= Seq::empty());
    law_sum(Seq::<N>::empty(), N::spec_zero());
    lemma_window(
        steps,
        learner.discount(),
        t as nat,
        t as nat,
        e,
        N::spec_zero(),
        N::spec_one(),
    );
    let out = dqn_records(learner, steps, tail, view, agent, rng)->Ok_0;
    assert(out[t].obs == steps[t].obs);
    if t + learner.steps() < steps.len() {
        let u = t + learner.steps();
        assert(out[u].obs == steps[u].obs);
    }
}

proof fn lemma_masks<F, N: Scalar, V: ActionView>(
    steps: Seq<StepModel<F, N, QModel<N>>>,
    n_heads: nat,
    p: N,
    n_step: nat,
    gamma: N,
    view: V,
    agent: usize,
    t: nat,
    acc: Seq<DqnModel<F, N>>,
    rng: SplitMix64,
    i: int,
)
    requires
        t == acc.len() <= steps.len(),
        0 <= i < steps.len(),
        i < t ==> marked(acc[i].mask, n_heads),
    ensures
        marked(
            transition_records(
                steps,
                n_heads,
                p,
                n_step,
                gamma,
                view,
                agent,
                t,
                acc,
                rng,
            ).0[i].mask,
            n_heads,
        ),
    decreases steps.len() - t,
{
    if t < steps.len() {
        let (mask, next) = spec_sample_mask(rng, n_heads, p);
        law_marks(rng, n_heads, p);
        let one = transition_record(steps, n_step, gamma, view, agent, t, mask);
        lemma_masks(
            steps,
            n_heads,
            p,
            n_step,
            gamma,
            view,
            agent,
            t + 1,
            acc.push(one),
            next,
            i,
        );
    }
}

/// A mark for each head: one or nothing.
pub open spec fn marked<N: Scalar>(mask: Seq<N>, heads: nat) -> bool {
    &&& mask.len() == heads
    &&& forall|h: int|
        0 <= h < heads ==> #[trigger] mask[h] == N::spec_one() || mask[h] == N::spec_zero()
}

/// Every window's record has a mark for each head: one or nothing.
pub proof fn law_windows_are_marked<F: Copy, N: Scalar, V: ActionView>(
    learner: Dqn<N>,
    steps: Seq<StepModel<F, N, QModel<N>>>,
    tail: Seq<N>,
    view: V,
    agent: usize,
    rng: SplitMix64,
    t: int,
)
    requires
        0 <= t < steps.len(),
    ensures
        dqn_records(learner, steps, tail, view, agent, rng) matches Ok(out) && marked(
            out[t].mask,
            learner.heads(),
        ),
{
    lemma_masks(
        steps,
        learner.heads(),
        learner.mask_probability(),
        learner.steps(),
        learner.discount(),
        view,
        agent,
        0,
        Seq::empty(),
        rng,
        t,
    );
}

} // verus!
