//! What search-trained records say: shares of visits, returns, and outcomes blended into values.

use vstd::prelude::*;

#[allow(unused_imports)]
use super::outcomes::rewards_from;
#[allow(unused_imports)]
use crate::encoder::{is_identity, spec_head_permutation, ActionView};
#[allow(unused_imports)]
use crate::fault::Fault;
#[allow(unused_imports)]
use crate::game::Rng;
#[allow(unused_imports)]
use crate::learner::{head_maxima, spec_sample_mask, value_slot, Learner, StepModel};
#[allow(unused_imports)]
use crate::learners::alphazero::{
    return_from, visit_width, zero_record, zero_records, AlphaZeroLearner, ZeroShown,
};
#[allow(unused_imports)]
use crate::learners::frame::{
    ids_in_head_frame, ids_mapped, in_head_frame, law_head_frame, permutes, rows_in_head_frame,
    values_in_head_frame,
};
#[allow(unused_imports)]
use crate::learners::treestrap::{
    beside, blended, law_blend, moves_of, returns_from, spec_blend, strapped, PlayedShown,
    StrapShown, TreeStrap,
};
#[allow(unused_imports)]
use crate::num::{
    law_largest, law_outlook, law_ring, outlook, picks, ring, spec_sum, weakly_ordered, Scalar,
};
#[allow(unused_imports)]
use crate::policies::modelfree::ppo::{ppo_framed, PpoModel};
#[allow(unused_imports)]
use crate::policies::tree::evaluation::{EvaluationModel, SearchEvaluation};
#[allow(unused_imports)]
use crate::policies::tree::expectimax::evaluate::{gathered, heads_of, Exp};
#[allow(unused_imports)]
use crate::policies::tree::mcts::select::Ln;
#[allow(unused_imports)]
use crate::rng::SplitMix64;

verus! {

/// The records of a search-trained episode.
pub open spec fn alphazero_records<F: Copy, N: Scalar, V: ActionView>(
    learner: AlphaZeroLearner<N>,
    steps: Seq<StepModel<F, N, EvaluationModel<N>>>,
    tail: Seq<N>,
    view: V,
    agent: usize,
    rng: SplitMix64,
) -> Result<Seq<ZeroShown<F, N>>, Fault> {
    <AlphaZeroLearner<N> as Learner<N, F, SearchEvaluation<N>, V>>::spec_episode_records(
        &learner,
        steps,
        tail,
        view,
        agent,
        rng,
    ).0
}

proof fn lemma_zero<F, N: Scalar>(
    steps: Seq<StepModel<F, N, EvaluationModel<N>>>,
    gamma: N,
    beyond: N,
    perm: Seq<usize>,
    agent: usize,
    t: nat,
    i: nat,
)
    requires
        t <= i < steps.len(),
    ensures
        zero_records(steps, gamma, beyond, perm, agent, t) matches Ok(out) ==> {
            &&& out.len() == steps.len() - t
            &&& zero_record(
                steps[i as int],
                return_from(steps, gamma, beyond, i),
                perm,
                agent,
            ) == Ok::<_, Fault>(out[i - t])
        },
    decreases steps.len() - t,
{
    if t < i {
        lemma_zero(steps, gamma, beyond, perm, agent, t + 1, i);
        if let Ok(out) = zero_records(steps, gamma, beyond, perm, agent, t) {
            let rest = zero_records(steps, gamma, beyond, perm, agent, t + 1)->Ok_0;
            assert(out[i - t] == rest[i - (t + 1)]);
        }
    } else {
        lemma_zero_count(steps, gamma, beyond, perm, agent, t);
    }
}

proof fn lemma_zero_count<F, N: Scalar>(
    steps: Seq<StepModel<F, N, EvaluationModel<N>>>,
    gamma: N,
    beyond: N,
    perm: Seq<usize>,
    agent: usize,
    t: nat,
)
    requires
        t <= steps.len(),
    ensures
        zero_records(steps, gamma, beyond, perm, agent, t) matches Ok(out) ==> out.len()
            == steps.len() - t,
    decreases steps.len() - t,
{
    if t < steps.len() {
        lemma_zero_count(steps, gamma, beyond, perm, agent, t + 1);
    }
}

/// Every decision has one record, in order: what was seen, a policy target in which each action's
/// head has that action's share of the visits, the heads of the legal actions, and who decided. The
/// value target is the reward and, discounted, the next record's, or the tail's first after the last.
/// Only a decision with visits counts for the policy.
pub proof fn law_shares_of_visits<F: Copy, N: Scalar, V: ActionView>(
    learner: AlphaZeroLearner<N>,
    steps: Seq<StepModel<F, N, EvaluationModel<N>>>,
    tail: Seq<N>,
    view: V,
    agent: usize,
    rng: SplitMix64,
    t: int,
)
    requires
        0 <= t < steps.len(),
        steps[0].evaluation.visits.len() <= usize::MAX,
        steps[t].evaluation.visits.len() == steps[0].evaluation.visits.len(),
        permutes(
            spec_head_permutation(view, steps[0].evaluation.visits.len() as usize, agent),
            steps[0].evaluation.visits.len(),
        ),
    ensures
        alphazero_records(learner, steps, tail, view, agent, rng) matches Ok(out) ==> {
            let visits = steps[t].evaluation.visits;
            let legal = steps[t].evaluation.legal;
            let total = spec_sum(visits);
            &&& out.len() == steps.len()
            &&& out[t].0 == steps[t].obs
            &&& out[t].1.len() == visits.len()
            &&& forall|a: int|
                0 <= a < visits.len() ==> out[t].1[#[trigger] view.spec_head_index(
                    a as usize,
                    agent,
                ) as int] == if total.spec_at_most(N::spec_zero()) {
                    N::spec_zero()
                } else {
                    visits[a].spec_over(total)
                }
            &&& out[t].2 == steps[t].reward.spec_plus(
                learner.gamma.spec_times(
                    if t + 1 < steps.len() {
                        out[t + 1].2
                    } else if tail.len() > 0 {
                        tail[0]
                    } else {
                        N::spec_zero()
                    },
                ),
            )
            &&& out[t].3 == if N::spec_zero().spec_less(total) {
                N::spec_one()
            } else {
                N::spec_zero()
            }
            &&& out[t].4 == agent
            &&& out[t].5.len() == legal.len()
            &&& forall|i: int|
                0 <= i < legal.len() && legal[i] < visits.len() ==> #[trigger] out[t].5[i]
                    == view.spec_head_index(legal[i], agent)
        },
{
    let n = steps[0].evaluation.visits.len();
    let perm = spec_head_permutation(view, n as usize, agent);
    let beyond = if tail.len() > 0 {
        tail[0]
    } else {
        N::spec_zero()
    };
    lemma_zero(steps, learner.gamma, beyond, perm, agent, 0, t as nat);
    if t + 1 < steps.len() {
        lemma_zero(steps, learner.gamma, beyond, perm, agent, 0, (t + 1) as nat);
    }
    if let Ok(out) = alphazero_records(learner, steps, tail, view, agent, rng) {
        let visits = steps[t].evaluation.visits;
        let legal = steps[t].evaluation.legal;
        let total = spec_sum(visits);
        let shares = Seq::new(
            visits.len(),
            |a: int|
                if total.spec_at_most(N::spec_zero()) {
                    N::spec_zero()
                } else {
                    visits[a].spec_over(total)
                },
        );
        assert(crate::learners::alphazero::visit_shares(visits) =~= shares);
        law_head_frame(shares, perm);
        assert forall|a: int| 0 <= a < visits.len() implies out[t].1[
            #[trigger] view.spec_head_index(a as usize, agent) as int] == shares[a] by {
            assert(perm[a] == view.spec_head_index(a as usize, agent));
            assert(out[t].1[perm[a] as int] == shares[a]);
        }
        lemma_ids(legal, perm);
        assert forall|i: int| 0 <= i < legal.len() && legal[i] < visits.len() implies
            #[trigger] out[t].5[i] == view.spec_head_index(legal[i], agent) by {
            assert(perm[legal[i] as int] == view.spec_head_index(legal[i], agent));
        }
    }
}

proof fn lemma_mapped(ids: Seq<usize>, perm: Seq<usize>, i: nat, acc: Seq<usize>)
    requires
        i == acc.len() <= ids.len(),
        forall|j: int| 0 <= j < i ==> #[trigger] acc[j] == perm[ids[j] as int] && ids[j] < perm.len(),
    ensures
        ids_mapped(ids, perm, i, acc) matches Ok(out) ==> out.len() == ids.len() && forall|j: int|
            0 <= j < ids.len() ==> #[trigger] out[j] == perm[ids[j] as int] && ids[j] < perm.len(),
    decreases ids.len() - i,
{
    if i < ids.len() && ids[i as int] < perm.len() {
        lemma_mapped(ids, perm, i + 1, acc.push(perm[ids[i as int] as int]));
    }
}

/// Actions go to their heads, one for one.
proof fn lemma_ids(ids: Seq<usize>, perm: Seq<usize>)
    ensures
        ids_in_head_frame(ids, perm) matches Ok(out) ==> out.len() == ids.len() && forall|j: int|
            0 <= j < ids.len() && ids[j] < perm.len() ==> #[trigger] out[j] == perm[ids[j] as int],
{
    if !is_identity(perm) {
        lemma_mapped(ids, perm, 0, Seq::empty());
    }
}

/// The value target of a decision is what the rest of the trajectory pays: each reward by the discount
/// to the power of how many decisions off it is, and so the tail.
pub proof fn law_values_are_discounted_returns<F: Copy, N: Scalar, V: ActionView>(
    learner: AlphaZeroLearner<N>,
    steps: Seq<StepModel<F, N, EvaluationModel<N>>>,
    tail: Seq<N>,
    view: V,
    agent: usize,
    rng: SplitMix64,
    t: int,
)
    requires
        ring::<N>(),
        0 <= t < steps.len(),
    ensures
        alphazero_records(learner, steps, tail, view, agent, rng) matches Ok(out) ==> out[t].2
            == outlook(
            rewards_from(steps, t as nat),
            learner.gamma,
            if tail.len() > 0 {
                tail[0]
            } else {
                N::spec_zero()
            },
        ),
    decreases steps.len() - t,
{
    let beyond = if tail.len() > 0 {
        tail[0]
    } else {
        N::spec_zero()
    };
    let perm = spec_head_permutation(view, visit_width(steps) as usize, agent);
    lemma_zero(steps, learner.gamma, beyond, perm, agent, 0, t as nat);
    let later = rewards_from(steps, (t + 1) as nat);
    assert(rewards_from(steps, t as nat) =~= seq![steps[t].reward] + later);
    law_outlook(steps[t].reward, later, learner.gamma, beyond);
    if t + 1 < steps.len() {
        law_values_are_discounted_returns(learner, steps, tail, view, agent, rng, t + 1);
        lemma_zero(steps, learner.gamma, beyond, perm, agent, 0, (t + 1) as nat);
    } else {
        assert(later =~= Seq::empty());
    }
}

/// A blend of weight one is the outcome, and one of weight nothing the value; an outcome that agrees
/// with the value changes nothing; and what the blend is off the value is so much of what the outcome
/// is off it.
pub proof fn law_blends_lie_between<N: Scalar>(weight: N, value: N, outcome: N)
    requires
        ring::<N>(),
    ensures
        spec_blend(N::spec_one(), value, outcome) == outcome,
        spec_blend(N::spec_zero(), value, outcome) == value,
        spec_blend(weight, value, value) == value,
        spec_blend(weight, value, outcome) == value.spec_plus(
            weight.spec_times(outcome.spec_minus(value)),
        ),
{
    let one = N::spec_one();
    let zero = N::spec_zero();
    let c = one.spec_minus(weight);
    law_ring(one, one, one);
    law_ring(one, zero, zero);
    law_ring(zero, zero, zero);
    law_ring(value, value, value);
    law_ring(outcome, outcome, outcome);
    law_ring(value, outcome, outcome);
    law_ring(one, weight, weight);
    law_ring(value, c, weight);
    let d = outcome.spec_minus(value);
    law_ring(outcome, value, value);
    assert(outcome == d.spec_plus(value));
    law_ring(weight, d, value);
    law_ring(c.spec_times(value), weight.spec_times(d), weight.spec_times(value));
    law_ring(weight.spec_times(d), weight.spec_times(value), value);
    law_ring(c.spec_times(value), weight.spec_times(value), weight.spec_times(d));
    law_ring(value, weight.spec_times(d), value);
    law_ring(one, zero.spec_negated(), zero);
    law_ring(zero, zero.spec_negated(), zero);
    law_ring(one.spec_minus(zero), zero, zero);
}

/// Where outcomes are blended in, the target of the executed action moves toward what the rest of the
/// trajectory pays, and no other target moves: of weight one it is that return.
pub proof fn law_targets_move_toward_the_return<N: Scalar>(
    trajectory: Seq<PlayedShown<N>>,
    gamma: N,
    weight: N,
    tail: Seq<N>,
    t: int,
    h: int,
)
    requires
        ring::<N>(),
        forall|t: int, h: int|
            0 <= t < trajectory.len() && 0 <= h < trajectory[t].0.len() ==> trajectory[t].1
                < #[trigger] trajectory[t].0[h].len() && h < tail.len(),
        0 <= t < trajectory.len(),
        0 <= h < trajectory[t].0.len(),
    ensures
        blended(trajectory, gamma, weight, tail) matches Ok(out) && {
            let was = trajectory[t].0[h];
            let a = trajectory[t].1 as int;
            let pays = outlook(
                Seq::new((trajectory.len() - t) as nat, |i: int| trajectory[t + i].2),
                gamma,
                tail[h],
            );
            &&& out.len() == trajectory.len()
            &&& out[t].len() == trajectory[t].0.len()
            &&& !N::spec_zero().spec_less(weight) ==> out[t][h] == was
            &&& N::spec_zero().spec_less(weight) ==> out[t][h] == was.update(
                a,
                was[a].spec_plus(weight.spec_times(pays.spec_minus(was[a]))),
            )
        },
{
    law_blend(trajectory, gamma, weight, tail);
    let out = blended(trajectory, gamma, weight, tail)->Ok_0;
    let was = trajectory[t].0[h];
    assert(trajectory[t].1 < trajectory[t].0[h].len());
    lemma_returns(trajectory, gamma, tail, t as nat, h);
    let z = returns_from(trajectory, gamma, tail, t as nat);
    law_blends_lie_between(weight, was[trajectory[t].1 as int], z[h]);
    assert(out[t] == out[t + 0]);
}

proof fn lemma_returns<N: Scalar>(
    trajectory: Seq<PlayedShown<N>>,
    gamma: N,
    tail: Seq<N>,
    t: nat,
    h: int,
)
    requires
        ring::<N>(),
        t <= trajectory.len(),
        0 <= h < tail.len(),
    ensures
        returns_from(trajectory, gamma, tail, t).len() == tail.len(),
        returns_from(trajectory, gamma, tail, t)[h] == outlook(
            Seq::new((trajectory.len() - t) as nat, |i: int| trajectory[t + i].2),
            gamma,
            tail[h],
        ),
    decreases trajectory.len() - t,
{
    let rewards = Seq::new((trajectory.len() - t) as nat, |i: int| trajectory[t + i].2);
    if t < trajectory.len() {
        lemma_returns(trajectory, gamma, tail, t + 1, h);
        let later = Seq::new((trajectory.len() - (t + 1)) as nat, |i: int| trajectory[t + 1 + i].2);
        assert(rewards =~= seq![trajectory[t as int].2] + later);
        law_outlook(trajectory[t as int].2, later, gamma, tail[h]);
    } else {
        assert(rewards =~= Seq::empty());
        law_outlook(tail[h], rewards, gamma, tail[h]);
    }
}

proof fn lemma_rows<N: Scalar>(rows: Seq<Seq<N>>, perm: Seq<usize>, h: nat, acc: Seq<Seq<N>>, i: int)
    requires
        h == acc.len() <= rows.len(),
        0 <= i < rows.len(),
        i < h ==> in_head_frame(rows[i], perm) == Ok::<_, Fault>(acc[i]),
    ensures
        rows_in_head_frame(rows, perm, h, acc) matches Ok(out) ==> out.len() == rows.len()
            && in_head_frame(rows[i], perm) == Ok::<_, Fault>(out[i]),
    decreases rows.len() - h,
{
    if h < rows.len() {
        if let Ok(row) = in_head_frame(rows[h as int], perm) {
            lemma_rows(rows, perm, h + 1, acc.push(row), i);
        }
    }
}

proof fn lemma_strapped<F, N: Scalar>(
    items: Seq<(Seq<F>, Seq<Seq<N>>)>,
    heads: nat,
    p: N,
    perm: Seq<usize>,
    agent: usize,
    i: nat,
    acc: Seq<StrapShown<F, N>>,
    rng: SplitMix64,
    j: int,
)
    requires
        i == acc.len() <= items.len(),
        0 <= j < items.len(),
        j < i ==> straps(items[j], perm, heads, agent, acc[j]),
    ensures
        strapped(items, heads, p, perm, agent, i, acc, rng).0 matches Ok(out) ==> out.len()
            == items.len() && straps(items[j], perm, heads, agent, out[j]),
    decreases items.len() - i,
{
    if i < items.len() {
        let (mask, next) = spec_sample_mask(rng, heads, p);
        law_marks(rng, heads, p);
        let (obs, values) = items[i as int];
        if let Ok(v) = values_in_head_frame(values, perm) {
            let one = (obs, v, mask, agent);
            if i == j {
                assert(straps(items[j], perm, heads, agent, one));
            }
            lemma_strapped(items, heads, p, perm, agent, i + 1, acc.push(one), next, j);
        }
    }
}

/// A record of an observation and its values: the same observation, the values in the network's
/// frame, a mark for each head and the agent.
pub open spec fn straps<F, N: Scalar>(
    item: (Seq<F>, Seq<Seq<N>>),
    perm: Seq<usize>,
    heads: nat,
    agent: usize,
    record: StrapShown<F, N>,
) -> bool {
    &&& record.0 == item.0
    &&& values_in_head_frame(item.1, perm) == Ok::<_, Fault>(record.1)
    &&& record.2.len() == heads
    &&& forall|h: int|
        0 <= h < heads ==> #[trigger] record.2[h] == N::spec_one() || record.2[h] == N::spec_zero()
    &&& record.3 == agent
}

/// Every observation has one record, in order, and each action's value stands at that action's head.
pub proof fn law_values_go_to_their_heads<F, N: Scalar>(
    items: Seq<(Seq<F>, Seq<Seq<N>>)>,
    heads: nat,
    p: N,
    perm: Seq<usize>,
    agent: usize,
    rng: SplitMix64,
    j: int,
    h: int,
    a: int,
)
    requires
        0 <= j < items.len(),
        0 <= h < items[j].1.len(),
        0 <= a < items[j].1[h].len(),
        permutes(perm, items[j].1[h].len()),
    ensures
        strapped(items, heads, p, perm, agent, 0, Seq::empty(), rng).0 matches Ok(out) ==> {
            &&& out.len() == items.len()
            &&& out[j].0 == items[j].0
            &&& out[j].1.len() == items[j].1.len()
            &&& out[j].1[h].len() == items[j].1[h].len()
            &&& out[j].1[h][perm[a] as int] == items[j].1[h][a]
            &&& out[j].2.len() == heads
            &&& out[j].3 == agent
        },
{
    lemma_strapped(items, heads, p, perm, agent, 0, Seq::empty(), rng, j);
    lemma_rows(items[j].1, perm, 0, Seq::empty(), h);
    law_head_frame(items[j].1[h], perm);
}

/// Every decision has one record, in order, with what was seen and who decided. At each action's head
/// stands what the search said of it; where outcomes are blended in, the executed action's moves from
/// there toward what the rest of the trajectory pays, by the outcome's weight.
pub proof fn law_treestrap_records_tell_values<F: Copy, N: Scalar, V: ActionView>(
    learner: TreeStrap<N>,
    steps: Seq<StepModel<F, N, EvaluationModel<N>>>,
    tail: Seq<N>,
    view: V,
    agent: usize,
    rng: SplitMix64,
    t: int,
    h: int,
    a: int,
)
    requires
        ring::<N>(),
        0 <= t < steps.len(),
        0 <= h < steps[t].evaluation.values.len(),
        0 <= a < steps[t].evaluation.values[h].len() <= usize::MAX,
        forall|i: int|
            0 <= i < steps.len() ==> (#[trigger] steps[i]).evaluation.values.len()
                == steps[0].evaluation.values.len(),
        forall|i: int, g: int|
            0 <= i < steps.len() && 0 <= g < steps[i].evaluation.values.len() ==> (
            #[trigger] steps[i].evaluation.values[g]).len() == steps[t].evaluation.values[h].len()
                && steps[i].action < steps[i].evaluation.values[g].len(),
        tail.len() == 0 || tail.len() == steps[0].evaluation.values.len(),
        permutes(
            spec_head_permutation(view, steps[t].evaluation.values[h].len() as usize, agent),
            steps[t].evaluation.values[h].len(),
        ),
    ensures
        <TreeStrap<N> as Learner<N, F, SearchEvaluation<N>, V>>::spec_episode_records(
            &learner,
            steps,
            tail,
            view,
            agent,
            rng,
        ).0 matches Ok(out) ==> {
            let was = steps[t].evaluation.values[h][a];
            let pays = outlook(
                rewards_from(steps, t as nat),
                learner.gamma,
                if tail.len() == 0 {
                    N::spec_zero()
                } else {
                    tail[h]
                },
            );
            let is = out[t].1[h][view.spec_head_index(a as usize, agent) as int];
            &&& out.len() == steps.len()
            &&& out[t].0 == steps[t].obs
            &&& out[t].3 == agent
            &&& out[t].2.len() == steps[t].evaluation.values.len()
            &&& N::spec_zero().spec_less(learner.outcome_weight) && a == steps[t].action ==> is
                == was.spec_plus(learner.outcome_weight.spec_times(pays.spec_minus(was)))
            &&& !N::spec_zero().spec_less(learner.outcome_weight) || a != steps[t].action ==> is
                == was
        },
{
    let made = <TreeStrap<N> as Learner<N, F, SearchEvaluation<N>, V>>::spec_episode_records(
        &learner,
        steps,
        tail,
        view,
        agent,
        rng,
    ).0;
    if let Ok(out) = made {
        let k = steps[0].evaluation.values.len();
        let n = steps[t].evaluation.values[h].len();
        assert(steps[t].evaluation.values.len() == k);
        assert(steps[0].evaluation.values[0].len() == n);
        let moves = moves_of(steps);
        let ends = crate::learners::treestrap::tail_or_zeros(tail, k);
        assert forall|i: int, g: int|
            0 <= i < moves.len() && 0 <= g < moves[i].0.len() implies moves[i].1
            < #[trigger] moves[i].0[g].len() && g < ends.len() by {
            assert(moves[i].0[g] == steps[i].evaluation.values[g]);
            assert(steps[i].evaluation.values.len() == k);
        }
        law_targets_move_toward_the_return(
            moves,
            learner.gamma,
            learner.outcome_weight,
            ends,
            t,
            h,
        );
        assert(Seq::new((moves.len() - t) as nat, |i: int| moves[t + i].2) =~= rewards_from(
            steps,
            t as nat,
        ));
        let values = blended(
            moves,
            learner.gamma,
            learner.outcome_weight,
            ends,
        )->Ok_0;
        let items = beside(steps, values);
        let perm = spec_head_permutation(view, n as usize, agent);
        assert(items[t].1[h].len() == n);
        law_values_go_to_their_heads(
            items,
            k,
            learner.bootstrap_p,
            perm,
            agent,
            rng,
            t,
            h,
            a,
        );
        assert(perm[a] == view.spec_head_index(a as usize, agent));
    }
}

/// Every interior target has one record at once, in order, with what was seen there and who searched,
/// each action's value at that action's head.
pub proof fn law_interior_records_tell_values<F: Copy, N: Scalar, V: ActionView>(
    learner: TreeStrap<N>,
    evaluation: EvaluationModel<N>,
    interior: Seq<(Seq<F>, Seq<Seq<N>>)>,
    view: V,
    agent: usize,
    rng: SplitMix64,
    j: int,
    h: int,
    a: int,
)
    requires
        0 <= j < interior.len(),
        0 <= h < interior[j].1.len(),
        0 <= a < interior[j].1[h].len() <= usize::MAX,
        interior[0].1.len() > 0,
        interior[0].1[0].len() == interior[j].1[h].len(),
        permutes(
            spec_head_permutation(view, interior[j].1[h].len() as usize, agent),
            interior[j].1[h].len(),
        ),
    ensures
        <TreeStrap<N> as Learner<N, F, SearchEvaluation<N>, V>>::spec_eval_records(
            &learner,
            evaluation,
            interior,
            view,
            agent,
            rng,
        ).0 matches Ok(out) ==> {
            &&& out.len() == interior.len()
            &&& out[j].0 == interior[j].0
            &&& out[j].1[h][view.spec_head_index(a as usize, agent) as int]
                == interior[j].1[h][a]
            &&& out[j].2.len() == evaluation.values.len()
            &&& out[j].3 == agent
        },
{
    let perm = spec_head_permutation(view, interior[j].1[h].len() as usize, agent);
    law_values_go_to_their_heads(
        interior,
        evaluation.values.len(),
        learner.bootstrap_p,
        perm,
        agent,
        rng,
        j,
        h,
        a,
    );
    assert(perm[a] == view.spec_head_index(a as usize, agent));
}

/// Rows of logits and a value bootstrap from the value that an evaluation of the same row has.
pub proof fn law_tails_are_the_rows_value<N: Scalar, K: Exp<N> + Ln<N>>(
    maths: K,
    heads: Seq<usize>,
    a: usize,
    row: Seq<N>,
    legal: Seq<usize>,
    told: PpoModel<N>,
)
    requires
        ppo_framed(maths, heads, a, row, legal, told),
    ensures
        value_slot(row, a) matches Ok(tail) && tail.len() == 1 && tail[0] == told.value,
{
}

/// A mask has one mark for each head: one or nothing.
pub proof fn law_marks<N: Scalar>(rng: SplitMix64, n: nat, p: N)
    ensures
        spec_sample_mask(rng, n, p).0.len() == n,
        forall|h: int|
            0 <= h < n ==> #[trigger] spec_sample_mask(rng, n, p).0[h] == N::spec_one()
                || spec_sample_mask(rng, n, p).0[h] == N::spec_zero(),
    decreases n,
{
    if n > 0 {
        law_marks(rng, (n - 1) as nat, p);
    }
}

/// A larger chance unmarks no head, and draws as many numbers.
pub proof fn law_larger_chances_mark_more<N: Scalar>(rng: SplitMix64, n: nat, p: N, q: N)
    requires
        weakly_ordered::<N>(),
        p.spec_is_number(),
        q.spec_is_number(),
        !q.spec_less(p),
        forall|r: SplitMix64| (#[trigger] <SplitMix64 as Rng<N>>::spec_unit(r)).0.spec_is_number(),
    ensures
        spec_sample_mask(rng, n, p).1 == spec_sample_mask(rng, n, q).1,
        forall|h: int|
            0 <= h < n && #[trigger] spec_sample_mask(rng, n, p).0[h] == N::spec_one()
                && N::spec_one() != N::spec_zero() ==> spec_sample_mask(rng, n, q).0[h]
                == N::spec_one(),
    decreases n,
{
    if n > 0 {
        law_larger_chances_mark_more(rng, (n - 1) as nat, p, q);
        law_marks(rng, (n - 1) as nat, p);
        law_marks(rng, (n - 1) as nat, q);
        let current = spec_sample_mask(rng, (n - 1) as nat, p).1;
        let u = <SplitMix64 as Rng<N>>::spec_unit(current).0;
        assert(u.spec_is_number());
        assert(u.spec_less(p) ==> u.spec_less(q)) by {
            if u.spec_less(p) && !u.spec_less(q) {
                assert(!q.spec_less(p));
                assert(!u.spec_less(p));
            }
        }
        let a = spec_sample_mask(rng, n, p).0;
        let b = spec_sample_mask(rng, n, q).0;
        let a0 = spec_sample_mask(rng, (n - 1) as nat, p).0;
        let b0 = spec_sample_mask(rng, (n - 1) as nat, q).0;
        assert forall|h: int|
            0 <= h < n && #[trigger] a[h] == N::spec_one() && N::spec_one()
                != N::spec_zero() implies b[h] == N::spec_one() by {
            if h < n - 1 {
                assert(a[h] == a0[h]);
                assert(b[h] == b0[h]);
            }
        }
    }
}

/// The bootstrap of a head is its best entry among the legal actions' heads: one of them, with none
/// above it.
pub proof fn law_bootstraps_are_best_entries<N: Scalar, V: ActionView>(
    row: Seq<N>,
    action_count: usize,
    legal: Seq<usize>,
    view: V,
    agent: usize,
    h: int,
) -> (best: int)
    requires
        picks::<N>(),
        action_count > 0,
        0 <= h < row.len() / (action_count as nat),
        legal.len() > 0,
        forall|i: int|
            0 <= i < legal.len() ==> row[h * action_count + view.spec_head_index(
                #[trigger] legal[i],
                agent,
            )].spec_is_number(),
    ensures
        0 <= best < legal.len(),
        head_maxima(row, action_count, legal, view, agent) matches Ok(out) ==> {
            &&& out.len() == row.len() / (action_count as nat)
            &&& out[h] == row[h * action_count + view.spec_head_index(legal[best], agent)]
            &&& forall|i: int|
                0 <= i < legal.len() ==> !out[h].spec_less(
                    row[h * action_count + view.spec_head_index(#[trigger] legal[i], agent)],
                )
        },
{
    let heads = heads_of(view, legal, agent);
    let entries = gathered(row, action_count as nat, h as nat, heads);
    assert forall|i: int| 0 <= i < entries.len() implies (
    #[trigger] entries[i]).spec_is_number() by {
        assert(row[h * action_count + view.spec_head_index(legal[i], agent)].spec_is_number());
    }
    law_largest(entries);
    let best = choose|i: int|
        0 <= i < entries.len() && #[trigger] entries[i] == crate::num::spec_largest(entries);
    assert forall|i: int| 0 <= i < legal.len() implies !entries[best].spec_less(
        row[h * action_count + view.spec_head_index(#[trigger] legal[i], agent)],
    ) by {
        assert(entries[i] == row[h * action_count + view.spec_head_index(legal[i], agent)]);
    }
    best
}

} // verus!
