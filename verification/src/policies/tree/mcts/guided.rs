//! What guides a search and what it tells: scores, priors, joint choices, expectations over chance,
//! and means.

use vstd::prelude::*;

#[allow(unused_imports)]
use super::act::{peak, weight_picked, weight_taken};
#[allow(unused_imports)]
use super::backup::{
    any_reward, fan_actor, fan_backed_up, fan_kid, fan_mix, fan_weights, kid_values, mixed_in,
    no_values, spec_backup,
};
#[allow(unused_imports)]
use super::fan::merged;
#[allow(unused_imports)]
use super::grow::link_move;
#[allow(unused_imports)]
use super::read::{best_mean, logit_exponents, noised, shares};
#[allow(unused_imports)]
use super::search::{asked_table, evaluated_as, tallied};
#[allow(unused_imports)]
use super::select::{arm_score, at_least_one, chosen_arm, joint_choice, log_at, Guidance};
#[allow(unused_imports)]
use super::tree::{Arm, NodeModel, TableModel, TreeMode, TreeModel};
#[allow(unused_imports)]
use super::worth::joint_number;
#[allow(unused_imports)]
use crate::fault::Fault;
#[allow(unused_imports)]
use crate::means::{law_splits, law_sum_of_pairs, law_sum_over, splits};
#[allow(unused_imports)]
use crate::num::{
    law_largest, law_ring, law_ring_signs, law_sum, law_sum_scales, picks, ring, spec_largest,
    spec_sum, Scalar,
};
#[allow(unused_imports)]
use crate::policies::tree::expectimax::evaluate::{column_mean, comover_values};
#[allow(unused_imports)]
use crate::policy::spec_argmax;
#[allow(unused_imports)]
use crate::util::spec_filled;

verus! {

/// By upper confidence an arm that was never taken comes first. Another scores its mean and, so many
/// times, the root of the logarithm over its visits: without exploration its mean alone.
pub proof fn law_confidence_bounds<N: Scalar>(arm: Arm<N>, total: u32, c: N, ln: N)
    requires
        ring::<N>(),
        arm.visits > 0 ==> splits(N::spec_count(arm.visits as u64)),
    ensures
        ({
            let score = arm_score(arm, total, Guidance::Uct { c }, ln);
            let n = N::spec_count(arm.visits as u64);
            &&& arm.visits == 0 ==> score == N::spec_highest()
            &&& arm.visits > 0 ==> score.spec_minus(c.spec_times(ln.spec_over(n).spec_root())).spec_times(
                n,
            ) == arm.value_sum
            &&& arm.visits > 0 && c == N::spec_zero() ==> score.spec_times(n) == arm.value_sum
        }),
{
    let n = N::spec_count(arm.visits as u64);
    if arm.visits > 0 {
        let mean = arm.value_sum.spec_over(n);
        let bonus = c.spec_times(ln.spec_over(n).spec_root());
        law_ring(mean, bonus, bonus);
        law_splits(n, arm.value_sum, arm.value_sum);
        law_ring(ln.spec_over(n).spec_root(), c, c);
        law_ring(mean, N::spec_zero(), N::spec_zero());
    }
}

/// By prior an arm scores its mean, nothing where it was never taken, and a share of what its prior is
/// worth at the root of all visits: with one more visit than it has, that share makes up the whole.
pub proof fn law_prior_bounds<N: Scalar>(
    arm: Arm<N>,
    total: u32,
    c: N,
    noise: Option<(N, N, u64)>,
    noise_all: bool,
    ln: N,
)
    requires
        ring::<N>(),
        splits(N::spec_one().spec_plus(N::spec_count(arm.visits as u64))),
    ensures
        ({
            let score = arm_score(arm, total, Guidance::Puct { c, noise, noise_all }, ln);
            let n = N::spec_count(arm.visits as u64);
            let mean = if arm.visits > 0 {
                arm.value_sum.spec_over(n)
            } else {
                N::spec_zero()
            };
            let all = N::spec_count(
                if total == 0 {
                    1
                } else {
                    total as u64
                },
            ).spec_root();
            &&& score.spec_minus(mean).spec_times(N::spec_one().spec_plus(n))
                == c.spec_times(arm.prior.spec_times(all))
            &&& arm.prior == N::spec_zero() ==> score == mean
        }),
{
    let n = N::spec_count(arm.visits as u64);
    let zero = N::spec_zero();
    let mean = if arm.visits > 0 {
        arm.value_sum.spec_over(n)
    } else {
        zero
    };
    let root = N::spec_count(at_least_one(total) as u64).spec_root();
    let d = N::spec_one().spec_plus(n);
    let x = c.spec_times(arm.prior).spec_times(root);
    let share = x.spec_over(d);
    law_ring(mean, share, share);
    law_ring(share, mean, mean);
    law_splits(d, x, x);
    law_ring(c, arm.prior, root);
    law_ring(c, zero, zero);
    law_ring(root, zero, zero);
    law_ring(mean, zero, zero);
}

/// Priors are a distribution over the legal actions in proportion to the exponentials.
pub proof fn law_priors_add_up<N: Scalar>(z: Seq<N>)
    requires
        ring::<N>(),
        splits(spec_sum(z)),
    ensures
        shares(z).len() == z.len(),
        spec_sum(shares(z)) == N::spec_one(),
        forall|i: int|
            0 <= i < z.len() ==> (#[trigger] shares(z)[i]).spec_times(spec_sum(z)) == z[i],
{
    let s = spec_sum(z);
    law_sum_over(z, s);
    assert(shares(z) =~= z.map_values(|x: N| x.spec_over(s)));
    law_splits(s, s, s);
    assert forall|i: int| 0 <= i < z.len() implies (#[trigger] shares(z)[i]).spec_times(s)
        == z[i] by {
        law_splits(s, z[i], z[i]);
    }
}

/// What is handed to the exponential keeps the differences of the logits; the largest one's is
/// nothing.
pub proof fn law_logits_keep_differences<N: Scalar>(logits: Seq<N>, i: int, j: int)
    requires
        ring::<N>(),
        0 <= i < logits.len(),
        0 <= j < logits.len(),
    ensures
        logit_exponents(logits).len() == logits.len(),
        logit_exponents(logits)[i].spec_minus(logit_exponents(logits)[j]) == logits[i].spec_minus(
            logits[j],
        ),
        logits[i] == spec_largest(logits) ==> logit_exponents(logits)[i] == N::spec_zero(),
{
    let m = spec_largest(logits);
    let a = logits[i].spec_minus(m);
    let b = logits[j].spec_minus(m);
    let d = logits[i].spec_minus(logits[j]);
    law_ring(logits[i], logits[j], logits[j]);
    law_ring(d, logits[j], m.spec_negated());
    law_ring(logits[i], m, m);
    law_ring(logits[j], m, m);
    assert(a == d.spec_plus(b));
    law_ring(d, b, b);
}

/// Noise mixed into a prior leaves a distribution; noise of weight one replaces the prior, and of no
/// weight leaves it; each entry is off the prior by that weight of what the noise is off it.
pub proof fn law_noise_keeps_the_mass<N: Scalar>(prior: Seq<N>, eps: N, draw: Seq<N>)
    requires
        ring::<N>(),
        prior.len() == draw.len(),
        spec_sum(prior) == N::spec_one(),
        spec_sum(draw) == N::spec_one(),
    ensures
        noised(prior, eps, draw).len() == prior.len(),
        spec_sum(noised(prior, eps, draw)) == N::spec_one(),
        noised(prior, N::spec_one(), draw) == draw,
        noised(prior, N::spec_zero(), draw) == prior,
        forall|i: int|
            0 <= i < prior.len() ==> #[trigger] noised(prior, eps, draw)[i] == prior[i].spec_plus(
                eps.spec_times(draw[i].spec_minus(prior[i])),
            ),
{
    let one = N::spec_one();
    let zero = N::spec_zero();
    let c = one.spec_minus(eps);
    let xs = prior.map_values(|x: N| x.spec_times(c));
    let ys = draw.map_values(|x: N| x.spec_times(eps));
    let zs = noised(prior, eps, draw);
    assert forall|i: int| 0 <= i < zs.len() implies #[trigger] zs[i] == xs[i].spec_plus(ys[i]) by {
        law_ring(c, prior[i], prior[i]);
        law_ring(eps, draw[i], draw[i]);
    }
    law_sum_of_pairs(xs, ys, zs);
    law_sum_scales(prior, c);
    law_sum_scales(draw, eps);
    law_ring(c, one, one);
    law_ring(eps, one, one);
    law_ring(one, eps, eps);
    law_ring(one, one, one);
    law_ring(one, zero, zero);
    law_ring(one.spec_minus(zero), zero, zero);
    assert forall|i: int| 0 <= i < prior.len() implies #[trigger] noised(prior, one, draw)[i]
        == draw[i] by {
        crate::learners::strapped::law_blends_lie_between(one, prior[i], draw[i]);
    }
    assert(noised(prior, one, draw) =~= draw);
    assert forall|i: int| 0 <= i < prior.len() implies #[trigger] noised(prior, zero, draw)[i]
        == prior[i] by {
        crate::learners::strapped::law_blends_lie_between(zero, prior[i], draw[i]);
    }
    assert(noised(prior, zero, draw) =~= prior);
    assert forall|i: int| 0 <= i < prior.len() implies #[trigger] noised(prior, eps, draw)[i]
        == prior[i].spec_plus(eps.spec_times(draw[i].spec_minus(prior[i]))) by {
        crate::learners::strapped::law_blends_lie_between(eps, prior[i], draw[i]);
    }
}

/// By action values a leaf is worth the mean over the heads of its best action: of one of them, with
/// none above it.
pub proof fn law_leaves_are_worth_their_best_mean<N: Scalar>(
    row: Seq<N>,
    k: nat,
    a: nat,
    heads: Seq<usize>,
) -> (best: int)
    requires
        picks::<N>(),
        heads.len() > 0,
        forall|i: int|
            0 <= i < heads.len() ==> column_mean(
                row,
                k,
                a,
                (#[trigger] heads[i]) as nat,
            ).spec_is_number(),
    ensures
        0 <= best < heads.len(),
        best_mean(row, k, a, heads) == column_mean(row, k, a, heads[best] as nat),
        forall|i: int|
            0 <= i < heads.len() ==> !best_mean(row, k, a, heads).spec_less(
                column_mean(row, k, a, (#[trigger] heads[i]) as nat),
            ),
{
    let means = comover_values(row, k, a, heads);
    assert forall|i: int| 0 <= i < means.len() implies (#[trigger] means[i]).spec_is_number() by {
        assert(means[i] == column_mean(row, k, a, heads[i] as nat));
    }
    law_largest(means);
    let best = choose|i: int| 0 <= i < means.len() && #[trigger] means[i] == spec_largest(means);
    assert forall|i: int| 0 <= i < heads.len() implies !best_mean(row, k, a, heads).spec_less(
        column_mean(row, k, a, (#[trigger] heads[i]) as nat),
    ) by {
        assert(means[i] == column_mean(row, k, a, heads[i] as nat));
    }
    best
}

/// The rewards of two edges in a row add up, agent by agent; an edge without rewards adds nothing.
pub proof fn law_rewards_in_a_row_add_up<N: Scalar>(a: Seq<N>, b: Seq<N>, n: nat, i: int)
    requires
        ring::<N>(),
        0 <= i < n,
        a.len() == 0 || a.len() == n,
        b.len() == 0 || b.len() == n,
        a.len() > 0 || b.len() > 0,
    ensures
        merged(a, b, n).len() == n,
        merged(a, b, n)[i] == (if a.len() > 0 {
            a[i]
        } else {
            N::spec_zero()
        }).spec_plus(
            if b.len() > 0 {
                b[i]
            } else {
                N::spec_zero()
            },
        ),
{
    if a.len() > 0 {
        law_ring(a[i], N::spec_zero(), N::spec_zero());
    }
}

/// The choices of the tables, each the arm that it takes.
pub open spec fn tables_choose<N: Scalar>(
    tables: Seq<TableModel<N>>,
    guidance: Guidance<N>,
    logs: Seq<N>,
) -> Seq<nat> {
    tables.map_values(
        |t: TableModel<N>| chosen_arm(t, guidance, log_at(guidance, logs, t.total_visits)->Ok_0),
    )
}

proof fn lemma_choice<N: Scalar>(
    tables: Seq<TableModel<N>>,
    guidance: Guidance<N>,
    logs: Seq<N>,
    i: nat,
    acc: nat,
)
    requires
        i <= tables.len(),
        acc == joint_number(tables, tables_choose(tables, guidance, logs), i),
    ensures
        joint_choice(tables, guidance, logs, i, acc) matches Ok(link) ==> link == joint_number(
            tables,
            tables_choose(tables, guidance, logs),
            tables.len(),
        ),
    decreases tables.len() - i,
{
    if i < tables.len() {
        let t = tables[i as int];
        if let Ok(ln) = log_at(guidance, logs, t.total_visits) {
            let next = acc * t.arms.len() + chosen_arm(t, guidance, ln);
            assert(tables_choose(tables, guidance, logs)[i as int] == chosen_arm(t, guidance, ln));
            if next <= crate::policy::MAX_JOINT_SLOTS {
                lemma_choice(tables, guidance, logs, i + 1, next);
            }
        }
    }
}

proof fn lemma_move<N>(
    tables: Seq<TableModel<N>>,
    chosen: Seq<nat>,
    i: nat,
    joint: Seq<usize>,
    j: int,
)
    requires
        i <= tables.len() == chosen.len(),
        forall|t: int| 0 <= t < tables.len() ==> #[trigger] chosen[t] < tables[t].arms.len(),
        forall|s: int, t: int|
            0 <= s < t < tables.len() ==> (#[trigger] tables[s]).agent != (
            #[trigger] tables[t]).agent,
        0 <= j < tables.len(),
        j >= i ==> tables[j].agent < joint.len() && joint[tables[j].agent as int]
            == tables[j].arms[chosen[j] as int].action,
    ensures
        link_move(tables, i, joint_number(tables, chosen, i), joint) matches Ok(out) ==> out.len()
            == joint.len() && tables[j].agent < out.len() && out[tables[j].agent as int]
            == tables[j].arms[chosen[j] as int].action,
    decreases i,
{
    if i > 0 {
        let k = i - 1;
        let t = tables[k];
        let rem = joint_number(tables, chosen, i);
        let before = joint_number(tables, chosen, k as nat);
        let l = t.arms.len();
        let c = chosen[k];
        assert(rem % l == c && rem / l == before) by (nonlinear_arith)
            requires
                rem == before * l + c,
                0 <= c < l,
        ;
        if t.agent < joint.len() {
            let next = joint.update(t.agent as int, t.arms[c as int].action);
            if j > k {
                assert(tables[k].agent != tables[j].agent);
            }
            lemma_move(tables, chosen, k as nat, next, j);
        }
    }
}

/// The move that a choice of the tables stands for is each agent's own choice: the action of the arm
/// that its table takes.
pub proof fn law_everyone_plays_what_their_table_takes<N: Scalar>(
    tables: Seq<TableModel<N>>,
    guidance: Guidance<N>,
    logs: Seq<N>,
    joint: Seq<usize>,
    j: int,
)
    requires
        forall|t: int|
            0 <= t < tables.len() ==> #[trigger] tables_choose(tables, guidance, logs)[t]
                < tables[t].arms.len(),
        forall|s: int, t: int|
            0 <= s < t < tables.len() ==> (#[trigger] tables[s]).agent != (
            #[trigger] tables[t]).agent,
        0 <= j < tables.len(),
    ensures
        joint_choice(tables, guidance, logs, 0, 0) matches Ok(link) ==> (link_move(
            tables,
            tables.len(),
            link,
            joint,
        ) matches Ok(out) ==> out.len() == joint.len() && tables[j].agent < out.len()
            && out[tables[j].agent as int] == tables[j].arms[tables_choose(
            tables,
            guidance,
            logs,
        )[j] as int].action),
{
    lemma_choice(tables, guidance, logs, 0, 0);
    lemma_move(tables, tables_choose(tables, guidance, logs), tables.len(), joint, j);
}

/// What outcome `i` of a fan comes to for agent `h`: in a two-agent tree its mover's value, turned
/// where the fan is seen by the other; nothing where the game ends there.
pub open spec fn outcome_value<S, F, N: Scalar>(
    kid: NodeModel<S, F, N>,
    mode: TreeMode,
    view: usize,
    h: int,
) -> N {
    if mode == TreeMode::SeqNegamax {
        if kid.terminal {
            N::spec_zero()
        } else if kid.actor == view {
            kid.values[0]
        } else {
            kid.values[0].spec_negated()
        }
    } else if h < kid.values.len() {
        kid.values[h]
    } else {
        N::spec_zero()
    }
}

proof fn lemma_mix<S, F, N: Scalar>(
    m: TreeModel<S, F, N>,
    cni: int,
    probs: Seq<N>,
    view: usize,
    i: nat,
    mix: Seq<N>,
    rewards: Seq<N>,
    h: int,
    n: nat,
)
    requires
        i <= probs.len(),
        n == if m.mode == TreeMode::SeqNegamax {
            1
        } else {
            m.n_agents as int
        },
        mix.len() == n,
        0 <= h < n,
        mix[h] == spec_sum(
            Seq::new(
                i,
                |j: int|
                    probs[j].spec_times(
                        outcome_value(fan_kid(m, cni, j as nat)->Ok_0, m.mode, view, h),
                    ),
            ),
        ),
    ensures
        fan_mix(m, cni, probs, view, i, mix, rewards) matches Ok((out, _)) ==> out.len() == n
            && out[h] == spec_sum(
            Seq::new(
                probs.len(),
                |j: int|
                    probs[j].spec_times(
                        outcome_value(fan_kid(m, cni, j as nat)->Ok_0, m.mode, view, h),
                    ),
            ),
        ),
    decreases probs.len() - i,
{
    let term = |j: int|
        probs[j].spec_times(outcome_value(fan_kid(m, cni, j as nat)->Ok_0, m.mode, view, h));
    if i < probs.len() {
        if let Ok(kid) = fan_kid(m, cni, i) {
            if let Ok(vals) = kid_values(kid, m.mode, view, m.n_agents as nat) {
                let so_far = Seq::new(i, term);
                law_sum(so_far, term(i as int));
                assert(so_far.push(term(i as int)) =~= Seq::new(i + 1, term));
                lemma_mix(
                    m,
                    cni,
                    probs,
                    view,
                    i + 1,
                    mixed_in(mix, probs[i as int], vals),
                    mixed_in(rewards, probs[i as int], kid.chance_in),
                    h,
                    n,
                );
            }
        }
    }
}

proof fn lemma_mixed_rewards<S, F, N: Scalar>(
    m: TreeModel<S, F, N>,
    cni: int,
    probs: Seq<N>,
    view: usize,
    i: nat,
    mix: Seq<N>,
    rewards: Seq<N>,
    h: int,
)
    requires
        ring::<N>(),
        i <= probs.len(),
        rewards.len() == m.n_agents,
        0 <= h < m.n_agents,
        rewards[h] == spec_sum(
            Seq::new(
                i,
                |j: int|
                    probs[j].spec_times(chance_pay(fan_kid(m, cni, j as nat)->Ok_0, h)),
            ),
        ),
    ensures
        fan_mix(m, cni, probs, view, i, mix, rewards) matches Ok((_, out)) ==> out.len()
            == m.n_agents && out[h] == spec_sum(
            Seq::new(
                probs.len(),
                |j: int|
                    probs[j].spec_times(chance_pay(fan_kid(m, cni, j as nat)->Ok_0, h)),
            ),
        ),
    decreases probs.len() - i,
{
    let term = |j: int| probs[j].spec_times(chance_pay(fan_kid(m, cni, j as nat)->Ok_0, h));
    if i < probs.len() {
        if let Ok(kid) = fan_kid(m, cni, i) {
            if let Ok(vals) = kid_values(kid, m.mode, view, m.n_agents as nat) {
                let so_far = Seq::new(i, term);
                law_sum(so_far, term(i as int));
                assert(so_far.push(term(i as int)) =~= Seq::new(i + 1, term));
                law_ring(probs[i as int], N::spec_zero(), N::spec_zero());
                law_ring(rewards[h], N::spec_zero(), N::spec_zero());
                lemma_mixed_rewards(
                    m,
                    cni,
                    probs,
                    view,
                    i + 1,
                    mixed_in(mix, probs[i as int], vals),
                    mixed_in(rewards, probs[i as int], kid.chance_in),
                    h,
                );
            }
        }
    }
}

/// What the chance that led to a node pays agent `h`.
pub open spec fn chance_pay<S, F, N: Scalar>(kid: NodeModel<S, F, N>, h: int) -> N {
    if h < kid.chance_in.len() {
        kid.chance_in[h]
    } else {
        N::spec_zero()
    }
}

/// The value of a fan is the expectation over its outcomes, each by its probability; and so are the
/// rewards that chance pays.
pub proof fn law_fans_are_expectations<S, F, N: Scalar>(
    m: TreeModel<S, F, N>,
    cni: int,
    probs: Seq<N>,
    view: usize,
    h: int,
    g: int,
)
    requires
        ring::<N>(),
        0 <= h < no_values::<N>(m.mode, m.n_agents as nat).len(),
        0 <= g < m.n_agents,
    ensures
        fan_mix(
            m,
            cni,
            probs,
            view,
            0,
            no_values(m.mode, m.n_agents as nat),
            spec_filled(N::spec_zero(), m.n_agents as nat),
        ) matches Ok((mix, rewards)) ==> {
            &&& mix[h] == spec_sum(
                Seq::new(
                    probs.len(),
                    |j: int|
                        probs[j].spec_times(
                            outcome_value(fan_kid(m, cni, j as nat)->Ok_0, m.mode, view, h),
                        ),
                ),
            )
            &&& rewards[g] == spec_sum(
                Seq::new(
                    probs.len(),
                    |j: int|
                        probs[j].spec_times(chance_pay(fan_kid(m, cni, j as nat)->Ok_0, g)),
                ),
            )
        },
{
    let none = Seq::<N>::empty();
    law_sum(none, N::spec_zero());
    assert(Seq::new(
        0,
        |j: int|
            probs[j].spec_times(
                outcome_value(fan_kid(m, cni, j as nat)->Ok_0, m.mode, view, h),
            ),
    ) =~= none);
    assert(Seq::new(
        0,
        |j: int| probs[j].spec_times(chance_pay(fan_kid(m, cni, j as nat)->Ok_0, g)),
    ) =~= none);
    let mix = no_values(m.mode, m.n_agents as nat);
    let rewards = spec_filled(N::spec_zero(), m.n_agents as nat);
    lemma_mix(m, cni, probs, view, 0, mix, rewards, h, mix.len());
    lemma_mixed_rewards(m, cni, probs, view, 0, mix, rewards, g);
}

/// The outcome at slot `l` of a fan ends the game.
pub open spec fn over_at<S, F, N>(m: TreeModel<S, F, N>, cni: int, l: nat) -> bool {
    fan_kid(m, cni, l) matches Ok(kid) && kid.terminal
}

/// Whose view a fan of two agents takes: that of the mover of its first outcome that goes on; the chance
/// node's own where none does.
pub proof fn law_fans_are_seen_by_their_first_mover<S, F, N>(
    m: TreeModel<S, F, N>,
    cni: int,
    i: nat,
) -> (j: nat)
    requires
        i <= m.arena[cni].links.len(),
    ensures
        i <= j <= m.arena[cni].links.len(),
        fan_actor(m, cni, i) matches Ok(view) ==> {
            &&& forall|l: nat| i <= l < j ==> #[trigger] over_at(m, cni, l)
            &&& j == m.arena[cni].links.len() ==> view == m.arena[cni].actor
            &&& j < m.arena[cni].links.len() ==> {
                fan_kid(m, cni, j) matches Ok(kid) && !kid.terminal && view == kid.actor
            }
        },
    decreases m.arena[cni].links.len() - i,
{
    if i < m.arena[cni].links.len() && over_at(m, cni, i) {
        law_fans_are_seen_by_their_first_mover(m, cni, i + 1)
    } else {
        i
    }
}

/// Rewards that are nothing for everyone.
pub open spec fn pays_nobody<N: Scalar>(rewards: Seq<N>) -> bool {
    forall|i: int|
        0 <= i < rewards.len() ==> (#[trigger] rewards[i]).spec_same(N::spec_zero())
}

/// What a fan backs up: the expectation of its outcomes' values, seen by whom the fan is seen by, with
/// the expectation of what chance pays waiting for the choice above it, unless that is nothing for
/// everyone.
pub proof fn law_fans_back_up_expectations<S, F, N: Scalar>(
    gamma: N,
    m: TreeModel<S, F, N>,
    b: TreeModel<S, F, N>,
    h: int,
    g: int,
) -> (r: (Seq<N>, Seq<N>, Seq<N>, usize))
    requires
        ring::<N>(),
        m.leaf < m.arena.len(),
        fan_backed_up(gamma, m) == Ok::<_, Fault>(b),
        0 <= h < no_values::<N>(m.mode, m.n_agents as nat).len(),
        0 <= g < m.n_agents,
    ensures
        ({
            let (probs, mix, rewards, view) = r;
            let cni = m.leaf as int;
            &&& fan_weights(m.arena[cni]) == Ok::<_, Fault>(probs)
            &&& m.mode == TreeMode::SeqNegamax ==> fan_actor(m, cni, 0) == Ok::<_, Fault>(view)
            &&& mix[h] == spec_sum(
                Seq::new(
                    probs.len(),
                    |j: int|
                        probs[j].spec_times(
                            outcome_value(fan_kid(m, cni, j as nat)->Ok_0, m.mode, view, h),
                        ),
                ),
            )
            &&& rewards[g] == spec_sum(
                Seq::new(
                    probs.len(),
                    |j: int|
                        probs[j].spec_times(chance_pay(fan_kid(m, cni, j as nat)->Ok_0, g)),
                ),
            )
            &&& spec_backup(
                gamma,
                TreeModel {
                    arena: m.arena.update(cni, NodeModel { actor: view, ..m.arena[cni] }),
                    pend_seed: if pays_nobody(rewards) {
                        m.pend_seed
                    } else {
                        rewards
                    },
                    ..m
                },
                mix,
            ) == Ok::<_, Fault>(b)
        }),
{
    let cni = m.leaf as int;
    let probs = fan_weights(m.arena[cni])->Ok_0;
    let view = if m.mode == TreeMode::SeqNegamax {
        fan_actor(m, cni, 0)->Ok_0
    } else {
        m.arena[cni].actor
    };
    let (mix, rewards) = fan_mix(
        m,
        cni,
        probs,
        view,
        0,
        no_values(m.mode, m.n_agents as nat),
        spec_filled(N::spec_zero(), m.n_agents as nat),
    )->Ok_0;
    law_fans_are_expectations(m, cni, probs, view, h, g);
    assert(any_reward(rewards) == !pays_nobody(rewards));
    (probs, mix, rewards, view)
}

proof fn lemma_tallied<N: Scalar>(
    arms: Seq<Arm<N>>,
    i: nat,
    values: Seq<N>,
    visits: Seq<N>,
    j: int,
)
    requires
        i <= arms.len(),
        values.len() == visits.len(),
        0 <= j < arms.len(),
        forall|s: int, t: int|
            0 <= s < t < arms.len() ==> (#[trigger] arms[s]).action != (#[trigger] arms[t]).action,
        j < i ==> arms[j].action < values.len() && values[arms[j].action as int] == mean_of(arms[j])
            && visits[arms[j].action as int] == N::spec_count(arms[j].visits as u64),
        j >= i && arms[j].action < values.len() ==> values[arms[j].action as int]
            == N::spec_zero(),
    ensures
        tallied(arms, i, values, visits) matches Ok((v, n)) ==> arms[j].action < v.len() && v.len()
            == values.len() && n.len() == values.len() && v[arms[j].action as int] == mean_of(
            arms[j],
        ) && n[arms[j].action as int] == N::spec_count(arms[j].visits as u64),
    decreases arms.len() - i,
{
    if i < arms.len() {
        let arm = arms[i as int];
        let n = N::spec_count(arm.visits as u64);
        if arm.action < values.len() {
            let next = if arm.visits > 0 {
                values.update(arm.action as int, arm.value_sum.spec_over(n))
            } else {
                values
            };
            if j < i {
                assert(arms[j].action != arms[i as int].action);
            } else if j > i {
                assert(arms[i as int].action != arms[j].action);
            }
            lemma_tallied(arms, i + 1, next, visits.update(arm.action as int, n), j);
        }
    }
}

/// The mean of what was credited to an arm; nothing where it was never taken.
pub open spec fn mean_of<N: Scalar>(arm: Arm<N>) -> N {
    if arm.visits > 0 {
        arm.value_sum.spec_over(N::spec_count(arm.visits as u64))
    } else {
        N::spec_zero()
    }
}

/// What a finished search says of its root: of each action of the asked table the mean of what was
/// credited to it and how often it was taken, and which these actions are; with the accounts of its
/// simulations.
pub proof fn law_searches_tell_means<S, F, N: Scalar>(
    m: TreeModel<S, F, N>,
    actions: usize,
    j: int,
)
    requires
        m.arena.len() > 0,
        asked_table(m) < m.arena[0].tables.len(),
        0 <= j < m.arena[0].tables[asked_table(m) as int].arms.len(),
        forall|s: int, t: int|
            0 <= s < t < m.arena[0].tables[asked_table(m) as int].arms.len() ==> (
            #[trigger] m.arena[0].tables[asked_table(m) as int].arms[s]).action != (
            #[trigger] m.arena[0].tables[asked_table(m) as int].arms[t]).action,
    ensures
        evaluated_as(m, actions) matches Ok(e) ==> {
            let arms = m.arena[0].tables[asked_table(m) as int].arms;
            let n = N::spec_count(arms[j].visits as u64);
            let x = arms[j].action as int;
            &&& x < actions
            &&& e.values.len() == 1
            &&& e.values[0].len() == actions
            &&& e.visits.len() == actions
            &&& e.legal.len() == arms.len()
            &&& e.legal[j] == arms[j].action
            &&& e.visits[x] == n
            &&& arms[j].visits == 0 ==> e.values[0][x] == N::spec_zero()
            &&& arms[j].visits > 0 ==> e.values[0][x] == arms[j].value_sum.spec_over(n)
            &&& arms[j].visits > 0 && ring::<N>() && splits(n) ==> e.values[0][x].spec_times(n)
                == arms[j].value_sum
            &&& e.stats.max_depth == m.max_depth_seen
            &&& e.stats.expansions == m.sims
            &&& e.stats.terminal_sims == m.terminal_sims
            &&& e.stats.depthcap_sims == m.depthcap_sims
            &&& e.stats.shared_rows == m.shared_rows
            &&& e.stats.fresh_rows == m.fresh_rows
            &&& e.stats.hit_rows == m.hit_rows
            &&& e.stats.extra_eval_rows == m.extra_eval_rows
        },
{
    let arms = m.arena[0].tables[asked_table(m) as int].arms;
    let blank = spec_filled(N::spec_zero(), actions as nat);
    lemma_tallied(arms, 0, blank, blank, j);
    let n = N::spec_count(arms[j].visits as u64);
    if ring::<N>() && splits(n) {
        law_splits(n, arms[j].value_sum, arms[j].value_sum);
    }
}

/// The peak of some counts is one of them, or nothing, and none is above it.
pub proof fn law_peaks_are_largest<N: Scalar>(visits: Seq<N>)
    requires
        picks::<N>(),
        N::spec_zero().spec_is_number(),
        forall|i: int| 0 <= i < visits.len() ==> (#[trigger] visits[i]).spec_is_number(),
    ensures
        peak(visits).spec_is_number(),
        !peak(visits).spec_less(N::spec_zero()),
        forall|i: int| 0 <= i < visits.len() ==> !peak(visits).spec_less(#[trigger] visits[i]),
        peak(visits) == N::spec_zero() || exists|i: int|
            0 <= i < visits.len() && #[trigger] visits[i] == peak(visits),
    decreases visits.len(),
{
    if visits.len() > 0 {
        let short = visits.drop_last();
        let n = visits.len() - 1;
        assert forall|i: int| 0 <= i < short.len() implies (
        #[trigger] short[i]).spec_is_number() by {
            assert(short[i] == visits[i]);
        }
        law_peaks_are_largest(short);
        let before = peak(short);
        let now = peak(visits);
        assert(visits[n].spec_is_number());
        assert(now == before.spec_larger(visits[n]));
        assert forall|i: int| 0 <= i < visits.len() implies !now.spec_less(#[trigger] visits[i]) by {
            if i < n {
                assert(short[i] == visits[i]);
                assert(!before.spec_less(short[i]));
                assert(!now.spec_less(before));
            }
        }
        assert(!now.spec_less(before));
        if now != N::spec_zero() {
            if now != visits[n] {
                let i = choose|i: int| 0 <= i < short.len() && #[trigger] short[i] == before;
                assert(visits[i] == now);
            }
        }
    }
}

/// What is left of a draw after the weights before the `i`-th are taken from it.
pub open spec fn left_after<N: Scalar>(w: Seq<N>, r: N, i: int) -> N {
    r.spec_minus(spec_sum(w.take(i)))
}

/// `i` uses a draw up: it weighs something, and with it nothing is left.
pub open spec fn uses_up<N: Scalar>(w: Seq<N>, r: N, i: int) -> bool {
    N::spec_zero().spec_less(w[i]) && left_after(w, r, i + 1).spec_at_most(N::spec_zero())
}

proof fn lemma_taken<N: Scalar>(w: Seq<N>, r: N, i: nat, now: N)
    requires
        ring::<N>(),
        i <= w.len(),
        now == left_after(w, r, i as int),
        forall|j: int| 0 <= j < i ==> !#[trigger] uses_up(w, r, j),
    ensures
        ({
            let p = weight_taken(w, i, now);
            ||| i <= p < w.len() && uses_up(w, r, p) && forall|j: int|
                0 <= j < p ==> !#[trigger] uses_up(w, r, j)
            ||| p == spec_argmax(w, w.len()) && forall|j: int|
                0 <= j < w.len() ==> !#[trigger] uses_up(w, r, j)
        }),
    decreases w.len() - i,
{
    if i < w.len() {
        let x = w[i as int];
        let s = spec_sum(w.take(i as int));
        law_sum(w.take(i as int), x);
        assert(w.take(i as int).push(x) =~= w.take((i + 1) as int));
        // (r - s) - x == r - (s + x)
        law_ring(r, s, s);
        law_ring(now, x, x);
        law_ring_signs(s, x);
        law_ring(r, s.spec_negated(), x.spec_negated());
        law_ring(r, s.spec_plus(x), x);
        let left = now.spec_minus(x);
        assert(left == left_after(w, r, (i + 1) as int));
        assert(uses_up(w, r, i as int) == (N::spec_zero().spec_less(x) && left.spec_at_most(
            N::spec_zero(),
        )));
        if !uses_up(w, r, i as int) {
            lemma_taken(w, r, i + 1, left);
        }
    }
}

/// Weights and a draw pick the first index at which the weights so far, that one's included, make up
/// the drawn share of their total; the heaviest where none does.
pub proof fn law_draws_fall_by_weight<N: Scalar>(w: Seq<N>, draw: N)
    requires
        ring::<N>(),
    ensures
        ({
            let r = draw.spec_times(spec_sum(w));
            let p = weight_picked(w, draw);
            ||| 0 <= p < w.len() && uses_up(w, r, p) && forall|j: int|
                0 <= j < p ==> !#[trigger] uses_up(w, r, j)
            ||| p == spec_argmax(w, w.len()) && forall|j: int|
                0 <= j < w.len() ==> !#[trigger] uses_up(w, r, j)
        }),
{
    let r = draw.spec_times(spec_sum(w));
    assert(w.take(0) =~= Seq::empty());
    law_sum(Seq::<N>::empty(), r);
    law_ring(r, N::spec_zero(), N::spec_zero());
    law_ring(r.spec_minus(N::spec_zero()), N::spec_zero(), N::spec_zero());
    lemma_taken(w, r, 0, r);
}

} // verus!
