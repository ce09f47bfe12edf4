//! What a search never changes: the choices of a node, once it is in the tree.

use vstd::prelude::*;

use super::backup::{
    choice_up, credited, fan_backed_up, joint_credited, leaf_backed_up, leaf_valued, negamax_up,
    no_values, spec_backprop, spec_backup, table_credited, vector_up,
};
use super::fan::{fan_of, FanModel};
use super::grow::{
    chance_child, descended, evaluated, fan_attached, fan_probs, fan_seeds, fanned, link_move,
    link_rewards, materialized, slot_drawn, spec_expand, stepped, with_node, Ctx, Expanded, Reached,
};
use super::leaves::{child_node, fresh_links, sim_legal};
use super::policy::{log_choice, made_rules, searched};
use super::pool::{
    delivered, deliveries, delivery, hit, reaches, read_at, simulated, took_in, trace_of, turned,
    with_hit, Batch, Life, Rules,
};
use super::read::{node_told, spec_consume, table_actions, table_primed};
use super::search::{
    all_delivered, asked_table, entry, evaluated_as, law_illegal_actions_are_blank, pool_ran,
    pool_start, request_tree, round_at, round_committed, rounds_run, staged_at, told, Stage,
};
use super::select::{joint_choice, Guidance, Ln};
use super::simulate::{settled_end, spec_simulate};
use super::tree::{ChanceSpotModel, KindModel, LinkModel, NodeModel, TreeMode, TreeModel};
use crate::encoder::StateEncoder;
use crate::fault::Fault;
use crate::game::{Actor, Game, CHANCE_CHAIN_LIMIT};
use crate::num::Scalar;
use crate::policies::tree::evaluation::SearchEvaluation;
use crate::policies::tree::expectimax::evaluate::Exp;
use crate::policy::ChanceMode;
use crate::reward::Reward;
use crate::rng::{GammaSource, SplitMix64};
use crate::util::spec_filled;

verus! {

/// Two nodes with the same choices: as many tables, of the same actions, and both simultaneous or
/// neither.
pub open spec fn same_choices<S, F, N>(a: NodeModel<S, F, N>, b: NodeModel<S, F, N>) -> bool {
    &&& a.tables.len() == b.tables.len()
    &&& forall|t: int|
        0 <= t < a.tables.len() ==> table_actions(#[trigger] a.tables[t]) == table_actions(
            b.tables[t],
        )
    &&& a.kind is Simultaneous == b.kind is Simultaneous
}

/// `b` has the nodes of `a`, with the same choices, and answers the same agent.
pub open spec fn keeps<S, F, N>(a: TreeModel<S, F, N>, b: TreeModel<S, F, N>) -> bool {
    &&& b.arena.len() >= a.arena.len()
    &&& b.requester == a.requester
    &&& forall|i: int| 0 <= i < a.arena.len() ==> same_choices(#[trigger] a.arena[i], b.arena[i])
}

proof fn lemma_keeps_trans<S, F, N>(
    a: TreeModel<S, F, N>,
    b: TreeModel<S, F, N>,
    c: TreeModel<S, F, N>,
)
    requires
        keeps(a, b),
        keeps(b, c),
    ensures
        keeps(a, c),
{
    assert forall|i: int| 0 <= i < a.arena.len() implies same_choices(
        #[trigger] a.arena[i],
        c.arena[i],
    ) by {
        assert(same_choices(a.arena[i], b.arena[i]));
        assert(same_choices(b.arena[i], c.arena[i]));
        assert forall|t: int| 0 <= t < a.arena[i].tables.len() implies table_actions(
            #[trigger] a.arena[i].tables[t],
        ) == table_actions(c.arena[i].tables[t]) by {
            assert(table_actions(b.arena[i].tables[t]) == table_actions(c.arena[i].tables[t]));
        }
    }
}

proof fn lemma_with_node<S, F, N>(m: TreeModel<S, F, N>, ni: int, node: NodeModel<S, F, N>)
    requires
        0 <= ni < m.arena.len(),
        same_choices(m.arena[ni], node),
    ensures
        keeps(m, with_node(m, ni, node)),
{
}

proof fn lemma_credited<S, F, N: Scalar>(node: NodeModel<S, F, N>, ti: nat, a: nat, q: N)
    ensures
        credited(node, ti, a, q) matches Ok(next) ==> same_choices(node, next) && next.tables.len()
            == node.tables.len(),
{
    if let Ok(next) = credited(node, ti, a, q) {
        let t = node.tables[ti as int];
        assert(table_actions(table_credited(t, a as int, q)) =~= table_actions(t));
    }
}

proof fn lemma_same_choices_trans<S, F, N>(
    a: NodeModel<S, F, N>,
    b: NodeModel<S, F, N>,
    c: NodeModel<S, F, N>,
)
    requires
        same_choices(a, b),
        same_choices(b, c),
    ensures
        same_choices(a, c),
{
    assert forall|t: int| 0 <= t < a.tables.len() implies table_actions(#[trigger] a.tables[t])
        == table_actions(c.tables[t]) by {
        assert(table_actions(b.tables[t]) == table_actions(c.tables[t]));
    }
}

proof fn lemma_joint_credited<S, F, N: Scalar>(
    node: NodeModel<S, F, N>,
    i: nat,
    rem: nat,
    g: Seq<N>,
)
    ensures
        joint_credited(node, i, rem, g) matches Ok(next) ==> same_choices(node, next),
    decreases i,
{
    if i > 0 {
        let ti = (i - 1) as nat;
        if !(ti >= node.tables.len() || ti >= g.len() || node.tables[ti as int].arms.len() == 0) {
            let l = node.tables[ti as int].arms.len();
            lemma_credited(node, ti, rem % l, g[ti as int]);
            if let Ok(next) = credited(node, ti, rem % l, g[ti as int]) {
                lemma_joint_credited(next, ti, rem / l, g);
                if let Ok(last) = joint_credited(next, ti, rem / l, g) {
                    lemma_same_choices_trans(node, next, last);
                }
            }
        }
    }
}

proof fn lemma_choice_up<S, F, N: Scalar>(
    gamma: N,
    mode: TreeMode,
    node: NodeModel<S, F, N>,
    slot: usize,
    g: Seq<N>,
    pend: Seq<N>,
)
    ensures
        choice_up(gamma, mode, node, slot, g, pend) matches Ok((next, q)) ==> same_choices(
            node,
            next,
        ),
{
    if let Ok((next, q)) = choice_up(gamma, mode, node, slot, g, pend) {
        if mode == TreeMode::Sim {
            lemma_joint_credited(node, node.tables.len(), slot as nat, q);
        } else {
            lemma_credited(node, 0, slot as nat, q[node.actor as int]);
        }
    }
}

proof fn lemma_negamax_up<S, F, N: Scalar>(
    gamma: N,
    m: TreeModel<S, F, N>,
    i: nat,
    g: N,
    g_actor: usize,
    pend: Seq<N>,
)
    ensures
        negamax_up(gamma, m, i, g, g_actor, pend) matches Ok(b) ==> keeps(m, b),
    decreases i,
{
    if i > 0 {
        let (ni, a) = m.path[i - 1];
        if ni < m.arena.len() {
            let node = m.arena[ni as int];
            if node.kind is Chance {
                if let Ok(more) = super::backup::chance_passed(m, ni as int, a, pend) {
                    lemma_negamax_up(gamma, m, (i - 1) as nat, g, g_actor, more);
                }
            } else if node.actor < pend.len() && a < node.links.len()
                && node.links[a as int].rewards.len() > 0 {
                let child_val = if g_actor == node.actor {
                    g
                } else {
                    g.spec_negated()
                };
                let q = node.links[a as int].rewards[0].spec_plus(
                    pend[node.actor as int],
                ).spec_plus(gamma.spec_times(child_val));
                lemma_credited(node, 0, a as nat, q);
                if let Ok(next) = credited(node, 0, a as nat, q) {
                    let mid = with_node(m, ni as int, next);
                    lemma_with_node(m, ni as int, next);
                    let rest = crate::util::spec_filled(N::spec_zero(), 2);
                    lemma_negamax_up(gamma, mid, (i - 1) as nat, q, node.actor, rest);
                    if let Ok(b) = negamax_up(gamma, mid, (i - 1) as nat, q, node.actor, rest) {
                        lemma_keeps_trans(m, mid, b);
                    }
                }
            }
        }
    }
}

proof fn lemma_vector_up<S, F, N: Scalar>(
    gamma: N,
    m: TreeModel<S, F, N>,
    i: nat,
    g: Seq<N>,
    pend: Seq<N>,
)
    ensures
        vector_up(gamma, m, i, g, pend) matches Ok(b) ==> keeps(m, b),
    decreases i,
{
    if i > 0 {
        let (ni, slot) = m.path[i - 1];
        if ni < m.arena.len() {
            let node = m.arena[ni as int];
            if node.kind is Chance {
                if let Ok(more) = super::backup::chance_passed(m, ni as int, slot, pend) {
                    lemma_vector_up(gamma, m, (i - 1) as nat, g, more);
                }
            } else {
                lemma_choice_up(gamma, m.mode, node, slot, g, pend);
                if let Ok((next, q)) = choice_up(gamma, m.mode, node, slot, g, pend) {
                    let mid = with_node(m, ni as int, next);
                    lemma_with_node(m, ni as int, next);
                    let rest = crate::util::spec_filled(N::spec_zero(), pend.len());
                    lemma_vector_up(gamma, mid, (i - 1) as nat, q, rest);
                    if let Ok(b) = vector_up(gamma, mid, (i - 1) as nat, q, rest) {
                        lemma_keeps_trans(m, mid, b);
                    }
                }
            }
        }
    }
}

proof fn lemma_backprop<S, F, N: Scalar>(gamma: N, m: TreeModel<S, F, N>, value: N)
    ensures
        spec_backprop(gamma, m, value) matches Ok(b) ==> keeps(m, b),
{
    if m.leaf < m.arena.len() {
        let mid = leaf_valued(m, value);
        assert(keeps(m, mid));
        let pend = super::fan::added(
            crate::util::spec_filled(N::spec_zero(), 2),
            m.pend_seed,
        );
        let actor = m.arena[m.leaf as int].actor;
        lemma_negamax_up(gamma, mid, m.path.len(), value, actor, pend);
        if let Ok(b) = negamax_up(gamma, mid, m.path.len(), value, actor, pend) {
            lemma_keeps_trans(m, mid, b);
        }
    }
}

proof fn lemma_backup<S, F, N: Scalar>(gamma: N, m: TreeModel<S, F, N>, vals: Seq<N>)
    ensures
        spec_backup(gamma, m, vals) matches Ok(b) ==> keeps(m, b),
{
    if m.mode == TreeMode::SeqNegamax {
        if vals.len() > 0 {
            lemma_backprop(gamma, m, vals[0]);
        }
    } else {
        let mid = TreeModel { pend_seed: Seq::empty(), ..m };
        let pend = super::fan::added(
            crate::util::spec_filled(N::spec_zero(), m.n_agents as nat),
            m.pend_seed,
        );
        lemma_vector_up(gamma, mid, m.path.len(), vals, pend);
        if let Ok(b) = vector_up(gamma, mid, m.path.len(), vals, pend) {
            lemma_keeps_trans(m, mid, b);
        }
    }
}

proof fn lemma_leaf_backed_up<S, F, N: Scalar>(gamma: N, m: TreeModel<S, F, N>)
    ensures
        leaf_backed_up(gamma, m) matches Ok(b) ==> keeps(m, b),
{
    if m.leaf < m.arena.len() {
        lemma_backup(gamma, m, m.arena[m.leaf as int].values);
    }
}

proof fn lemma_fan_backed_up<S, F, N: Scalar>(gamma: N, m: TreeModel<S, F, N>)
    ensures
        fan_backed_up(gamma, m) matches Ok(b) ==> keeps(m, b),
{
    let cni = m.leaf as int;
    if let Ok(b) = fan_backed_up(gamma, m) {
        let view = if m.mode == TreeMode::SeqNegamax {
            super::backup::fan_actor(m, cni, 0)
        } else {
            Ok(m.arena[cni].actor)
        };
        let probs = super::backup::fan_weights(m.arena[cni])->Ok_0;
        let mixed = super::backup::fan_mix(
            m,
            cni,
            probs,
            view->Ok_0,
            0,
            super::backup::no_values(m.mode, m.n_agents as nat),
            crate::util::spec_filled(N::spec_zero(), m.n_agents as nat),
        )->Ok_0;
        let mid = TreeModel {
            arena: m.arena.update(cni, NodeModel { actor: view->Ok_0, ..m.arena[cni] }),
            pend_seed: if super::backup::any_reward(mixed.1) {
                mixed.1
            } else {
                m.pend_seed
            },
            ..m
        };
        assert(keeps(m, mid));
        lemma_backup(gamma, mid, mixed.0);
        lemma_keeps_trans(m, mid, b);
    }
}

proof fn lemma_node_told<S, F, N>(
    node: NodeModel<S, F, N>,
    mode: TreeMode,
    table: usize,
    slot: usize,
    value: N,
    prior: Option<Seq<N>>,
)
    ensures
        node_told(node, mode, table, slot, value, prior) matches Ok(next) ==> same_choices(
            node,
            next,
        ),
{
    if let Some(p) = prior {
        if table < node.tables.len() {
            let t = node.tables[table as int];
            assert(table_actions(table_primed(t, p)) =~= table_actions(t));
        }
    }
}

proof fn lemma_consume<S, F, N: Scalar>(
    gamma: N,
    m: TreeModel<S, F, N>,
    ni: usize,
    slot: usize,
    value: N,
    prior: Option<Seq<N>>,
)
    ensures
        spec_consume(gamma, m, ni, slot, value, prior) matches Ok(b) ==> keeps(m, b),
{
    if let Ok(b) = spec_consume(gamma, m, ni, slot, value, prior) {
        let table = super::read::role_of(m, ni, slot, false).table;
        lemma_node_told(m.arena[ni as int], m.mode, table, slot, value, prior);
        let node = node_told(m.arena[ni as int], m.mode, table, slot, value, prior)->Ok_0;
        let told = with_node(m, ni as int, node);
        lemma_with_node(m, ni as int, node);
        let free = TreeModel { pending: None, ..told };
        assert(keeps(told, free));
        lemma_keeps_trans(m, told, free);
        lemma_backprop(gamma, told, value);
        lemma_fan_backed_up(gamma, free);
        lemma_leaf_backed_up(gamma, free);
        match m.pending {
            None => lemma_keeps_trans(m, told, b),
            Some((work, missing)) => if missing > 1 {
                assert(keeps(told, b));
                lemma_keeps_trans(m, told, b);
            } else {
                lemma_keeps_trans(m, free, b);
            },
        }
    }
}

proof fn lemma_grafted<S, F, N>(
    m: TreeModel<S, F, N>,
    ni: int,
    node: NodeModel<S, F, N>,
    child: NodeModel<S, F, N>,
    next: TreeModel<S, F, N>,
)
    requires
        0 <= ni < m.arena.len(),
        same_choices(m.arena[ni], node),
        next.arena == m.arena.update(ni, node).push(child),
        next.requester == m.requester,
    ensures
        keeps(m, next),
{
}

proof fn lemma_materialized<
    N: Scalar,
    G: Game<N>,
    E: StateEncoder<State = G::State>,
    W: Reward<N, Event = G::Event>,
>(
    ctx: Ctx<N, G, E, W>,
    m: TreeModel<G::State, E::Feature, N>,
    cni: int,
    slot: usize,
)
    requires
        0 <= cni < m.arena.len(),
    ensures
        materialized(ctx, m, cni, slot) matches Ok((c, next)) ==> keeps(m, next),
{
    if let Ok((c, next)) = materialized(ctx, m, cni, slot) {
        lemma_grafted(m, cni, next.arena[cni], next.arena.last(), next);
    }
}

proof fn lemma_fan_attached<
    N: Scalar,
    G: Game<N>,
    E: StateEncoder<State = G::State>,
    W: Reward<N, Event = G::Event>,
>(
    ctx: Ctx<N, G, E, W>,
    cni: int,
    leaves: Seq<FanModel<G::State, N>>,
    slot: nat,
    m: TreeModel<G::State, E::Feature, N>,
)
    requires
        0 <= cni < m.arena.len(),
    ensures
        fan_attached(ctx, cni, leaves, slot, m) matches Ok(b) ==> keeps(m, b),
    decreases leaves.len() - slot,
{
    if slot < leaves.len() {
        let leaf = leaves[slot as int];
        let node = m.arena[cni];
        let (child, rng) = child_node(
            *ctx.game,
            *ctx.enc,
            m.mode,
            leaf.state,
            node.actor,
            node.depth,
            leaf.terminal,
            ctx.chance,
            m.rng,
        );
        if let Ok(child) = child {
            let linked = NodeModel {
                links: node.links.update(
                    slot as int,
                    LinkModel {
                        child: Some(m.arena.len() as usize),
                        ..node.links[slot as int]
                    },
                ),
                ..node
            };
            let kid = NodeModel { chance_in: leaf.rewards, ..child };
            let mid = TreeModel { arena: m.arena.update(cni, linked).push(kid), rng, ..m };
            lemma_grafted(m, cni, linked, kid, mid);
            lemma_fan_attached(ctx, cni, leaves, slot + 1, mid);
            if let Ok(b) = fan_attached(ctx, cni, leaves, slot + 1, mid) {
                lemma_keeps_trans(m, mid, b);
            }
        }
    }
}

proof fn lemma_fanned<
    N: Scalar,
    G: Game<N>,
    E: StateEncoder<State = G::State>,
    W: Reward<N, Event = G::Event>,
>(
    ctx: Ctx<N, G, E, W>,
    m: TreeModel<G::State, E::Feature, N>,
    cni: int,
)
    requires
        0 <= cni < m.arena.len(),
    ensures
        fanned(ctx, m, cni) matches Ok(b) ==> keeps(m, b),
{
    if let Ok(b) = fanned(ctx, m, cni) {
        let node = m.arena[cni];
        let spot = node.kind->Chance_0;
        let probs = spot.dist.probs();
        let seeds = fan_seeds(
            *ctx.game,
            *ctx.reward,
            m.n_agents,
            node.state,
            probs,
            0,
            Seq::empty(),
        )->Ok_0;
        let (leaves, chained) = fan_of(*ctx.game, *ctx.reward, m.n_agents, seeds)->Ok_0;
        let widened = NodeModel {
            links: fresh_links(leaves.len()),
            kind: KindModel::Chance(
                ChanceSpotModel {
                    fan_weights: if chained {
                        fan_probs(leaves)
                    } else {
                        spot.fan_weights
                    },
                    ..spot
                },
            ),
            ..node
        };
        let mid = with_node(m, cni, widened);
        lemma_with_node(m, cni, widened);
        lemma_fan_attached(ctx, cni, leaves, 0, mid);
        lemma_keeps_trans(m, mid, b);
    }
}

proof fn lemma_expand<
    N: Scalar,
    G: Game<N>,
    E: StateEncoder<State = G::State>,
    W: Reward<N, Event = G::Event>,
>(
    ctx: Ctx<N, G, E, W>,
    m: TreeModel<G::State, E::Feature, N>,
    ni: int,
    js: usize,
)
    requires
        0 <= ni < m.arena.len(),
    ensures
        spec_expand(ctx, m, ni, js) matches Ok((e, b)) ==> keeps(m, b),
{
    if let Ok((e, b)) = spec_expand(ctx, m, ni, js) {
        let node = m.arena[ni];
        let joint = link_move(
            node.tables,
            node.tables.len(),
            js as nat,
            spec_filled(0usize, ctx.game.spec_num_agents() as nat),
        )->Ok_0;
        let t = ctx.game.spec_step(node.state, joint);
        let rewards = link_rewards(
            *ctx.reward,
            t.events,
            m.mode,
            node.actor,
            m.n_agents,
        )->Ok_0;
        let (child, rng) = child_node(
            *ctx.game,
            *ctx.enc,
            m.mode,
            t.next_state,
            node.actor,
            node.depth,
            t.terminal,
            ctx.chance,
            m.rng,
        );
        let kid = child->Ok_0;
        let idx = m.arena.len() as usize;
        let linked = NodeModel {
            links: node.links.update(js as int, LinkModel { child: Some(idx), rewards }),
            ..node
        };
        let mid = TreeModel { arena: m.arena.update(ni, linked).push(kid), rng, ..m };
        lemma_grafted(m, ni, linked, kid, mid);
        if kid.kind is Chance && ctx.chance == ChanceMode::ExpandAll {
            lemma_fanned(ctx, mid, idx as int);
            lemma_keeps_trans(m, mid, b);
        }
    }
}

proof fn lemma_descended<
    N: Scalar,
    G: Game<N>,
    E: StateEncoder<State = G::State>,
    W: Reward<N, Event = G::Event>,
>(
    ctx: Ctx<N, G, E, W>,
    m: TreeModel<G::State, E::Feature, N>,
    ni: usize,
    hops: nat,
    len: nat,
)
    ensures
        descended(ctx, m, ni, hops, len) matches Ok((reached, b)) ==> keeps(m, b),
    decreases
            (if ni < len {
                len - ni
            } else {
                0
            }),
            CHANCE_CHAIN_LIMIT + 1 - hops,
{
    if ni < m.arena.len() {
        let node = m.arena[ni as int];
        match node.kind {
            KindModel::Chance(spot) => {
                if hops < CHANCE_CHAIN_LIMIT {
                    let (drawn, rng) = slot_drawn(spot, ctx.chance, m.rng);
                    if let Ok(slot) = drawn {
                        let next = stepped(TreeModel { rng, ..m }, ni, slot);
                        assert(keeps(m, next));
                        match chance_child(node, slot) {
                            Err(_) => {},
                            Ok(Some(c)) => if ni < c {
                                lemma_descended(ctx, next, c, hops + 1, len);
                                if let Ok((_, b)) = descended(ctx, next, c, hops + 1, len) {
                                    lemma_keeps_trans(m, next, b);
                                }
                            },
                            Ok(None) => {
                                lemma_materialized(ctx, next, ni as int, slot);
                                if let Ok((c, grown)) = materialized(ctx, next, ni as int, slot) {
                                    lemma_keeps_trans(m, next, grown);
                                    if grown.arena[c as int].kind is Chance {
                                        if ni < c {
                                            lemma_descended(ctx, grown, c, hops + 1, len);
                                            if let Ok((_, b)) = descended(
                                                ctx,
                                                grown,
                                                c,
                                                hops + 1,
                                                len,
                                            ) {
                                                lemma_keeps_trans(m, grown, b);
                                            }
                                        }
                                    }
                                }
                            },
                        }
                    }
                }
            },
            _ => {
                let seen = TreeModel {
                    max_depth_seen: if m.max_depth_seen < node.depth {
                        node.depth
                    } else {
                        m.max_depth_seen
                    },
                    ..m
                };
                assert(keeps(m, seen));
                if ni < len && !node.terminal && !(ctx.guidance is Puct && !evaluated(node))
                    && node.depth < ctx.max_depth {
                    if let Ok(js) = joint_choice(node.tables, ctx.guidance, ctx.logs@, 0, 0) {
                        let next = stepped(seen, ni, js as usize);
                        assert(keeps(m, next));
                        if js < node.links.len() {
                            match node.links[js as int].child {
                                Some(c) => if ni < c {
                                    lemma_descended(ctx, next, c, 0, len);
                                    if let Ok((_, b)) = descended(ctx, next, c, 0, len) {
                                        lemma_keeps_trans(m, next, b);
                                    }
                                },
                                None => {
                                    lemma_expand(ctx, next, ni as int, js as usize);
                                    if let Ok((e, grown)) = spec_expand(
                                        ctx,
                                        next,
                                        ni as int,
                                        js as usize,
                                    ) {
                                        lemma_keeps_trans(m, next, grown);
                                        if let Expanded::Chance(c) = e {
                                            if ni < c {
                                                lemma_descended(ctx, grown, c, 0, len);
                                                if let Ok((_, b)) = descended(
                                                    ctx,
                                                    grown,
                                                    c,
                                                    0,
                                                    len,
                                                ) {
                                                    lemma_keeps_trans(m, grown, b);
                                                }
                                            }
                                        }
                                    }
                                },
                            }
                        }
                    }
                }
            },
        }
    }
}

proof fn lemma_settled_end<S, F, N: Scalar>(gamma: N, reached: Reached, m: TreeModel<S, F, N>)
    ensures
        settled_end(gamma, reached, m) matches Ok((b, asks)) ==> keeps(m, b),
{
    if let Ok((b, asks)) = settled_end(gamma, reached, m) {
        let at_end = TreeModel { terminal_sims: (m.terminal_sims + 1) as usize, ..m };
        let at_cap = TreeModel { depthcap_sims: (m.depthcap_sims + 1) as usize, ..m };
        assert(keeps(m, at_end) && keeps(m, at_cap));
        match reached {
            Reached::Terminal => {
                lemma_backup(gamma, at_end, no_values(m.mode, m.n_agents as nat));
                lemma_keeps_trans(m, at_end, b);
            },
            Reached::DepthCapped => {
                lemma_leaf_backed_up(gamma, at_cap);
                lemma_keeps_trans(m, at_cap, b);
            },
            Reached::Eval => {},
            Reached::Fan => {
                if asks.len() == 0 {
                    lemma_fan_backed_up(gamma, at_end);
                    lemma_keeps_trans(m, at_end, b);
                }
            },
        }
    }
}

proof fn lemma_simulate<
    N: Scalar,
    G: Game<N>,
    E: StateEncoder<State = G::State>,
    W: Reward<N, Event = G::Event>,
>(ctx: Ctx<N, G, E, W>, m: TreeModel<G::State, E::Feature, N>)
    ensures
        spec_simulate(ctx, m) matches Ok((b, asks)) ==> keeps(m, b),
{
    reveal(spec_simulate);
    if let Ok((b, asks)) = spec_simulate(ctx, m) {
        let sims = (m.sims + 1) as usize;
        let first = TreeModel { path: Seq::empty(), ..TreeModel { sims, ..m } };
        assert(keeps(m, first));
        lemma_descended(ctx, first, 0, 0, m.arena.len());
        let (reached, grown) = descended(ctx, first, 0, 0, m.arena.len())->Ok_0;
        lemma_keeps_trans(m, first, grown);
        lemma_settled_end(ctx.gamma, reached, grown);
        lemma_keeps_trans(m, grown, b);
    }
}

proof fn lemma_took_in<
    N: Scalar,
    G: Game<N>,
    E: StateEncoder<State = G::State>,
    W: Reward<N, Event = G::Event>,
    X: Exp<N>,
    M: GammaSource<N, SplitMix64>,
>(
    rules: Rules<N, G, E, W, X, M>,
    ti: usize,
    m: TreeModel<G::State, E::Feature, N>,
    ni: usize,
    slot: usize,
    row: Seq<N>,
    next: TreeModel<G::State, E::Feature, N>,
)
    requires
        took_in(rules, ti, m, ni, slot, row, next),
    ensures
        keeps(m, next),
{
    let (value, prior) = choose|value: N, prior: Option<Seq<N>>| #[trigger]
        read_at(rules, ti, m, ni, slot, row, value, prior) && spec_consume(
            rules.ctx.gamma,
            m,
            ni,
            slot,
            value,
            prior,
        ) == Ok::<_, Fault>(next);
    lemma_consume(rules.ctx.gamma, m, ni, slot, value, prior);
}

/// A turn keeps the choices of every node.
pub proof fn law_turns_keep_choices<
    N: Scalar,
    G: Game<N>,
    E: StateEncoder<State = G::State>,
    W: Reward<N, Event = G::Event>,
    X: Exp<N>,
    M: GammaSource<N, SplitMix64>,
    B: Batch<E::Feature, N>,
>(
    rules: Rules<N, G, E, W, X, M>,
    ti: usize,
    a: Life<G::State, E::Feature, N, B>,
    b: Life<G::State, E::Feature, N, B>,
)
    requires
        turned(rules, ti, a, b),
    ensures
        keeps(a.m, b.m),
{
    if simulated(rules, a, b) {
        lemma_simulate(rules.ctx, a.m);
    } else if exists|row: Seq<N>| #[trigger] hit(rules, ti, a, b, row) {
        let row = choose|row: Seq<N>| #[trigger] hit(rules, ti, a, b, row);
        lemma_took_in(rules, ti, with_hit(a.m), a.asks[0].0, a.asks[0].1, row, b.m);
        assert(keeps(a.m, with_hit(a.m)));
        lemma_keeps_trans(a.m, with_hit(a.m), b.m);
    }
}

proof fn lemma_trace<
    N: Scalar,
    G: Game<N>,
    E: StateEncoder<State = G::State>,
    W: Reward<N, Event = G::Event>,
    X: Exp<N>,
    M: GammaSource<N, SplitMix64>,
    B: Batch<E::Feature, N>,
>(
    rules: Rules<N, G, E, W, X, M>,
    ti: usize,
    trace: Seq<Life<G::State, E::Feature, N, B>>,
    j: int,
)
    requires
        trace_of(rules, ti, trace),
        0 <= j < trace.len(),
    ensures
        keeps(trace[0].m, trace[j].m),
    decreases j,
{
    if j > 0 {
        lemma_trace(rules, ti, trace, j - 1);
        assert(turned(rules, ti, trace[j - 1], trace[j - 1 + 1]));
        law_turns_keep_choices(rules, ti, trace[j - 1], trace[j]);
        lemma_keeps_trans(trace[0].m, trace[j - 1].m, trace[j].m);
    }
}

proof fn lemma_reached<
    N: Scalar,
    G: Game<N>,
    E: StateEncoder<State = G::State>,
    W: Reward<N, Event = G::Event>,
    X: Exp<N>,
    M: GammaSource<N, SplitMix64>,
    B: Batch<E::Feature, N>,
>(
    rules: Rules<N, G, E, W, X, M>,
    ti: usize,
    a: Life<G::State, E::Feature, N, B>,
    b: Life<G::State, E::Feature, N, B>,
)
    requires
        reaches(rules, ti, a, b),
    ensures
        keeps(a.m, b.m),
{
    reveal(reaches);
    let trace = choose|trace: Seq<Life<G::State, E::Feature, N, B>>| #[trigger]
        trace_of(rules, ti, trace) && trace[0] == a && trace.last() == b;
    lemma_trace(rules, ti, trace, trace.len() - 1);
}

proof fn lemma_course<
    N: Scalar,
    G: Game<N>,
    E: StateEncoder<State = G::State>,
    W: Reward<N, Event = G::Event>,
    X: Exp<N>,
    M: GammaSource<N, SplitMix64>,
>(
    rules: Rules<N, G, E, W, X, M>,
    ti: usize,
    due: Seq<(usize, usize, usize)>,
    rows: Seq<Seq<N>>,
    course: Seq<TreeModel<G::State, E::Feature, N>>,
    n: int,
)
    requires
        deliveries(rules, ti, due, rows, course),
        0 <= n <= due.len(),
    ensures
        keeps(course[0], course[n]),
    decreases n,
{
    if n > 0 {
        lemma_course(rules, ti, due, rows, course, n - 1);
        let (ticket, ni, slot) = due[n - 1];
        assert(delivery(rules, ti, due[n - 1], rows, course[n - 1], course[n - 1 + 1]));
        lemma_took_in(rules, ti, course[n - 1], ni, slot, rows[ticket as int], course[n]);
        lemma_keeps_trans(course[0], course[n - 1], course[n]);
    }
}

proof fn lemma_delivered<
    N: Scalar,
    G: Game<N>,
    E: StateEncoder<State = G::State>,
    W: Reward<N, Event = G::Event>,
    X: Exp<N>,
    M: GammaSource<N, SplitMix64>,
>(
    rules: Rules<N, G, E, W, X, M>,
    ti: usize,
    m: TreeModel<G::State, E::Feature, N>,
    due: Seq<(usize, usize, usize)>,
    rows: Seq<Seq<N>>,
    next: TreeModel<G::State, E::Feature, N>,
)
    requires
        delivered(rules, ti, m, due, rows, next),
    ensures
        keeps(m, next),
{
    let course = choose|course: Seq<TreeModel<G::State, E::Feature, N>>| #[trigger]
        deliveries(rules, ti, due, rows, course) && course[0] == m && course.last() == next;
    lemma_course(rules, ti, due, rows, course, due.len() as int);
}

/// The rounds of a pool keep the choices of every node of every tree.
pub proof fn law_rounds_keep_choices<
    N: Scalar,
    G: Game<N>,
    E: StateEncoder<State = G::State>,
    W: Reward<N, Event = G::Event>,
    X: Exp<N>,
    M: GammaSource<N, SplitMix64>,
    B: Batch<E::Feature, N>,
>(
    rules: Rules<N, G, E, W, X, M>,
    start: Stage<G::State, E::Feature, N, B>,
    stages: Seq<Stage<G::State, E::Feature, N, B>>,
    j: int,
    ti: int,
)
    requires
        rounds_run(rules, start, stages),
        0 <= j < stages.len(),
        0 <= ti < start.trees.len(),
    ensures
        stages[j].trees.len() == start.trees.len(),
        keeps(start.trees[ti], stages[j].trees[ti]),
    decreases j,
{
    if j > 0 {
        let a = stages[j - 1];
        let b = stages[j];
        law_rounds_keep_choices(rules, start, stages, j - 1, ti);
        assert(round_at(rules, stages, j - 1));
        assert(stages[j - 1 + 1] == b);
        let (lives, rows) = choose|lives: Seq<Life<G::State, E::Feature, N, B>>, rows: Seq<Seq<N>>| #[trigger]
            round_committed(rules, a, lives, rows, b.batch) && all_delivered(
                rules,
                lives,
                rows,
                b.trees,
            );
        assert(staged_at(rules, a.trees, a.batch, lives, ti));
        lemma_reached(rules, ti as usize, entry(a.trees, a.batch, lives, ti), lives[ti]);
        lemma_delivered(rules, ti as usize, lives[ti].m, lives[ti].due, rows, b.trees[ti]);
        lemma_keeps_trans(a.trees[ti], lives[ti].m, b.trees[ti]);
        lemma_keeps_trans(start.trees[ti], a.trees[ti], b.trees[ti]);
    }
}

/// What a request may be answered with: where one agent decides, what that agent may do; where all
/// decide at once, what the asking agent may do, or the placeholder where it may do nothing.
pub open spec fn answerable<N: Scalar, G: Game<N>>(
    game: G,
    state: G::State,
    agent: usize,
) -> Seq<usize> {
    match game.spec_actor(state) {
        Actor::Agent(mover) => game.spec_legal_actions(state, mover),
        _ => sim_legal(game, state, agent),
    }
}

/// A search speaks of the legal actions of its root, in their order, and of no others: an action that
/// is not among them has neither value nor visits.
pub proof fn law_searches_speak_of_legal_actions<
    N: Scalar,
    G: Game<N>,
    E: StateEncoder<State = G::State>,
    W: Reward<N, Event = G::Event>,
    X: Exp<N>,
    M: GammaSource<N, SplitMix64>,
    B: Batch<E::Feature, N>,
>(
    rules: Rules<N, G, E, W, X, M>,
    source: (B, B),
    requests: Seq<(G::State, usize)>,
    seed: u64,
    force_maxn: bool,
    out: Seq<SearchEvaluation<N>>,
    ti: int,
)
    requires
        pool_ran(rules, source, requests, seed, force_maxn, out),
        0 <= ti < out.len(),
    ensures
        out[ti]@.legal == answerable(*rules.ctx.game, requests[ti].0, requests[ti].1),
        forall|a: int|
            #![trigger out[ti]@.visits[a]]
            0 <= a < rules.actions && !out[ti]@.legal.contains(a as usize)
                ==> out[ti]@.visits[a] == N::spec_zero() && out[ti]@.values[0][a]
                == N::spec_zero(),
{
    let game = *rules.ctx.game;
    let enc = *rules.ctx.enc;
    let start = pool_start(rules, source.0, requests, seed, force_maxn);
    let e = out[ti]@;
    let stages = choose|stages: Seq<Stage<G::State, E::Feature, N, B>>| #[trigger]
        rounds_run(rules, start, stages) && stages.last().batch == source.1 && told(
            stages.last().trees,
            rules.num_simulations,
            rules.actions,
            out,
        );
    let m = stages.last().trees[ti];
    assert(evaluated_as(m, rules.actions) == Ok::<_, Fault>(out[ti]@));
    law_rounds_keep_choices(rules, start, stages, stages.len() - 1, ti);
    let root = request_tree::<N, G, E>(game, enc, requests, ti, seed, force_maxn)->Ok_0;
    assert(start.trees[ti] == root);
    assert(request_tree::<N, G, E>(game, enc, requests, ti, seed, force_maxn) is Ok);
    assert(same_choices(root.arena[0], m.arena[0]));
    let table = asked_table(m) as int;
    assert(table_actions(root.arena[0].tables[table]) == table_actions(m.arena[0].tables[table]));
    assert(e.legal == table_actions(m.arena[0].tables[table]));
    assert(table_actions(root.arena[0].tables[table]) =~= answerable(
        game,
        requests[ti].0,
        requests[ti].1,
    ));
    assert forall|a: int|
        #![trigger out[ti]@.visits[a]]
        0 <= a < rules.actions && !out[ti]@.legal.contains(
            a as usize,
        ) implies out[ti]@.visits[a] == N::spec_zero() && out[ti]@.values[0][a]
        == N::spec_zero() by {
        law_illegal_actions_are_blank(m, rules.actions, e, a);
    }
}

/// Pooled searches speak of the legal actions of their roots, and of no others.
pub proof fn law_pooled_searches_are_legal<
    N: Scalar,
    G: Game<N>,
    E: StateEncoder<State = G::State>,
    W: Reward<N, Event = G::Event>,
    K: Exp<N> + Ln<N> + GammaSource<N, SplitMix64>,
    B: Batch<E::Feature, N>,
>(
    game: &G,
    enc: &E,
    reward: &W,
    num_simulations: usize,
    gamma: N,
    max_depth: i32,
    guidance: Guidance<N>,
    chance: ChanceMode,
    maths: &K,
    source: (B, B),
    requests: Seq<(G::State, usize)>,
    seed: u64,
    force_maxn: bool,
    out: Seq<SearchEvaluation<N>>,
    ti: int,
)
    requires
        searched(
            game,
            enc,
            reward,
            num_simulations,
            gamma,
            max_depth,
            guidance,
            chance,
            maths,
            source,
            requests,
            seed,
            force_maxn,
            out,
        ),
        0 <= ti < out.len(),
    ensures
        out[ti]@.legal == answerable(*game, requests[ti].0, requests[ti].1),
        forall|a: int|
            #![trigger out[ti]@.visits[a]]
            0 <= a < game.spec_action_count() && !out[ti]@.legal.contains(a as usize)
                ==> out[ti]@.visits[a] == N::spec_zero() && out[ti]@.values[0][a]
                == N::spec_zero(),
{
    let logs = choose|logs: &[N]|
        log_choice(*maths, guidance, num_simulations, logs@) && #[trigger] pool_ran(
            made_rules(
                game,
                enc,
                reward,
                num_simulations,
                gamma,
                max_depth,
                guidance,
                chance,
                logs,
                maths,
            ),
            source,
            requests,
            seed,
            force_maxn,
            out,
        );
    law_searches_speak_of_legal_actions(
        made_rules(
            game,
            enc,
            reward,
            num_simulations,
            gamma,
            max_depth,
            guidance,
            chance,
            logs,
            maths,
        ),
        source,
        requests,
        seed,
        force_maxn,
        out,
        ti,
    );
}

} // verus!
