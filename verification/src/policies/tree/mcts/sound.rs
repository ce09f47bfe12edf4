//! What holds of every tree of a pool: indices in range, children behind their parents, a link for
//! every joint choice, visits that add up. No search of a game in which every mover has a move is
//! ever lost in its tree.

use vstd::prelude::*;

#[allow(unused_imports)]
use super::backup::fan_weights;
#[allow(unused_imports)]
use super::fan::{
    added, agent_rewards, chance_due, fan_child, fan_children, fan_of, fan_unfolded, flattened,
    law_fan_ends_in_decisions, lemma_fan_unfolded, stack_rank, FanModel,
};
#[allow(unused_imports)]
use super::grow::{
    added_index, chance_child, descended, ended, evaluated, fan_attached, fan_probs, fan_seeds,
    fanned, link_move, link_rewards, materialized, slot_drawn, slot_linked, slot_outcome,
    spec_expand, stepped, with_node, Ctx, Expanded, Reached,
};
#[allow(unused_imports)]
use super::leaves::{
    child_node, commitments, fresh_links, fresh_table, joint_width, sim_legal, sim_tables,
};
#[allow(unused_imports)]
use super::select::{arm_score, best_arm, chosen_arm, joint_choice, log_at, Guidance};
#[allow(unused_imports)]
use super::tree::{
    Arm, ChanceSpotModel, KindModel, LinkModel, NodeModel, TableModel, TreeMode, TreeModel,
};
#[allow(unused_imports)]
use crate::encoder::StateEncoder;
#[allow(unused_imports)]
use crate::fault::Fault;
#[allow(unused_imports)]
use crate::game::{law_pick_in_range, Actor, ChanceModel, Game, Rng, CHANCE_CHAIN_LIMIT};
#[allow(unused_imports)]
use crate::num::Scalar;
#[allow(unused_imports)]
use crate::policies::tree::expectimax::fan::lemma_rank_positive;
#[allow(unused_imports)]
use crate::policy::{ChanceMode, MAX_ENUMERATED_OUTCOMES, MAX_JOINT_SLOTS};
#[allow(unused_imports)]
use crate::reward::Reward;
#[allow(unused_imports)]
use crate::rng::SplitMix64;
#[allow(unused_imports)]
use crate::util::spec_filled;

verus! {


/// Whoever moves is an agent of the game, and has a move.
pub open spec fn lively<N: Scalar, G: Game<N>>(game: G) -> bool {
    forall|state: G::State, agent: usize|
        game.spec_actor(state) == Actor::Agent(agent) ==> agent < game.spec_num_agents() && (
        #[trigger] game.spec_legal_actions(state, agent)).len() > 0
}

/// How many values a node has, and rows: one in a two-agent tree, every agent's otherwise.
pub open spec fn valued_agents(mode: TreeMode, n: nat) -> nat {
    if mode == TreeMode::SeqNegamax {
        1
    } else {
        n
    }
}

/// How many joint choices the tables from the `i`-th on leave.
pub open spec fn choices_from<N>(tables: Seq<TableModel<N>>, i: nat) -> nat
    decreases tables.len() - i,
{
    if i >= tables.len() {
        1
    } else {
        tables[i as int].arms.len() * choices_from(tables, i + 1)
    }
}

/// The visits of the first `n` arms.
pub open spec fn arm_visits<N>(arms: Seq<Arm<N>>, n: nat) -> nat
    decreases n,
{
    if n == 0 {
        0
    } else {
        arm_visits(arms, (n - 1) as nat) + arms[n - 1].visits as nat
    }
}

/// A table with something to choose, whose visits add up.
pub open spec fn table_sound<N>(t: TableModel<N>) -> bool {
    t.arms.len() > 0 && t.total_visits == arm_visits(t.arms, t.arms.len())
}

/// Where a link of node `i` leads, it leads behind that node, and keeps enough rewards.
pub open spec fn link_sound<N>(l: LinkModel<N>, i: int, len: nat, rewards: nat) -> bool {
    l.child matches Some(c) ==> i < c < len && l.rewards.len() >= rewards
}

/// A decision that can be taken: a table for its mover, or for everyone, and a link for every joint
/// choice.
pub open spec fn choice_sound<S, F, N>(
    mode: TreeMode,
    n: nat,
    len: nat,
    i: int,
    node: NodeModel<S, F, N>,
) -> bool {
    &&& node.kind is Simultaneous == (mode == TreeMode::Sim)
    &&& node.tables.len() == if mode == TreeMode::Sim {
        n
    } else {
        1
    }
    &&& forall|t: int| 0 <= t < node.tables.len() ==> table_sound(#[trigger] node.tables[t])
    &&& node.links.len() == choices_from(node.tables, 0)
    &&& forall|s: int|
        0 <= s < node.links.len() ==> link_sound(
            #[trigger] node.links[s],
            i,
            len,
            valued_agents(mode, n),
        )
    &&& node.values.len() == valued_agents(mode, n)
    &&& node.rows.len() == valued_agents(mode, n)
}

/// A chance state whose slots are those that the mode of expansion has.
pub open spec fn spot_sound<N: Scalar>(
    chance: ChanceMode,
    spot: ChanceSpotModel<N>,
    links: nat,
) -> bool {
    match chance {
        ChanceMode::Committed { .. } => spot.committed.len() == links && links > 0
            && spot.fan_weights.len() == 0 && links <= usize::MAX,
        ChanceMode::ExpandAll => {
            &&& spot.committed.len() == 0
            &&& spot.dist.count() <= MAX_ENUMERATED_OUTCOMES
            &&& links <= MAX_ENUMERATED_OUTCOMES
            &&& if spot.fan_weights.len() > 0 {
                spot.fan_weights.len() == links
            } else {
                links == 0 || links == spot.dist.count()
            }
        },
        ChanceMode::AlwaysResample => {
            &&& spot.committed.len() == 0
            &&& spot.fan_weights.len() == 0
            &&& links == 0
        },
    }
}

/// A node with everything in range, at index `i` of a tree of `len` nodes.
pub open spec fn node_sound<N: Scalar, G: Game<N>, F>(
    game: G,
    chance: ChanceMode,
    mode: TreeMode,
    n: nat,
    len: nat,
    i: int,
    node: NodeModel<G::State, F, N>,
) -> bool {
    match node.kind {
        KindModel::Chance(spot) => {
            &&& !node.terminal
            &&& game.spec_actor(node.state) == Actor::Chance
            &&& node.depth < i32::MAX
            &&& node.tables.len() == 0
            &&& node.rows.len() == 0
            &&& spot_sound(chance, spot, node.links.len())
            &&& forall|s: int|
                0 <= s < node.links.len() ==> link_sound(#[trigger] node.links[s], i, len, 0)
            &&& forall|k: usize| #[trigger]
                spot.resampled.contains_key(k) ==> i < spot.resampled[k] < len
        },
        _ => if node.terminal {
            node.tables.len() == 0 && node.rows.len() == 0
        } else {
            choice_sound(mode, n, len, i, node)
        },
    }
}

/// Every node of a tree is sound.
pub open spec fn arena_sound<
    N: Scalar,
    G: Game<N>,
    E: StateEncoder<State = G::State>,
    W: Reward<N, Event = G::Event>,
>(ctx: Ctx<N, G, E, W>, m: TreeModel<G::State, E::Feature, N>) -> bool {
    &&& m.n_agents == ctx.game.spec_num_agents()
    &&& m.n_agents > 0
    &&& m.arena.len() > 0
    &&& !(m.arena[0].kind is Chance)
    &&& !m.arena[0].terminal
    &&& forall|i: int|
        0 <= i < m.arena.len() ==> node_sound(
            *ctx.game,
            ctx.chance,
            m.mode,
            m.n_agents as nat,
            m.arena.len(),
            i,
            #[trigger] m.arena[i],
        )
}

pub(crate) proof fn lemma_best_arm<N: Scalar>(
    arms: Seq<Arm<N>>,
    total: u32,
    guidance: Guidance<N>,
    ln: N,
    i: nat,
    best: nat,
    top: N,
)
    requires
        best < arms.len(),
    ensures
        best_arm(arms, total, guidance, ln, i, best, top) < arms.len(),
    decreases arms.len() - i,
{
    if i < arms.len() {
        let score = arm_score(arms[i as int], total, guidance, ln);
        if top.spec_less(score) {
            lemma_best_arm(arms, total, guidance, ln, i + 1, i, score);
        } else {
            lemma_best_arm(arms, total, guidance, ln, i + 1, best, top);
        }
    }
}

/// No table has been visited more than `cap` times.
pub open spec fn tables_within<N>(tables: Seq<TableModel<N>>, cap: nat) -> bool {
    forall|t: int| 0 <= t < tables.len() ==> (#[trigger] tables[t]).total_visits <= cap
}

/// Sound tables choose one of their joint choices together. They are not at a loss for a logarithm
/// where the table of logarithms reaches far enough.
pub(crate) proof fn lemma_joint_choice<N: Scalar>(
    tables: Seq<TableModel<N>>,
    guidance: Guidance<N>,
    logs: Seq<N>,
    i: nat,
    acc: nat,
    cap: nat,
)
    requires
        forall|t: int| 0 <= t < tables.len() ==> table_sound(#[trigger] tables[t]),
        tables_within(tables, cap),
        guidance is Uct ==> 1 < logs.len() && cap < logs.len(),
    ensures
        match joint_choice(tables, guidance, logs, i, acc) {
            Ok(js) => js < (acc + 1) * choices_from(tables, i),
            Err(f) => f == Fault::JointLimit,
        },
    decreases tables.len() - i,
{
    if i < tables.len() {
        let t = tables[i as int];
        assert(table_sound(t) && t.total_visits <= cap);
        if let Ok(ln) = log_at(guidance, logs, t.total_visits) {
            lemma_best_arm(t.arms, t.total_visits, guidance, ln, 0, 0, N::spec_lowest());
            let l = t.arms.len();
            let pick = chosen_arm(t, guidance, ln);
            let next = acc * l + pick;
            let rest = choices_from(tables, i + 1);
            lemma_joint_choice(tables, guidance, logs, i + 1, next, cap);
            assert((next + 1) * rest <= (acc + 1) * (l * rest)) by (nonlinear_arith)
                requires
                    next == acc * l + pick,
                    pick < l,
                    0 <= rest,
            ;
        }
    } else {
        assert((acc + 1) * 1 == acc + 1);
    }
}

pub(crate) proof fn lemma_joint_width<N>(tables: Seq<TableModel<N>>, i: nat, acc: nat)
    ensures
        joint_width(tables, i, acc) matches Some(w) ==> w == acc * choices_from(tables, i),
    decreases tables.len() - i,
{
    if i < tables.len() {
        let l = tables[i as int].arms.len();
        let rest = choices_from(tables, i + 1);
        lemma_joint_width(tables, i + 1, acc * l);
        assert(acc * l * rest == acc * (l * rest)) by (nonlinear_arith);
    } else {
        assert(acc * 1 == acc);
    }
}

pub(crate) proof fn lemma_fresh_table<N: Scalar>(agent: usize, legal: Seq<usize>)
    requires
        legal.len() > 0,
    ensures
        table_sound(fresh_table::<N>(agent, legal)),
        fresh_table::<N>(agent, legal).total_visits == 0,
{
    lemma_no_visits(fresh_table::<N>(agent, legal).arms, legal.len());
}

pub(crate) proof fn lemma_no_visits<N>(arms: Seq<Arm<N>>, n: nat)
    requires
        n <= arms.len(),
        forall|i: int| 0 <= i < n ==> (#[trigger] arms[i]).visits == 0,
    ensures
        arm_visits(arms, n) == 0,
    decreases n,
{
    if n > 0 {
        lemma_no_visits(arms, (n - 1) as nat);
    }
}

pub(crate) proof fn lemma_fresh_choices<N: Scalar>(n: nat, i: int, len: nat, rewards: nat)
    ensures
        forall|s: int|
            0 <= s < fresh_links::<N>(n).len() ==> link_sound(
                #[trigger] fresh_links::<N>(n)[s],
                i,
                len,
                rewards,
            ),
        fresh_links::<N>(n).len() == n,
{
}

/// A new node: not yet linked to anything, and not yet visited.
pub open spec fn node_fresh<S, F, N>(node: NodeModel<S, F, N>) -> bool {
    &&& forall|s: int| 0 <= s < node.links.len() ==> (#[trigger] node.links[s]).child is None
    &&& node.kind matches KindModel::Chance(spot) ==> spot.resampled == Map::<usize, usize>::empty()
        && spot.fan_weights.len() == 0
    &&& forall|t: int| 0 <= t < node.tables.len() ==> (#[trigger] node.tables[t]).total_visits == 0
}

pub(crate) proof fn lemma_commitments<N: Scalar, R: Rng<N>>(
    dist: ChanceModel<N>,
    k: nat,
    j: nat,
    list: Seq<usize>,
    rng: R,
)
    requires
        j <= k,
        list.len() == j,
    ensures
        match commitments(dist, k, j, list, rng).0 {
            Ok(all) => all.len() == k,
            Err(f) => f == Fault::WeightTotal,
        },
    decreases k - j,
{
    if j < k {
        let (drawn, after) = dist.drawn(rng);
        if let Ok(outcome) = drawn {
            lemma_commitments(dist, k, j + 1, list.push(outcome), after);
        }
    }
}

/// A child is sound wherever it is put, and new.
pub(crate) proof fn lemma_child_node<
    N: Scalar,
    G: Game<N>,
    E: StateEncoder<State = G::State>,
    R: Rng<N>,
>(
    game: G,
    enc: E,
    mode: TreeMode,
    state: G::State,
    mover: usize,
    depth: i32,
    terminal: bool,
    chance: ChanceMode,
    rng: R,
    len: nat,
    i: int,
)
    requires
        lively::<N, G>(game),
        depth < i32::MAX,
        game.spec_num_agents() > 0,
    ensures
        match child_node::<N, G, E, R>(
            game,
            enc,
            mode,
            state,
            mover,
            depth,
            terminal,
            chance,
            rng,
        ).0 {
            Ok(node) => {
                &&& node_sound(
                    game,
                    chance,
                    mode,
                    game.spec_num_agents() as nat,
                    len,
                    i,
                    node,
                )
                &&& node_fresh(node)
                &&& node.kind is Chance ==> !terminal && game.spec_actor(state) == Actor::Chance
            },
            Err(f) => f != Fault::Tree && f != Fault::VisitCount,
        },
{
    let n = game.spec_num_agents() as nat;
    if !terminal {
        match game.spec_actor(state) {
            Actor::Agent(actor) => {
                let legal = game.spec_legal_actions(state, actor);
                lemma_fresh_table::<N>(actor, legal);
                let tables = seq![fresh_table::<N>(actor, legal)];
                assert(choices_from(tables, 1) == 1);
                assert(choices_from(tables, 0) == legal.len() * 1);
                lemma_fresh_choices::<N>(legal.len(), i, len, valued_agents(mode, n));
            },
            Actor::Simultaneous => {
                let tables = sim_tables::<N, G>(game, state, n);
                lemma_joint_width(tables, 0, 1);
                assert forall|t: int| 0 <= t < tables.len() implies table_sound(#[trigger] tables[t])
                    && tables[t].total_visits == 0 by {
                    lemma_fresh_table::<N>(t as usize, sim_legal(game, state, t as usize));
                }
                lemma_fresh_choices::<N>(choices_from(tables, 0), i, len, valued_agents(mode, n));
            },
            Actor::Chance => {
                let dist = game.spec_chance_node(state);
                if let ChanceMode::Committed { samples } = chance {
                    let k = if samples == 0 {
                        1
                    } else {
                        samples as nat
                    };
                    lemma_commitments(dist, k, 0, Seq::empty(), rng);
                }
            },
        }
    }
}

/// A fault that a sound tree is never stopped by in its growth.
pub open spec fn lost(f: Fault) -> bool {
    f == Fault::Tree || f == Fault::VisitCount
}

/// `b` is `a` with more below it.
pub open spec fn node_grows<S, F, N>(a: NodeModel<S, F, N>, b: NodeModel<S, F, N>) -> bool {
    &&& b.terminal == a.terminal
    &&& b.tables == a.tables
    &&& b.links.len() == a.links.len()
    &&& b.depth == a.depth
    &&& b.actor == a.actor
    &&& b.rows == a.rows
    &&& forall|s: int|
        #![trigger b.links[s]]
        #![trigger a.links[s]]
        0 <= s < a.links.len() && a.links[s].child is Some ==> b.links[s].child == a.links[s].child
    &&& match (a.kind, b.kind) {
        (KindModel::Chance(x), KindModel::Chance(y)) => forall|k: usize| #[trigger]
            x.resampled.contains_key(k) ==> y.resampled.contains_key(k) && y.resampled[k]
                == x.resampled[k],
        (KindModel::Decision, KindModel::Decision) => true,
        (KindModel::Simultaneous, KindModel::Simultaneous) => true,
        _ => false,
    }
}

/// `b` is `a` with more below its first `n` nodes, and other nodes that no simulation has passed.
pub open spec fn grows_upto<S, F, N>(
    a: TreeModel<S, F, N>,
    b: TreeModel<S, F, N>,
    n: nat,
) -> bool {
    &&& n <= a.arena.len() <= b.arena.len()
    &&& forall|i: int|
        #![trigger b.arena[i]]
        #![trigger a.arena[i]]
        0 <= i < n ==> node_grows(a.arena[i], b.arena[i])
    &&& forall|i: int|
        n <= i < b.arena.len() ==> tables_within((#[trigger] b.arena[i]).tables, 0)
    &&& b.mode == a.mode
    &&& b.n_agents == a.n_agents
    &&& b.sims == a.sims
    &&& b.pending == a.pending
}

/// `b` is `a` with more nodes.
pub open spec fn grows<S, F, N>(a: TreeModel<S, F, N>, b: TreeModel<S, F, N>) -> bool {
    grows_upto(a, b, a.arena.len())
}

pub(crate) proof fn lemma_grows_trans<S, F, N>(
    a: TreeModel<S, F, N>,
    b: TreeModel<S, F, N>,
    c: TreeModel<S, F, N>,
    n: nat,
)
    requires
        n <= a.arena.len(),
        grows_upto(a, b, n),
        grows_upto(b, c, n) || grows(b, c),
    ensures
        grows_upto(a, c, n),
{
    assert forall|i: int|
        #![trigger c.arena[i]]
        #![trigger a.arena[i]]
        0 <= i < n implies node_grows(a.arena[i], c.arena[i]) by {
        let (x, y, z) = (a.arena[i], b.arena[i], c.arena[i]);
        assert(node_grows(x, y) && node_grows(y, z));
        assert forall|s: int|
            #![trigger z.links[s]]
            #![trigger x.links[s]]
            0 <= s < x.links.len() && x.links[s].child is Some implies z.links[s].child
            == x.links[s].child by {
            assert(y.links[s].child == x.links[s].child);
        }
    }
    assert forall|i: int| n <= i < c.arena.len() implies tables_within(
        (#[trigger] c.arena[i]).tables,
        0,
    ) by {
        if i < b.arena.len() && grows(b, c) {
            assert(node_grows(b.arena[i], c.arena[i]));
            assert(tables_within(b.arena[i].tables, 0));
        }
    }
}

/// A choice on a path that led somewhere.
pub open spec fn step_sound<S, F, N>(m: TreeModel<S, F, N>, step: (usize, usize)) -> bool {
    &&& step.0 < m.arena.len()
    &&& {
        let node = m.arena[step.0 as int];
        if node.kind is Chance {
            chance_child(node, step.1) matches Ok(Some(c)) && c < m.arena.len()
        } else {
            !node.terminal && step.1 < node.links.len() && node.links[step.1 as int].child is Some
        }
    }
}

/// A path goes down from node to node.
pub open spec fn path_sound<S, F, N>(m: TreeModel<S, F, N>) -> bool {
    &&& forall|k: int| 0 <= k < m.path.len() ==> step_sound(m, #[trigger] m.path[k])
    &&& forall|k: int, l: int|
        0 <= k < l < m.path.len() ==> (#[trigger] m.path[k]).0 < (#[trigger] m.path[l]).0
}

pub(crate) proof fn lemma_step_grows<S, F, N>(
    a: TreeModel<S, F, N>,
    b: TreeModel<S, F, N>,
    step: (usize, usize),
)
    requires
        grows(a, b),
        step_sound(a, step),
    ensures
        step_sound(b, step),
{
    assert(node_grows(a.arena[step.0 as int], b.arena[step.0 as int]));
}

pub(crate) proof fn lemma_node_longer<N: Scalar, G: Game<N>, F>(
    game: G,
    chance: ChanceMode,
    mode: TreeMode,
    n: nat,
    len: nat,
    more: nat,
    i: int,
    node: NodeModel<G::State, F, N>,
)
    requires
        len <= more,
        node_sound(game, chance, mode, n, len, i, node),
    ensures
        node_sound(game, chance, mode, n, more, i, node),
{
    if !(node.kind is Chance) && !node.terminal {
        assert forall|s: int| 0 <= s < node.links.len() implies link_sound(
            #[trigger] node.links[s],
            i,
            more,
            valued_agents(mode, n),
        ) by {
            assert(link_sound(node.links[s], i, len, valued_agents(mode, n)));
        }
    }
}

/// A tree with one node replaced and one more is sound where both are.
pub(crate) proof fn lemma_pushed<
    N: Scalar,
    G: Game<N>,
    E: StateEncoder<State = G::State>,
    W: Reward<N, Event = G::Event>,
>(
    ctx: Ctx<N, G, E, W>,
    m: TreeModel<G::State, E::Feature, N>,
    ni: int,
    linked: NodeModel<G::State, E::Feature, N>,
    child: NodeModel<G::State, E::Feature, N>,
    next: TreeModel<G::State, E::Feature, N>,
)
    requires
        arena_sound(ctx, m),
        0 <= ni < m.arena.len(),
        next.arena == m.arena.update(ni, linked).push(child),
        next.mode == m.mode,
        next.n_agents == m.n_agents,
        next.sims == m.sims,
        next.pending == m.pending,
        node_grows(m.arena[ni], linked),
        node_sound(
            *ctx.game,
            ctx.chance,
            m.mode,
            m.n_agents as nat,
            m.arena.len() + 1,
            ni,
            linked,
        ),
        node_sound(
            *ctx.game,
            ctx.chance,
            m.mode,
            m.n_agents as nat,
            m.arena.len() + 1,
            m.arena.len() as int,
            child,
        ),
        tables_within(child.tables, 0),
    ensures
        arena_sound(ctx, next),
        grows(m, next),
{
    assert forall|i: int| 0 <= i < next.arena.len() implies node_sound(
        *ctx.game,
        ctx.chance,
        next.mode,
        next.n_agents as nat,
        next.arena.len(),
        i,
        #[trigger] next.arena[i],
    ) by {
        if i < m.arena.len() && i != ni {
            lemma_node_longer(
                *ctx.game,
                ctx.chance,
                m.mode,
                m.n_agents as nat,
                m.arena.len(),
                next.arena.len(),
                i,
                m.arena[i],
            );
        }
    }
    assert forall|i: int|
        #![trigger next.arena[i]]
        #![trigger m.arena[i]]
        0 <= i < m.arena.len() implies node_grows(m.arena[i], next.arena[i]) by {
        if i != ni {
            assert(next.arena[i] == m.arena[i]);
        }
    }
}

pub(crate) proof fn lemma_slot_drawn<N: Scalar>(
    spot: ChanceSpotModel<N>,
    chance: ChanceMode,
    rng: SplitMix64,
    links: nat,
)
    requires
        spot_sound(chance, spot, links),
        links <= usize::MAX,
    ensures
        match slot_drawn(spot, chance, rng).0 {
            Ok(slot) => (links == 0 || slot < links) && (spot.committed.len() == 0 || slot
                < spot.committed.len()),
            Err(f) => !lost(f),
        },
{
    if chance is Committed {
        let n = spot.committed.len() as usize;
        let next = vstd::wrapping::u64_specs::wrapping_add(rng@, crate::rng::GOLDEN);
        assert((crate::rng::mixed(next) % (n as u64)) < n);
    } else if spot.fan_weights.len() == 0 {
        if spot.dist.sound() && spot.dist.count() > 0 && links > 0 {
            law_pick_in_range(spot.dist, <SplitMix64 as Rng<N>>::spec_unit(rng).0);
        }
    } else {
        let unit = <SplitMix64 as Rng<N>>::spec_unit(rng).0;
        crate::rng::lemma_weight_scan_bound(
            spot.fan_weights,
            0,
            unit.spec_times(crate::num::spec_sum(spot.fan_weights)),
            0,
        );
    }
}

/// An outcome that was not there is added.
pub(crate) proof fn lemma_materialized<
    N: Scalar,
    G: Game<N>,
    E: StateEncoder<State = G::State>,
    W: Reward<N, Event = G::Event>,
>(
    ctx: Ctx<N, G, E, W>,
    m: TreeModel<G::State, E::Feature, N>,
    cni: int,
    slot: usize,
)
    requires
        lively::<N, G>(*ctx.game),
        arena_sound(ctx, m),
        0 <= cni < m.arena.len() <= usize::MAX,
        m.arena[cni].kind is Chance,
        chance_child(m.arena[cni], slot) == Ok::<Option<usize>, Fault>(None),
        m.arena[cni].kind->Chance_0.committed.len() == 0 || slot
            < m.arena[cni].kind->Chance_0.committed.len(),
    ensures
        match materialized(ctx, m, cni, slot) {
            Err(f) => !lost(f),
            Ok((c, grown)) => {
                &&& c == m.arena.len()
                &&& grown.arena.len() == m.arena.len() + 1
                &&& grown.path == m.path
                &&& arena_sound(ctx, grown)
                &&& grows(m, grown)
                &&& chance_child(grown.arena[cni], slot) == Ok::<_, Fault>(Some(c))
                &&& node_fresh(grown.arena[c as int])
            },
        },
{
    let node = m.arena[cni];
    let spot = node.kind->Chance_0;
    assert(node_sound(
        *ctx.game,
        ctx.chance,
        m.mode,
        m.n_agents as nat,
        m.arena.len(),
        cni,
        node,
    ));
    if let Ok(outcome) = slot_outcome(spot, slot) {
        let t = ctx.game.spec_apply_chance_node(node.state, outcome);
        if let Ok(chance_in) = agent_rewards(*ctx.reward, t.events, m.n_agents) {
            let len = m.arena.len();
            lemma_child_node::<N, G, E, SplitMix64>(
                *ctx.game,
                *ctx.enc,
                m.mode,
                t.next_state,
                node.actor,
                node.depth,
                t.terminal,
                ctx.chance,
                m.rng,
                len + 1,
                len as int,
            );
            let (child, rng) = child_node::<N, G, E, SplitMix64>(
                *ctx.game,
                *ctx.enc,
                m.mode,
                t.next_state,
                node.actor,
                node.depth,
                t.terminal,
                ctx.chance,
                m.rng,
            );
            let idx = len as usize;
            if let Ok(child) = child {
                let linked = slot_linked(node, spot, slot, idx)->Ok_0;
                lemma_node_longer(
                    *ctx.game,
                    ctx.chance,
                    m.mode,
                    m.n_agents as nat,
                    len,
                    len + 1,
                    cni,
                    node,
                );
                assert(node_sound(
                    *ctx.game,
                    ctx.chance,
                    m.mode,
                    m.n_agents as nat,
                    len + 1,
                    cni,
                    linked,
                ));
                let made = NodeModel { chance_in, ..child };
                assert(node_sound(
                    *ctx.game,
                    ctx.chance,
                    m.mode,
                    m.n_agents as nat,
                    len + 1,
                    len as int,
                    made,
                ));
                let (c, grown) = materialized(ctx, m, cni, slot)->Ok_0;
                lemma_pushed(ctx, m, cni, linked, made, grown);
            }
        }
    }
}

pub(crate) proof fn lemma_fan_seeds<N: Scalar, G: Game<N>, W: Reward<N, Event = G::Event>>(
    game: G,
    reward: W,
    n: usize,
    state: G::State,
    probs: Seq<N>,
    i: nat,
    acc: Seq<FanModel<G::State, N>>,
)
    requires
        i <= probs.len(),
        acc.len() == i,
    ensures
        match fan_seeds(game, reward, n, state, probs, i, acc) {
            Ok(seeds) => seeds.len() == probs.len(),
            Err(f) => !lost(f),
        },
    decreases probs.len() - i,
{
    if i < probs.len() {
        if let Ok(seed) = super::grow::fan_seed(game, reward, n, state, i as usize, probs[i as int]) {
            lemma_fan_seeds(game, reward, n, state, probs, i + 1, acc.push(seed));
        }
    }
}

pub(crate) proof fn lemma_fan_children_faults<
    N: Scalar,
    G: Game<N>,
    W: Reward<N, Event = G::Event>,
>(
    game: G,
    reward: W,
    n: usize,
    w: FanModel<G::State, N>,
    probs: Seq<N>,
    i: nat,
    stack: Seq<FanModel<G::State, N>>,
)
    ensures
        fan_children(game, reward, n, w, probs, i, stack) matches Err(f) ==> !lost(f),
    decreases probs.len() - i,
{
    if i < probs.len() {
        if let Ok(c) = fan_child(game, reward, n, w, i as usize, probs[i as int]) {
            lemma_fan_children_faults(game, reward, n, w, probs, i + 1, stack.push(c));
        }
    }
}

pub(crate) proof fn lemma_fan_bound<N: Scalar, G: Game<N>, W: Reward<N, Event = G::Event>>(
    game: G,
    reward: W,
    n: usize,
    leaves: Seq<FanModel<G::State, N>>,
    stack: Seq<FanModel<G::State, N>>,
    chained: bool,
)
    requires
        leaves.len() + stack.len() <= MAX_ENUMERATED_OUTCOMES,
    ensures
        match flattened(game, reward, n, leaves, stack, chained) {
            Ok((out, _)) => out.len() <= MAX_ENUMERATED_OUTCOMES,
            Err(f) => !lost(f),
        },
    decreases stack_rank(stack),
{
    if stack.len() > 0 {
        let w = stack.last();
        let rest = stack.drop_last();
        if !chance_due(game, w) {
            lemma_rank_positive(w.hops as nat);
            lemma_fan_bound(game, reward, n, leaves.push(w), rest, chained);
        } else if w.hops < CHANCE_CHAIN_LIMIT {
            lemma_fan_unfolded(game, reward, n, w, leaves.len(), rest);
            lemma_fan_children_faults(
                game,
                reward,
                n,
                w,
                game.spec_chance_node(w.state).probs(),
                0,
                rest,
            );
            if let Ok(more) = fan_unfolded(game, reward, n, w, leaves.len(), rest) {
                lemma_fan_bound(game, reward, n, leaves, more, true);
            }
        }
    }
}

/// Every outcome of chance node `cni` is there, and none is a chance state.
pub open spec fn fan_ready<S, F, N>(m: TreeModel<S, F, N>, cni: int) -> bool {
    &&& 0 <= cni < m.arena.len()
    &&& m.arena[cni].kind is Chance
    &&& m.arena[cni].links.len() <= MAX_ENUMERATED_OUTCOMES
    &&& fan_ready_upto(m, cni, m.arena[cni].links.len())
}

/// The first `n` outcomes of chance node `cni` are there, and none is a chance state.
pub open spec fn fan_ready_upto<S, F, N>(m: TreeModel<S, F, N>, cni: int, n: nat) -> bool {
    forall|s: int|
        0 <= s < n ==> ((#[trigger] m.arena[cni].links[s]).child matches Some(c) && c
            < m.arena.len() && !(m.arena[c as int].kind is Chance))
}

pub(crate) proof fn lemma_fan_attached<
    N: Scalar,
    G: Game<N>,
    E: StateEncoder<State = G::State>,
    W: Reward<N, Event = G::Event>,
>(
    ctx: Ctx<N, G, E, W>,
    cni: int,
    leaves: Seq<FanModel<G::State, N>>,
    slot: nat,
    m: TreeModel<G::State, E::Feature, N>,
)
    requires
        lively::<N, G>(*ctx.game),
        arena_sound(ctx, m),
        leaves.len() <= MAX_ENUMERATED_OUTCOMES,
        0 <= cni < m.arena.len(),
        m.arena.len() + (leaves.len() - slot) <= usize::MAX,
        m.arena[cni].kind is Chance,
        m.arena[cni].links.len() == leaves.len(),
        slot <= leaves.len(),
        fan_ready_upto(m, cni, slot),
        forall|s: int|
            slot <= s < leaves.len() ==> (#[trigger] m.arena[cni].links[s]).child is None,
        forall|s: int| 0 <= s < leaves.len() ==> !chance_due(*ctx.game, #[trigger] leaves[s]),
    ensures
        match fan_attached(ctx, cni, leaves, slot, m) {
            Err(f) => !lost(f),
            Ok(done) => {
                &&& arena_sound(ctx, done)
                &&& grows(m, done)
                &&& fan_ready(done, cni)
                &&& done.path == m.path
                &&& done.arena.len() == m.arena.len() + (leaves.len() - slot)
            },
        },
    decreases leaves.len() - slot,
{
    if slot < leaves.len() {
        let leaf = leaves[slot as int];
        let node = m.arena[cni];
        let len = m.arena.len();
        let idx = len as usize;
        assert(node_sound(
            *ctx.game,
            ctx.chance,
            m.mode,
            m.n_agents as nat,
            len,
            cni,
            node,
        ));
        lemma_child_node::<N, G, E, SplitMix64>(
            *ctx.game,
            *ctx.enc,
            m.mode,
            leaf.state,
            node.actor,
            node.depth,
            leaf.terminal,
            ctx.chance,
            m.rng,
            len + 1,
            len as int,
        );
        let (child, rng) = child_node::<N, G, E, SplitMix64>(
            *ctx.game,
            *ctx.enc,
            m.mode,
            leaf.state,
            node.actor,
            node.depth,
            leaf.terminal,
            ctx.chance,
            m.rng,
        );
        if let Ok(child) = child {
            let linked = NodeModel {
                links: node.links.update(
                    slot as int,
                    LinkModel { child: Some(idx), ..node.links[slot as int] },
                ),
                ..node
            };
            let made = NodeModel { chance_in: leaf.rewards, ..child };
            let next = TreeModel { arena: m.arena.update(cni, linked).push(made), rng, ..m };
            lemma_node_longer(
                *ctx.game,
                ctx.chance,
                m.mode,
                m.n_agents as nat,
                len,
                len + 1,
                cni,
                node,
            );
            assert(node_sound(
                *ctx.game,
                ctx.chance,
                m.mode,
                m.n_agents as nat,
                len + 1,
                cni,
                linked,
            ));
            assert(node_sound(
                *ctx.game,
                ctx.chance,
                m.mode,
                m.n_agents as nat,
                len + 1,
                len as int,
                made,
            ));
            assert(!chance_due(*ctx.game, leaf));
            lemma_pushed(ctx, m, cni, linked, made, next);
            assert(next.arena[cni] == linked);
            assert forall|s: int| 0 <= s < slot + 1 implies ((
            #[trigger] next.arena[cni].links[s]).child matches Some(c) && c < next.arena.len()
                && !(next.arena[c as int].kind is Chance)) by {
                if s < slot {
                    let c = m.arena[cni].links[s].child->Some_0;
                    assert(m.arena[cni].links[s].child is Some);
                    assert(linked.links[s] == node.links[s]);
                    if c != cni {
                        assert(next.arena[c as int] == m.arena[c as int]);
                    }
                } else {
                    assert(linked.links[s].child == Some(idx));
                    assert(next.arena[len as int] == made);
                }
            }
            assert forall|s: int| slot + 1 <= s < leaves.len() implies (
            #[trigger] next.arena[cni].links[s]).child is None by {
                assert(m.arena[cni].links[s].child is None);
            }
            lemma_fan_attached(ctx, cni, leaves, slot + 1, next);
            if let Ok(done) = fan_attached(ctx, cni, leaves, slot + 1, next) {
                lemma_grows_trans(m, next, done, m.arena.len());
            }
        }
    }
}

/// A new chance node, the last of its tree, gets all its outcomes.
pub(crate) proof fn lemma_fanned<
    N: Scalar,
    G: Game<N>,
    E: StateEncoder<State = G::State>,
    W: Reward<N, Event = G::Event>,
>(
    ctx: Ctx<N, G, E, W>,
    m: TreeModel<G::State, E::Feature, N>,
    cni: int,
)
    requires
        lively::<N, G>(*ctx.game),
        ctx.chance == ChanceMode::ExpandAll,
        arena_sound(ctx, m),
        0 < cni == m.arena.len() - 1,
        m.arena.len() + MAX_ENUMERATED_OUTCOMES <= usize::MAX,
        m.arena[cni].kind is Chance,
        node_fresh(m.arena[cni]),
    ensures
        match fanned(ctx, m, cni) {
            Err(f) => !lost(f),
            Ok(done) => {
                &&& arena_sound(ctx, done)
                &&& grows_upto(m, done, cni as nat)
                &&& fan_ready(done, cni)
                &&& done.path == m.path
                &&& done.arena.len() <= m.arena.len() + MAX_ENUMERATED_OUTCOMES
            },
        },
{
    let node = m.arena[cni];
    let spot = node.kind->Chance_0;
    let game = *ctx.game;
    assert(node_sound(game, ctx.chance, m.mode, m.n_agents as nat, m.arena.len(), cni, node));
    let probs = spot.dist.probs();
    assert(probs.len() == spot.dist.count());
    lemma_fan_seeds(game, *ctx.reward, m.n_agents, node.state, probs, 0, Seq::empty());
    if let Ok(seeds) = fan_seeds(
        game,
        *ctx.reward,
        m.n_agents,
        node.state,
        probs,
        0,
        Seq::empty(),
    ) {
        let none: Seq<FanModel<G::State, N>> = Seq::empty();
        if spot.dist.count() <= MAX_ENUMERATED_OUTCOMES {
            lemma_fan_bound(game, *ctx.reward, m.n_agents, none, seeds.reverse(), false);
        }
        law_fan_ends_in_decisions(game, *ctx.reward, m.n_agents, seeds);
        if let Ok((leaves, chained)) = fan_of(game, *ctx.reward, m.n_agents, seeds) {
            let widened = NodeModel {
                links: fresh_links(leaves.len()),
                kind: KindModel::Chance(
                    ChanceSpotModel {
                        fan_weights: if chained {
                            fan_probs(leaves)
                        } else {
                            spot.fan_weights
                        },
                        ..spot
                    },
                ),
                ..node
            };
            let mid = with_node(m, cni, widened);
            assert forall|i: int| 0 <= i < mid.arena.len() implies node_sound(
                game,
                ctx.chance,
                mid.mode,
                mid.n_agents as nat,
                mid.arena.len(),
                i,
                #[trigger] mid.arena[i],
            ) by {
                assert(node_sound(
                    game,
                    ctx.chance,
                    m.mode,
                    m.n_agents as nat,
                    m.arena.len(),
                    i,
                    m.arena[i],
                ));
            }
            lemma_fan_attached(ctx, cni, leaves, 0, mid);
            if let Ok(done) = fan_attached(ctx, cni, leaves, 0, mid) {
                assert forall|i: int|
                    #![trigger mid.arena[i]]
                    #![trigger m.arena[i]]
                    0 <= i < cni implies node_grows(m.arena[i], mid.arena[i]) by {
                    assert(mid.arena[i] == m.arena[i]);
                }
                assert(grows_upto(m, mid, cni as nat));
                lemma_grows_trans(m, mid, done, cni as nat);
            }
        }
    }
}

pub(crate) proof fn lemma_link_move<N>(
    tables: Seq<TableModel<N>>,
    i: nat,
    rem: nat,
    joint: Seq<usize>,
)
    requires
        i <= tables.len(),
        forall|t: int| 0 <= t < tables.len() ==> table_sound(#[trigger] tables[t]),
    ensures
        link_move(tables, i, rem, joint) matches Err(f) ==> !lost(f),
    decreases i,
{
    if i > 0 {
        let t = tables[i - 1];
        assert(table_sound(t));
        if t.agent < joint.len() {
            lemma_link_move(
                tables,
                (i - 1) as nat,
                rem / t.arms.len(),
                joint.update(t.agent as int, t.arms[(rem % t.arms.len()) as int].action),
            );
        }
    }
}

/// How many nodes a simulation adds at most.
pub open spec fn growth() -> nat {
    (CHANCE_CHAIN_LIMIT + MAX_ENUMERATED_OUTCOMES + 2) as nat
}

/// A link that was not taken before is taken.
pub(crate) proof fn lemma_expanded<
    N: Scalar,
    G: Game<N>,
    E: StateEncoder<State = G::State>,
    W: Reward<N, Event = G::Event>,
>(
    ctx: Ctx<N, G, E, W>,
    m: TreeModel<G::State, E::Feature, N>,
    ni: int,
    js: usize,
)
    requires
        lively::<N, G>(*ctx.game),
        arena_sound(ctx, m),
        0 <= ni < m.arena.len(),
        m.arena.len() + MAX_ENUMERATED_OUTCOMES + 1 <= usize::MAX,
        !(m.arena[ni].kind is Chance),
        !m.arena[ni].terminal,
        m.arena[ni].depth < i32::MAX,
        js < m.arena[ni].links.len(),
        m.arena[ni].links[js as int].child is None,
    ensures
        match spec_expand(ctx, m, ni, js) {
            Err(f) => !lost(f),
            Ok((e, grown)) => {
                let c = added_index(e);
                &&& c == m.arena.len()
                &&& arena_sound(ctx, grown)
                &&& grows(m, grown)
                &&& grown.path == m.path
                &&& m.arena.len() < grown.arena.len() <= m.arena.len() + 1
                    + MAX_ENUMERATED_OUTCOMES
                &&& grown.arena[ni].links[js as int].child == Some(c)
                &&& match e {
                    Expanded::Leaf(_) => !(grown.arena[c as int].kind is Chance),
                    Expanded::Chance(_) => grown.arena[c as int].kind is Chance && node_fresh(
                        grown.arena[c as int],
                    ) && grown.arena.len() == m.arena.len() + 1,
                    Expanded::Fan(_) => fan_ready(grown, c as int),
                }
            },
        },
{
    let game = *ctx.game;
    let node = m.arena[ni];
    let len = m.arena.len();
    let n = m.n_agents as nat;
    assert(node_sound(game, ctx.chance, m.mode, n, len, ni, node));
    let still = spec_filled(0usize, ctx.game.spec_num_agents() as nat);
    lemma_link_move(node.tables, node.tables.len(), js as nat, still);
    if let Ok(joint) = link_move(node.tables, node.tables.len(), js as nat, still) {
        let t = ctx.game.spec_step(node.state, joint);
        if let Ok(rewards) = link_rewards(*ctx.reward, t.events, m.mode, node.actor, m.n_agents) {
            assert(rewards.len() >= valued_agents(m.mode, n));
            lemma_child_node::<N, G, E, SplitMix64>(
                game,
                *ctx.enc,
                m.mode,
                t.next_state,
                node.actor,
                node.depth,
                t.terminal,
                ctx.chance,
                m.rng,
                len + 1,
                len as int,
            );
            let (child, rng) = child_node::<N, G, E, SplitMix64>(
                game,
                *ctx.enc,
                m.mode,
                t.next_state,
                node.actor,
                node.depth,
                t.terminal,
                ctx.chance,
                m.rng,
            );
            if let Ok(child) = child {
                let idx = len as usize;
                let linked = NodeModel {
                    links: node.links.update(js as int, LinkModel { child: Some(idx), rewards }),
                    ..node
                };
                let next = TreeModel { arena: m.arena.update(ni, linked).push(child), rng, ..m };
                lemma_node_longer(game, ctx.chance, m.mode, n, len, len + 1, ni, node);
                assert forall|s: int| 0 <= s < linked.links.len() implies link_sound(
                    #[trigger] linked.links[s],
                    ni,
                    len + 1,
                    valued_agents(m.mode, n),
                ) by {
                    if s != js {
                        assert(linked.links[s] == node.links[s]);
                    }
                }
                assert(node_sound(game, ctx.chance, m.mode, n, len + 1, ni, linked));
                lemma_pushed(ctx, m, ni, linked, child, next);
                assert(next.arena[len as int] == child);
                assert(next.arena[ni] == linked);
                if child.kind is Chance && ctx.chance == ChanceMode::ExpandAll {
                    lemma_fanned(ctx, next, idx as int);
                    if let Ok(done) = fanned(ctx, next, idx as int) {
                        assert(grows_upto(next, done, len));
                        lemma_grows_trans(m, next, done, len);
                        assert(node_grows(linked, done.arena[ni]));
                        assert(linked.links[js as int].child is Some);
                    }
                }
            }
        }
    }
}

/// No table of a tree has been visited more than `cap` times.
pub open spec fn within<S, F, N>(m: TreeModel<S, F, N>, cap: nat) -> bool {
    forall|i: int| 0 <= i < m.arena.len() ==> tables_within((#[trigger] m.arena[i]).tables, cap)
}

/// A simulation has come to its end.
pub open spec fn end_sound<S, F, N>(m: TreeModel<S, F, N>, reached: Reached) -> bool {
    &&& m.leaf < m.arena.len()
    &&& path_sound(m)
    &&& match reached {
        Reached::Terminal => true,
        Reached::Fan => fan_ready(m, m.leaf as int),
        _ => !(m.arena[m.leaf as int].kind is Chance) && !m.arena[m.leaf as int].terminal,
    }
}

/// Where a simulation goes down from a decision at all.
pub open spec fn goes_down<
    N: Scalar,
    G: Game<N>,
    E: StateEncoder<State = G::State>,
    W: Reward<N, Event = G::Event>,
>(ctx: Ctx<N, G, E, W>, node: NodeModel<G::State, E::Feature, N>) -> bool {
    &&& !node.terminal
    &&& !(ctx.guidance is Puct && !evaluated(node))
    &&& node.depth < ctx.max_depth
}

/// The table of logarithms reaches as far as `cap` visits.
pub open spec fn logs_reach<
    N: Scalar,
    G: Game<N>,
    E: StateEncoder<State = G::State>,
    W: Reward<N, Event = G::Event>,
>(ctx: Ctx<N, G, E, W>, cap: nat) -> bool {
    ctx.guidance is Uct ==> 1 < ctx.logs@.len() && cap < ctx.logs@.len()
}

pub(crate) proof fn lemma_path_step<S, F, N>(
    a: TreeModel<S, F, N>,
    b: TreeModel<S, F, N>,
    ni: usize,
    slot: usize,
)
    requires
        path_sound(a),
        forall|k: int| 0 <= k < a.path.len() ==> (#[trigger] a.path[k]).0 < ni,
        grows(a, b),
        b.path == a.path.push((ni, slot)),
        step_sound(b, (ni, slot)),
    ensures
        path_sound(b),
        forall|k: int| 0 <= k < b.path.len() ==> (#[trigger] b.path[k]).0 <= ni,
{
    assert forall|k: int| 0 <= k < b.path.len() implies step_sound(b, #[trigger] b.path[k]) by {
        if k < a.path.len() {
            assert(b.path[k] == a.path[k]);
            lemma_step_grows(a, b, a.path[k]);
        }
    }
    assert forall|k: int, l: int| 0 <= k < l < b.path.len() implies (#[trigger] b.path[k]).0 < (
    #[trigger] b.path[l]).0 by {
        assert(b.path[k] == a.path[k]);
        if l < a.path.len() {
            assert(b.path[l] == a.path[l]);
        }
    }
}

pub(crate) proof fn lemma_within_grows<S, F, N>(
    a: TreeModel<S, F, N>,
    b: TreeModel<S, F, N>,
    cap: nat,
)
    requires
        grows(a, b),
        within(a, cap),
    ensures
        within(b, cap),
{
    assert forall|i: int| 0 <= i < b.arena.len() implies tables_within(
        (#[trigger] b.arena[i]).tables,
        cap,
    ) by {
        if i < a.arena.len() {
            assert(node_grows(a.arena[i], b.arena[i]));
            assert(tables_within(a.arena[i].tables, cap));
        } else {
            assert(tables_within(b.arena[i].tables, 0));
        }
    }
}

/// A simulation goes down a sound tree to a sound end, and leaves a sound tree.
#[verifier::spinoff_prover]
#[verifier::rlimit(60)]
pub(crate) proof fn lemma_descended<
    N: Scalar,
    G: Game<N>,
    E: StateEncoder<State = G::State>,
    W: Reward<N, Event = G::Event>,
>(
    ctx: Ctx<N, G, E, W>,
    m: TreeModel<G::State, E::Feature, N>,
    ni: usize,
    hops: nat,
    len: nat,
    cap: nat,
)
    requires
        lively::<N, G>(*ctx.game),
        arena_sound(ctx, m),
        within(m, cap),
        logs_reach(ctx, cap),
        path_sound(m),
        forall|k: int| 0 <= k < m.path.len() ==> (#[trigger] m.path[k]).0 < ni,
        ni < m.arena.len(),
        m.arena.len() == len || (m.arena[ni as int].kind is Chance && node_fresh(
            m.arena[ni as int],
        )),
        len <= m.arena.len() <= len + 1 + hops,
        hops <= CHANCE_CHAIN_LIMIT,
        len + growth() <= usize::MAX,
    ensures
        match descended(ctx, m, ni, hops, len) {
            Err(f) => !lost(f),
            Ok((reached, grown)) => {
                &&& arena_sound(ctx, grown)
                &&& grows(m, grown)
                &&& end_sound(grown, reached)
                &&& grown.arena.len() <= len + growth()
                &&& grown.path.len() >= m.path.len()
                &&& forall|k: int|
                    0 <= k < m.path.len() ==> #[trigger] grown.path[k] == m.path[k]
                &&& grown.path.len() > m.path.len() ==> grown.path[m.path.len() as int].0 == ni
                &&& !(m.arena[ni as int].kind is Chance) ==> (grown.path.len() > m.path.len()
                    <==> goes_down(ctx, m.arena[ni as int]))
                &&& !(m.arena[ni as int].kind is Chance) && grown.path.len() == m.path.len()
                    ==> grown.leaf == ni && (!m.arena[ni as int].terminal && ctx.guidance is Puct
                    && !evaluated(m.arena[ni as int]) ==> reached == Reached::Eval)
            },
        },
    decreases
            (if ni < len {
                len - ni
            } else {
                0
            }),
            CHANCE_CHAIN_LIMIT + 1 - hops,
{
    let game = *ctx.game;
    let node = m.arena[ni as int];
    let n = m.n_agents as nat;
    assert(node_sound(game, ctx.chance, m.mode, n, m.arena.len(), ni as int, node));
    match node.kind {
        KindModel::Chance(spot) => {
            if hops < CHANCE_CHAIN_LIMIT {
                lemma_links_fit(ctx.chance, spot, node.links.len());
                lemma_slot_drawn(spot, ctx.chance, m.rng, node.links.len());
                let (drawn, rng) = slot_drawn(spot, ctx.chance, m.rng);
                if let Ok(slot) = drawn {
                    let next = stepped(TreeModel { rng, ..m }, ni, slot);
                    assert(arena_sound(ctx, next));
                    assert(grows(m, next)) by {
                        assert(next.arena == m.arena);
                        lemma_grows_here(m, next, cap);
                    }
                    let found = chance_child(node, slot);
                    if let Ok(Some(c)) = found {
                        assert(ni < c < m.arena.len());
                        assert(m.arena.len() == len);
                        lemma_path_step(m, next, ni, slot);
                        assert(within(next, cap));
                        lemma_descended(ctx, next, c, hops + 1, len, cap);
                        if let Ok((reached, grown)) = descended(ctx, next, c, hops + 1, len) {
                            lemma_grows_trans(m, next, grown, m.arena.len());
                            lemma_prefix(m.path, next.path, grown.path, (ni, slot));
                        }
                    } else if found == Ok::<Option<usize>, Fault>(None) {
                        lemma_materialized(ctx, next, ni as int, slot);
                        if let Ok((c, grown)) = materialized(ctx, next, ni as int, slot) {
                            lemma_grows_trans(m, next, grown, m.arena.len());
                            lemma_within_grows(m, grown, cap);
                            lemma_path_step(m, grown, ni, slot);
                            if grown.arena[c as int].kind is Chance {
                                lemma_descended(ctx, grown, c, hops + 1, len, cap);
                                if let Ok((reached, done)) = descended(
                                    ctx,
                                    grown,
                                    c,
                                    hops + 1,
                                    len,
                                ) {
                                    lemma_grows_trans(m, grown, done, m.arena.len());
                                    lemma_prefix(m.path, grown.path, done.path, (ni, slot));
                                }
                            } else {
                                let done = ended(grown, c);
                                lemma_same_tree(ctx, grown, done, cap);
                                lemma_grows_trans(m, grown, done, m.arena.len());
                            }
                        }
                    }
                }
            }
        },
        _ => {
            let seen = TreeModel {
                max_depth_seen: if m.max_depth_seen < node.depth {
                    node.depth
                } else {
                    m.max_depth_seen
                },
                ..m
            };
            lemma_same_tree(ctx, m, seen, cap);
            lemma_same_tree(ctx, m, ended(seen, ni), cap);
            if goes_down(ctx, node) {
                assert(tables_within(node.tables, cap));
                lemma_joint_choice(node.tables, ctx.guidance, ctx.logs@, 0, 0, cap);
                assert(1 * choices_from(node.tables, 0) == choices_from(node.tables, 0));
                if let Ok(js) = joint_choice(node.tables, ctx.guidance, ctx.logs@, 0, 0) {
                    assert(js < node.links.len());
                    lemma_joint_small(node.tables, ctx.guidance, ctx.logs@, 0, 0);
                    let next = stepped(seen, ni, js as usize);
                    assert(next.arena == m.arena);
                    assert(arena_sound(ctx, next));
                    lemma_grows_here(m, next, cap);
                    match node.links[js as int].child {
                        Some(c) => {
                            assert(link_sound(
                                node.links[js as int],
                                ni as int,
                                m.arena.len(),
                                valued_agents(m.mode, n),
                            ));
                            lemma_path_step(m, next, ni, js as usize);
                            lemma_descended(ctx, next, c, 0, len, cap);
                            if let Ok((reached, grown)) = descended(ctx, next, c, 0, len) {
                                lemma_grows_trans(m, next, grown, m.arena.len());
                                lemma_prefix(m.path, next.path, grown.path, (ni, js as usize));
                            }
                        },
                        None => {
                            lemma_expanded(ctx, next, ni as int, js as usize);
                            if let Ok((e, grown)) = spec_expand(ctx, next, ni as int, js as usize) {
                                let c = added_index(e);
                                lemma_grows_trans(m, next, grown, m.arena.len());
                                lemma_within_grows(m, grown, cap);
                                assert(node_grows(m.arena[ni as int], grown.arena[ni as int]));
                                lemma_path_step(m, grown, ni, js as usize);
                                if e is Chance {
                                    lemma_descended(ctx, grown, c, 0, len, cap);
                                    if let Ok((reached, done)) = descended(
                                        ctx,
                                        grown,
                                        c,
                                        0,
                                        len,
                                    ) {
                                        lemma_grows_trans(m, grown, done, m.arena.len());
                                        lemma_prefix(
                                            m.path,
                                            grown.path,
                                            done.path,
                                            (ni, js as usize),
                                        );
                                    }
                                } else {
                                    let done = ended(grown, c);
                                    lemma_same_tree(ctx, grown, done, cap);
                                    lemma_grows_trans(m, grown, done, m.arena.len());
                                }
                            }
                        },
                    }
                }
            }
        },
    }
}

pub(crate) proof fn lemma_links_fit<N: Scalar>(
    chance: ChanceMode,
    spot: ChanceSpotModel<N>,
    links: nat,
)
    requires
        spot_sound(chance, spot, links),
    ensures
        links <= usize::MAX,
{
}

pub(crate) proof fn lemma_grows_here<S, F, N>(
    a: TreeModel<S, F, N>,
    b: TreeModel<S, F, N>,
    cap: nat,
)
    requires
        b.arena == a.arena,
        b.mode == a.mode,
        b.n_agents == a.n_agents,
        b.sims == a.sims,
        b.pending == a.pending,
    ensures
        grows(a, b),
        within(a, cap) ==> within(b, cap),
{
}

pub(crate) proof fn lemma_same_tree<
    N: Scalar,
    G: Game<N>,
    E: StateEncoder<State = G::State>,
    W: Reward<N, Event = G::Event>,
>(
    ctx: Ctx<N, G, E, W>,
    a: TreeModel<G::State, E::Feature, N>,
    b: TreeModel<G::State, E::Feature, N>,
    cap: nat,
)
    requires
        arena_sound(ctx, a),
        b.arena == a.arena,
        b.mode == a.mode,
        b.n_agents == a.n_agents,
        b.sims == a.sims,
        b.pending == a.pending,
    ensures
        arena_sound(ctx, b),
        grows(a, b),
        within(a, cap) ==> within(b, cap),
        b.path == a.path && path_sound(a) ==> path_sound(b),
{
    if b.path == a.path && path_sound(a) {
        assert forall|k: int| 0 <= k < b.path.len() implies step_sound(b, #[trigger] b.path[k]) by {
            assert(step_sound(a, a.path[k]));
        }
    }
}

pub(crate) proof fn lemma_prefix(
    a: Seq<(usize, usize)>,
    b: Seq<(usize, usize)>,
    c: Seq<(usize, usize)>,
    step: (usize, usize),
)
    requires
        b == a.push(step),
        c.len() >= b.len(),
        forall|k: int| 0 <= k < b.len() ==> #[trigger] c[k] == b[k],
    ensures
        c.len() > a.len(),
        forall|k: int| 0 <= k < a.len() ==> #[trigger] c[k] == a[k],
        c[a.len() as int] == step,
{
    assert(c[a.len() as int] == b[a.len() as int]);
    assert forall|k: int| 0 <= k < a.len() implies #[trigger] c[k] == a[k] by {
        assert(c[k] == b[k]);
    }
}

pub(crate) proof fn lemma_joint_small<N: Scalar>(
    tables: Seq<TableModel<N>>,
    guidance: Guidance<N>,
    logs: Seq<N>,
    i: nat,
    acc: nat,
)
    requires
        acc <= MAX_JOINT_SLOTS,
    ensures
        joint_choice(tables, guidance, logs, i, acc) matches Ok(js) ==> js <= MAX_JOINT_SLOTS,
    decreases tables.len() - i,
{
    if i < tables.len() {
        let t = tables[i as int];
        if let Ok(ln) = log_at(guidance, logs, t.total_visits) {
            let next = acc * t.arms.len() + chosen_arm(t, guidance, ln);
            if next <= MAX_JOINT_SLOTS {
                lemma_joint_small(tables, guidance, logs, i + 1, next);
            }
        }
    }
}

} // verus!
