//! A backup visits every decision of its path once more, and leaves the tree sound.

use vstd::prelude::*;

#[allow(unused_imports)]
use super::backup::{
    any_reward, chance_passed, choice_up, choice_values, credited, fan_actor, fan_backed_up,
    fan_kid, fan_mix, fan_weights, joint_credited, kid_values, leaf_valued, mixed_in, negamax_up,
    no_values, spec_backprop, spec_backup, vector_up,
};
#[allow(unused_imports)]
use super::fan::added;
#[allow(unused_imports)]
use super::grow::{evaluated, with_node, Ctx};
#[allow(unused_imports)]
use super::sound::{
    arena_sound, arm_visits, choices_from, fan_ready, link_sound, node_sound, path_sound,
    step_sound, table_sound, valued_agents,
};
#[allow(unused_imports)]
use super::tree::{Arm, NodeModel, TableModel, TreeMode, TreeModel};
#[allow(unused_imports)]
use crate::encoder::StateEncoder;
#[allow(unused_imports)]
use crate::fault::Fault;
#[allow(unused_imports)]
use crate::game::Game;
#[allow(unused_imports)]
use crate::num::Scalar;
#[allow(unused_imports)]
use crate::reward::Reward;
#[allow(unused_imports)]
use crate::util::spec_filled;

verus! {

/// `b` is `a` after one more visit.
pub open spec fn table_bumped<N>(a: TableModel<N>, b: TableModel<N>) -> bool {
    &&& b.agent == a.agent
    &&& b.evaluated == a.evaluated
    &&& b.arms.len() == a.arms.len()
    &&& b.total_visits == a.total_visits + 1
    &&& table_sound(b)
}

/// `b` is `a` with its first `n` tables visited once more.
pub open spec fn node_bumped<S, F, N>(
    a: NodeModel<S, F, N>,
    b: NodeModel<S, F, N>,
    n: nat,
) -> bool {
    &&& b == (NodeModel { tables: b.tables, ..a })
    &&& b.tables.len() == a.tables.len()
    &&& forall|t: int|
        #![trigger b.tables[t]]
        0 <= t < a.tables.len() ==> if t < n {
            table_bumped(a.tables[t], b.tables[t])
        } else {
            b.tables[t] == a.tables[t]
        }
}

pub(crate) proof fn lemma_arm_visited<N>(arms: Seq<Arm<N>>, a: int, arm: Arm<N>, n: nat)
    requires
        0 <= a < arms.len(),
        arm.visits == arms[a].visits + 1,
        n <= arms.len(),
    ensures
        arm_visits(arms.update(a, arm), n) == arm_visits(arms, n) + if a < n {
            1nat
        } else {
            0nat
        },
    decreases n,
{
    if n > 0 {
        lemma_arm_visited(arms, a, arm, (n - 1) as nat);
    }
}

pub(crate) proof fn lemma_credited<S, F, N: Scalar>(node: NodeModel<S, F, N>, ti: nat, a: nat, q: N)
    requires
        ti < node.tables.len(),
        table_sound(node.tables[ti as int]),
        a < node.tables[ti as int].arms.len(),
    ensures
        match credited(node, ti, a, q) {
            Err(f) => f != Fault::Tree,
            Ok(next) => {
                &&& next == (NodeModel { tables: next.tables, ..node })
                &&& next.tables.len() == node.tables.len()
                &&& table_bumped(node.tables[ti as int], next.tables[ti as int])
                &&& forall|t: int|
                    0 <= t < node.tables.len() && t != ti ==> #[trigger] next.tables[t]
                        == node.tables[t]
            },
        },
{
    let t = node.tables[ti as int];
    if let Ok(next) = credited(node, ti, a, q) {
        let arm = Arm {
            visits: (t.arms[a as int].visits + 1) as u32,
            value_sum: t.arms[a as int].value_sum.spec_plus(q),
            ..t.arms[a as int]
        };
        lemma_arm_visited(t.arms, a as int, arm, t.arms.len());
    }
}

pub(crate) proof fn lemma_joint_credited<S, F, N: Scalar>(
    node: NodeModel<S, F, N>,
    i: nat,
    rem: nat,
    g: Seq<N>,
)
    requires
        i <= node.tables.len(),
        i <= g.len(),
        forall|t: int| 0 <= t < node.tables.len() ==> table_sound(#[trigger] node.tables[t]),
    ensures
        match joint_credited(node, i, rem, g) {
            Err(f) => f != Fault::Tree,
            Ok(next) => node_bumped(node, next, i),
        },
    decreases i,
{
    if i > 0 {
        let ti = (i - 1) as nat;
        assert(table_sound(node.tables[ti as int]));
        let l = node.tables[ti as int].arms.len();
        lemma_credited(node, ti, rem % l, g[ti as int]);
        if let Ok(mid) = credited(node, ti, rem % l, g[ti as int]) {
            assert forall|t: int| 0 <= t < mid.tables.len() implies table_sound(
                #[trigger] mid.tables[t],
            ) by {
                if t != ti {
                    assert(mid.tables[t] == node.tables[t]);
                }
            }
            lemma_joint_credited(mid, ti, rem / l, g);
            if let Ok(next) = joint_credited(mid, ti, rem / l, g) {
                assert forall|t: int|
                    #![trigger next.tables[t]]
                    0 <= t < node.tables.len() implies if t < i {
                    table_bumped(node.tables[t], next.tables[t])
                } else {
                    next.tables[t] == node.tables[t]
                } by {
                    if t != ti {
                        assert(mid.tables[t] == node.tables[t]);
                    }
                }
            }
        }
    }
}

pub(crate) proof fn lemma_choices_same<N>(a: Seq<TableModel<N>>, b: Seq<TableModel<N>>, i: nat)
    requires
        a.len() == b.len(),
        forall|t: int| 0 <= t < a.len() ==> (#[trigger] b[t]).arms.len() == a[t].arms.len(),
    ensures
        choices_from(a, i) == choices_from(b, i),
    decreases a.len() - i,
{
    if i < a.len() {
        lemma_choices_same(a, b, i + 1);
    }
}

/// `b` is `a` with other numbers in it: it leads where `a` leads and has the choices that `a` has.
pub open spec fn node_alike<S, F, N>(a: NodeModel<S, F, N>, b: NodeModel<S, F, N>) -> bool {
    &&& b == (NodeModel { tables: b.tables, values: b.values, actor: b.actor, ..a })
    &&& b.tables.len() == a.tables.len()
    &&& forall|t: int|
        #![trigger b.tables[t]]
        0 <= t < a.tables.len() ==> b.tables[t].arms.len() == a.tables[t].arms.len() && (
        table_sound(a.tables[t]) ==> table_sound(b.tables[t]))
    &&& b.values.len() == a.values.len() || a.kind is Chance || a.terminal
    &&& b.actor == a.actor || a.kind is Chance
}

/// `b` is `a` with other numbers in its nodes.
pub open spec fn tree_alike<S, F, N>(a: TreeModel<S, F, N>, b: TreeModel<S, F, N>) -> bool {
    &&& b.arena.len() == a.arena.len()
    &&& forall|i: int|
        #![trigger b.arena[i]]
        #![trigger a.arena[i]]
        0 <= i < a.arena.len() ==> node_alike(a.arena[i], b.arena[i])
    &&& b.mode == a.mode
    &&& b.n_agents == a.n_agents
    &&& b.sims == a.sims
    &&& b.path == a.path
    &&& b.leaf == a.leaf
}

pub(crate) proof fn lemma_alike_trans<S, F, N>(
    a: TreeModel<S, F, N>,
    b: TreeModel<S, F, N>,
    c: TreeModel<S, F, N>,
)
    requires
        tree_alike(a, b),
        tree_alike(b, c),
    ensures
        tree_alike(a, c),
{
    assert forall|i: int|
        #![trigger c.arena[i]]
        #![trigger a.arena[i]]
        0 <= i < a.arena.len() implies node_alike(a.arena[i], c.arena[i]) by {
        let (x, y, z) = (a.arena[i], b.arena[i], c.arena[i]);
        assert(node_alike(x, y) && node_alike(y, z));
        assert forall|t: int|
            #![trigger z.tables[t]]
            0 <= t < x.tables.len() implies z.tables[t].arms.len() == x.tables[t].arms.len() && (
        table_sound(x.tables[t]) ==> table_sound(z.tables[t])) by {
            assert(y.tables[t].arms.len() == x.tables[t].arms.len());
        }
    }
}

pub(crate) proof fn lemma_alike_sound<
    N: Scalar,
    G: Game<N>,
    E: StateEncoder<State = G::State>,
    W: Reward<N, Event = G::Event>,
>(
    ctx: Ctx<N, G, E, W>,
    a: TreeModel<G::State, E::Feature, N>,
    b: TreeModel<G::State, E::Feature, N>,
)
    requires
        arena_sound(ctx, a),
        tree_alike(a, b),
    ensures
        arena_sound(ctx, b),
        path_sound(a) ==> path_sound(b),
        forall|c: int| fan_ready(a, c) ==> #[trigger] fan_ready(b, c),
{
    let n = a.n_agents as nat;
    let len = a.arena.len();
    assert(node_alike(a.arena[0], b.arena[0]));
    assert forall|i: int| 0 <= i < b.arena.len() implies node_sound(
        *ctx.game,
        ctx.chance,
        b.mode,
        n,
        len,
        i,
        #[trigger] b.arena[i],
    ) by {
        let (x, y) = (a.arena[i], b.arena[i]);
        assert(node_alike(x, y));
        assert(node_sound(*ctx.game, ctx.chance, a.mode, n, len, i, x));
        if !(x.kind is Chance) && !x.terminal {
            assert forall|t: int| 0 <= t < y.tables.len() implies table_sound(
                #[trigger] y.tables[t],
            ) by {
                assert(table_sound(x.tables[t]));
            }
            assert forall|t: int| 0 <= t < x.tables.len() implies (
            #[trigger] y.tables[t]).arms.len() == x.tables[t].arms.len() by {}
            lemma_choices_same(x.tables, y.tables, 0);
        }
    }
    if path_sound(a) {
        assert forall|k: int| 0 <= k < b.path.len() implies step_sound(b, #[trigger] b.path[k]) by {
            assert(step_sound(a, a.path[k]));
            let at = b.path[k].0 as int;
            assert(node_alike(a.arena[at], b.arena[at]));
        }
    }
    assert forall|c: int| fan_ready(a, c) implies #[trigger] fan_ready(b, c) by {
        assert(node_alike(a.arena[c], b.arena[c]));
        assert forall|s: int| 0 <= s < b.arena[c].links.len() implies ((
        #[trigger] b.arena[c].links[s]).child matches Some(k) && k < b.arena.len() && !(
        b.arena[k as int].kind is Chance)) by {
            assert(a.arena[c].links[s].child is Some);
            let k = a.arena[c].links[s].child->Some_0;
            assert(node_alike(a.arena[k as int], b.arena[k as int]));
        }
    }
}

/// Node `j` is among the first `n` of a path.
pub open spec fn on_path(path: Seq<(usize, usize)>, n: nat, j: int) -> bool {
    exists|k: int| 0 <= k < n && (#[trigger] path[k]).0 == j
}

/// `b` is `a` with the decisions among the first `n` nodes of its path visited once more.
pub open spec fn passed<S, F, N>(
    a: TreeModel<S, F, N>,
    b: TreeModel<S, F, N>,
    n: nat,
) -> bool {
    &&& b.arena.len() == a.arena.len()
    &&& forall|j: int|
        #![trigger b.arena[j]]
        0 <= j < a.arena.len() ==> if on_path(a.path, n, j) && !(a.arena[j].kind is Chance) {
            &&& b.arena[j].tables.len() == a.arena[j].tables.len()
            &&& forall|t: int|
                #![trigger b.arena[j].tables[t]]
                0 <= t < a.arena[j].tables.len() ==> table_bumped(
                    a.arena[j].tables[t],
                    b.arena[j].tables[t],
                )
        } else {
            b.arena[j].tables == a.arena[j].tables
        }
}

pub(crate) proof fn lemma_bumped_alike<S, F, N>(
    a: NodeModel<S, F, N>,
    b: NodeModel<S, F, N>,
    n: nat,
)
    requires
        node_bumped(a, b, n),
    ensures
        node_alike(a, b),
{
    assert forall|t: int|
        #![trigger b.tables[t]]
        0 <= t < a.tables.len() implies b.tables[t].arms.len() == a.tables[t].arms.len() && (
    table_sound(a.tables[t]) ==> table_sound(b.tables[t])) by {}
}

/// One step of a path passed, then those above it.
pub(crate) proof fn lemma_passed_step<S, F, N>(
    m: TreeModel<S, F, N>,
    next: NodeModel<S, F, N>,
    i: nat,
    b: TreeModel<S, F, N>,
)
    requires
        0 < i <= m.path.len(),
        path_sound(m),
        !(m.arena[m.path[i - 1].0 as int].kind is Chance),
        node_bumped(
            m.arena[m.path[i - 1].0 as int],
            next,
            m.arena[m.path[i - 1].0 as int].tables.len(),
        ),
        passed(with_node(m, m.path[i - 1].0 as int, next), b, (i - 1) as nat),
    ensures
        passed(m, b, i),
{
    let ni = m.path[i - 1].0 as int;
    let mid = with_node(m, ni, next);
    assert(step_sound(m, m.path[i - 1]));
    assert forall|j: int|
        #![trigger b.arena[j]]
        0 <= j < m.arena.len() implies if on_path(m.path, i, j) && !(m.arena[j].kind is Chance) {
        &&& b.arena[j].tables.len() == m.arena[j].tables.len()
        &&& forall|t: int|
            #![trigger b.arena[j].tables[t]]
            0 <= t < m.arena[j].tables.len() ==> table_bumped(
                m.arena[j].tables[t],
                b.arena[j].tables[t],
            )
    } else {
        b.arena[j].tables == m.arena[j].tables
    } by {
        if j == ni {
            assert(m.path[i - 1].0 == j);
            assert(on_path(m.path, i, j));
            if on_path(mid.path, (i - 1) as nat, j) {
                let k = choose|k: int| 0 <= k < i - 1 && (#[trigger] mid.path[k]).0 == j;
                assert(m.path[k].0 < m.path[i - 1].0);
            }
            assert(b.arena[j].tables == next.tables);
        } else {
            assert(mid.arena[j] == m.arena[j]);
            lemma_on_path_less(m.path, i, j);
        }
    }
}

pub(crate) proof fn lemma_on_path_less(path: Seq<(usize, usize)>, i: nat, j: int)
    requires
        0 < i <= path.len(),
        path[i - 1].0 != j,
    ensures
        on_path(path, i, j) == on_path(path, (i - 1) as nat, j),
{
    if on_path(path, i, j) {
        let k = choose|k: int| 0 <= k < i && (#[trigger] path[k]).0 == j;
        assert(k < i - 1 && path[k].0 == j);
    }
    if on_path(path, (i - 1) as nat, j) {
        let k = choose|k: int| 0 <= k < i - 1 && (#[trigger] path[k]).0 == j;
        assert(k < i && path[k].0 == j);
    }
}

/// A chance node passed changes nothing.
pub(crate) proof fn lemma_passed_chance<S, F, N>(
    m: TreeModel<S, F, N>,
    i: nat,
    b: TreeModel<S, F, N>,
)
    requires
        0 < i <= m.path.len(),
        m.path[i - 1].0 < m.arena.len(),
        m.arena[m.path[i - 1].0 as int].kind is Chance,
        passed(m, b, (i - 1) as nat),
    ensures
        passed(m, b, i),
{
    assert forall|j: int|
        #![trigger b.arena[j]]
        0 <= j < m.arena.len() implies if on_path(m.path, i, j) && !(m.arena[j].kind is Chance) {
        &&& b.arena[j].tables.len() == m.arena[j].tables.len()
        &&& forall|t: int|
            #![trigger b.arena[j].tables[t]]
            0 <= t < m.arena[j].tables.len() ==> table_bumped(
                m.arena[j].tables[t],
                b.arena[j].tables[t],
            )
    } else {
        b.arena[j].tables == m.arena[j].tables
    } by {
        if m.path[i - 1].0 != j {
            lemma_on_path_less(m.path, i, j);
        }
    }
}

pub(crate) proof fn lemma_with_alike<S, F, N>(
    m: TreeModel<S, F, N>,
    ni: int,
    node: NodeModel<S, F, N>,
)
    requires
        0 <= ni < m.arena.len(),
        node_alike(m.arena[ni], node),
    ensures
        tree_alike(m, with_node(m, ni, node)),
{
    let b = with_node(m, ni, node);
    assert forall|i: int|
        #![trigger b.arena[i]]
        #![trigger m.arena[i]]
        0 <= i < m.arena.len() implies node_alike(m.arena[i], b.arena[i]) by {
        if i != ni {
            assert(b.arena[i] == m.arena[i]);
        }
    }
}

pub(crate) proof fn lemma_chance_passed<
    N: Scalar,
    G: Game<N>,
    E: StateEncoder<State = G::State>,
    W: Reward<N, Event = G::Event>,
>(
    ctx: Ctx<N, G, E, W>,
    m: TreeModel<G::State, E::Feature, N>,
    step: (usize, usize),
    pend: Seq<N>,
)
    requires
        arena_sound(ctx, m),
        step_sound(m, step),
        m.arena[step.0 as int].kind is Chance,
    ensures
        chance_passed(m, step.0 as int, step.1, pend) matches Ok(more) && more.len() == pend.len(),
{
}

pub(crate) proof fn lemma_negamax_up<
    N: Scalar,
    G: Game<N>,
    E: StateEncoder<State = G::State>,
    W: Reward<N, Event = G::Event>,
>(
    ctx: Ctx<N, G, E, W>,
    gamma: N,
    m: TreeModel<G::State, E::Feature, N>,
    i: nat,
    g: N,
    g_actor: usize,
    pend: Seq<N>,
)
    requires
        arena_sound(ctx, m),
        path_sound(m),
        m.mode == TreeMode::SeqNegamax,
        i <= m.path.len(),
    ensures
        match negamax_up(gamma, m, i, g, g_actor, pend) {
            Err(f) => f != Fault::Tree,
            Ok(b) => tree_alike(m, b) && passed(m, b, i) && b == (TreeModel { arena: b.arena, ..m }),
        },
    decreases i,
{
    if i > 0 {
        let (ni, a) = m.path[i - 1];
        assert(step_sound(m, m.path[i - 1]));
        let node = m.arena[ni as int];
        assert(node_sound(
            *ctx.game,
            ctx.chance,
            m.mode,
            m.n_agents as nat,
            m.arena.len(),
            ni as int,
            node,
        ));
        if node.kind is Chance {
            lemma_chance_passed(ctx, m, m.path[i - 1], pend);
            let more = chance_passed(m, ni as int, a, pend)->Ok_0;
            lemma_negamax_up(ctx, gamma, m, (i - 1) as nat, g, g_actor, more);
            if let Ok(b) = negamax_up(gamma, m, (i - 1) as nat, g, g_actor, more) {
                lemma_passed_chance(m, i, b);
            }
        } else if node.actor < pend.len() {
            assert(link_sound(node.links[a as int], ni as int, m.arena.len(), 1));
            assert(choices_from(node.tables, 1) == 1);
            assert(table_sound(node.tables[0]));
            assert(choices_from(node.tables, 0) == node.tables[0].arms.len() * 1);
            let child_val = if g_actor == node.actor {
                g
            } else {
                g.spec_negated()
            };
            let q = node.links[a as int].rewards[0].spec_plus(
                pend[node.actor as int],
            ).spec_plus(gamma.spec_times(child_val));
            lemma_credited(node, 0, a as nat, q);
            if let Ok(next) = credited(node, 0, a as nat, q) {
                assert(node_bumped(node, next, 1));
                lemma_bumped_alike(node, next, 1);
                let mid = with_node(m, ni as int, next);
                lemma_with_alike(m, ni as int, next);
                lemma_alike_sound(ctx, m, mid);
                let zeros = spec_filled(N::spec_zero(), 2);
                lemma_negamax_up(ctx, gamma, mid, (i - 1) as nat, q, node.actor, zeros);
                if let Ok(b) = negamax_up(gamma, mid, (i - 1) as nat, q, node.actor, zeros) {
                    lemma_alike_trans(m, mid, b);
                    lemma_passed_step(m, next, i, b);
                }
            }
        }
    } else {
        assert(tree_alike(m, m)) by {
            lemma_alike_self(m);
        }
        lemma_passed_none(m);
    }
}

pub(crate) proof fn lemma_alike_self<S, F, N>(m: TreeModel<S, F, N>)
    ensures
        tree_alike(m, m),
{
}

pub(crate) proof fn lemma_passed_none<S, F, N>(m: TreeModel<S, F, N>)
    ensures
        passed(m, m, 0),
{
}

pub(crate) proof fn lemma_vector_up<
    N: Scalar,
    G: Game<N>,
    E: StateEncoder<State = G::State>,
    W: Reward<N, Event = G::Event>,
>(
    ctx: Ctx<N, G, E, W>,
    gamma: N,
    m: TreeModel<G::State, E::Feature, N>,
    i: nat,
    g: Seq<N>,
    pend: Seq<N>,
)
    requires
        arena_sound(ctx, m),
        path_sound(m),
        m.mode != TreeMode::SeqNegamax,
        i <= m.path.len(),
        g.len() == m.n_agents,
        pend.len() == m.n_agents,
    ensures
        match vector_up(gamma, m, i, g, pend) {
            Err(f) => f != Fault::Tree,
            Ok(b) => tree_alike(m, b) && passed(m, b, i) && b == (TreeModel { arena: b.arena, ..m }),
        },
    decreases i,
{
    let n = m.n_agents as nat;
    if i > 0 {
        let (ni, slot) = m.path[i - 1];
        assert(step_sound(m, m.path[i - 1]));
        let node = m.arena[ni as int];
        assert(node_sound(*ctx.game, ctx.chance, m.mode, n, m.arena.len(), ni as int, node));
        if node.kind is Chance {
            lemma_chance_passed(ctx, m, m.path[i - 1], pend);
            let more = chance_passed(m, ni as int, slot, pend)->Ok_0;
            lemma_vector_up(ctx, gamma, m, (i - 1) as nat, g, more);
            if let Ok(b) = vector_up(gamma, m, (i - 1) as nat, g, more) {
                lemma_passed_chance(m, i, b);
            }
        } else {
            assert(link_sound(node.links[slot as int], ni as int, m.arena.len(), n));
            let q = choice_values(node.links[slot as int].rewards, pend, gamma, g);
            if m.mode == TreeMode::Sim {
                lemma_joint_credited(node, node.tables.len(), slot as nat, q);
            } else if node.actor < q.len() {
                assert(choices_from(node.tables, 1) == 1);
                assert(table_sound(node.tables[0]));
                assert(choices_from(node.tables, 0) == node.tables[0].arms.len() * 1);
                lemma_credited(node, 0, slot as nat, q[node.actor as int]);
            }
            if let Ok((next, worth)) = choice_up(gamma, m.mode, node, slot, g, pend) {
                assert(worth == q);
                assert(node_bumped(node, next, node.tables.len()));
                lemma_bumped_alike(node, next, node.tables.len());
                let mid = with_node(m, ni as int, next);
                lemma_with_alike(m, ni as int, next);
                lemma_alike_sound(ctx, m, mid);
                let zeros = spec_filled(N::spec_zero(), pend.len());
                lemma_vector_up(ctx, gamma, mid, (i - 1) as nat, q, zeros);
                if let Ok(b) = vector_up(gamma, mid, (i - 1) as nat, q, zeros) {
                    lemma_alike_trans(m, mid, b);
                    lemma_passed_step(m, next, i, b);
                }
            }
        }
    } else {
        lemma_alike_self(m);
        lemma_passed_none(m);
    }
}

/// `b` is `a` after its path was passed from end to end.
pub open spec fn backed<S, F, N>(a: TreeModel<S, F, N>, b: TreeModel<S, F, N>) -> bool {
    &&& tree_alike(a, b)
    &&& passed(a, b, a.path.len())
    &&& b.pending == a.pending
}

/// Tables that stayed the same before a path was passed change nothing of what was passed.
pub(crate) proof fn lemma_passed_from<S, F, N>(
    a: TreeModel<S, F, N>,
    b: TreeModel<S, F, N>,
    c: TreeModel<S, F, N>,
)
    requires
        tree_alike(a, b),
        forall|j: int|
            0 <= j < a.arena.len() ==> (#[trigger] b.arena[j]).tables == a.arena[j].tables,
        b.pending == a.pending,
        backed(b, c),
    ensures
        backed(a, c),
{
    lemma_alike_trans(a, b, c);
    assert forall|j: int|
        #![trigger c.arena[j]]
        0 <= j < a.arena.len() implies if on_path(a.path, a.path.len(), j) && !(
    a.arena[j].kind is Chance) {
        &&& c.arena[j].tables.len() == a.arena[j].tables.len()
        &&& forall|t: int|
            #![trigger c.arena[j].tables[t]]
            0 <= t < a.arena[j].tables.len() ==> table_bumped(
                a.arena[j].tables[t],
                c.arena[j].tables[t],
            )
    } else {
        c.arena[j].tables == a.arena[j].tables
    } by {
        assert(b.arena[j].tables == a.arena[j].tables);
        assert(node_alike(a.arena[j], b.arena[j]));
    }
}

pub(crate) proof fn lemma_backprop<
    N: Scalar,
    G: Game<N>,
    E: StateEncoder<State = G::State>,
    W: Reward<N, Event = G::Event>,
>(
    ctx: Ctx<N, G, E, W>,
    gamma: N,
    m: TreeModel<G::State, E::Feature, N>,
    value: N,
)
    requires
        arena_sound(ctx, m),
        path_sound(m),
        m.leaf < m.arena.len(),
        m.mode == TreeMode::SeqNegamax,
    ensures
        match spec_backprop(gamma, m, value) {
            Err(f) => f != Fault::Tree,
            Ok(b) => backed(m, b),
        },
{
    let mid = leaf_valued(m, value);
    let leaf = m.arena[m.leaf as int];
    assert(node_sound(
        *ctx.game,
        ctx.chance,
        m.mode,
        m.n_agents as nat,
        m.arena.len(),
        m.leaf as int,
        leaf,
    ));
    let told = NodeModel { values: seq![value], ..leaf };
    assert(node_alike(leaf, told));
    assert forall|i: int|
        #![trigger mid.arena[i]]
        #![trigger m.arena[i]]
        0 <= i < m.arena.len() implies node_alike(m.arena[i], mid.arena[i]) by {
        if i != m.leaf {
            assert(mid.arena[i] == m.arena[i]);
        }
    }
    lemma_alike_sound(ctx, m, mid);
    let pend = added(spec_filled(N::spec_zero(), 2), m.pend_seed);
    lemma_negamax_up(ctx, gamma, mid, m.path.len(), value, leaf.actor, pend);
    if let Ok(b) = spec_backprop(gamma, m, value) {
        lemma_passed_from(m, mid, b);
    }
}

pub(crate) proof fn lemma_backup<
    N: Scalar,
    G: Game<N>,
    E: StateEncoder<State = G::State>,
    W: Reward<N, Event = G::Event>,
>(
    ctx: Ctx<N, G, E, W>,
    gamma: N,
    m: TreeModel<G::State, E::Feature, N>,
    vals: Seq<N>,
)
    requires
        arena_sound(ctx, m),
        path_sound(m),
        m.leaf < m.arena.len(),
        vals.len() == valued_agents(m.mode, m.n_agents as nat),
    ensures
        match spec_backup(gamma, m, vals) {
            Err(f) => f != Fault::Tree,
            Ok(b) => backed(m, b),
        },
{
    if m.mode == TreeMode::SeqNegamax {
        lemma_backprop(ctx, gamma, m, vals[0]);
    } else {
        let mid = TreeModel { pend_seed: Seq::empty(), ..m };
        lemma_alike_self(m);
        assert(tree_alike(m, mid)) by {
            assert forall|i: int|
                #![trigger mid.arena[i]]
                #![trigger m.arena[i]]
                0 <= i < m.arena.len() implies node_alike(m.arena[i], mid.arena[i]) by {
                assert(node_alike(m.arena[i], m.arena[i]));
            }
        }
        lemma_alike_sound(ctx, m, mid);
        let pend = added(spec_filled(N::spec_zero(), m.n_agents as nat), m.pend_seed);
        lemma_vector_up(ctx, gamma, mid, m.path.len(), vals, pend);
        if let Ok(b) = spec_backup(gamma, m, vals) {
            lemma_passed_from(m, mid, b);
        }
    }
}

pub(crate) proof fn lemma_fan_mix<
    N: Scalar,
    G: Game<N>,
    E: StateEncoder<State = G::State>,
    W: Reward<N, Event = G::Event>,
>(
    ctx: Ctx<N, G, E, W>,
    m: TreeModel<G::State, E::Feature, N>,
    cni: int,
    probs: Seq<N>,
    view: usize,
    i: nat,
    mix: Seq<N>,
    rewards: Seq<N>,
)
    requires
        arena_sound(ctx, m),
        fan_ready(m, cni),
        probs.len() <= m.arena[cni].links.len(),
    ensures
        match fan_mix(m, cni, probs, view, i, mix, rewards) {
            Err(f) => f != Fault::Tree,
            Ok((values, more)) => values.len() == mix.len(),
        },
    decreases probs.len() - i,
{
    if i < probs.len() {
        assert(m.arena[cni].links[i as int].child is Some);
        let c = m.arena[cni].links[i as int].child->Some_0;
        let kid = m.arena[c as int];
        assert(node_sound(
            *ctx.game,
            ctx.chance,
            m.mode,
            m.n_agents as nat,
            m.arena.len(),
            c as int,
            kid,
        ));
        assert(fan_kid(m, cni, i) == Ok::<_, Fault>(kid));
        if let Ok(vals) = kid_values(kid, m.mode, view, m.n_agents as nat) {
            lemma_fan_mix(
                ctx,
                m,
                cni,
                probs,
                view,
                i + 1,
                mixed_in(mix, probs[i as int], vals),
                mixed_in(rewards, probs[i as int], kid.chance_in),
            );
        }
    }
}

pub(crate) proof fn lemma_fan_actor<S, F, N>(m: TreeModel<S, F, N>, cni: int, i: nat)
    requires
        fan_ready(m, cni),
    ensures
        fan_actor(m, cni, i) is Ok,
    decreases m.arena[cni].links.len() - i,
{
    if i < m.arena[cni].links.len() {
        assert(m.arena[cni].links[i as int].child is Some);
        lemma_fan_actor(m, cni, i + 1);
    }
}

pub(crate) proof fn lemma_fan_backed_up<
    N: Scalar,
    G: Game<N>,
    E: StateEncoder<State = G::State>,
    W: Reward<N, Event = G::Event>,
>(
    ctx: Ctx<N, G, E, W>,
    gamma: N,
    m: TreeModel<G::State, E::Feature, N>,
)
    requires
        arena_sound(ctx, m),
        path_sound(m),
        fan_ready(m, m.leaf as int),
    ensures
        match fan_backed_up(gamma, m) {
            Err(f) => f != Fault::Tree,
            Ok(b) => backed(m, b),
        },
{
    let cni = m.leaf as int;
    let node = m.arena[cni];
    lemma_fan_actor(m, cni, 0);
    let view = if m.mode == TreeMode::SeqNegamax {
        fan_actor(m, cni, 0)->Ok_0
    } else {
        node.actor
    };
    assert(node_sound(
        *ctx.game,
        ctx.chance,
        m.mode,
        m.n_agents as nat,
        m.arena.len(),
        cni,
        node,
    ));
    if let Ok(probs) = fan_weights(node) {
        assert(probs.len() <= node.links.len());
        let blank = no_values(m.mode, m.n_agents as nat);
        let zeros = spec_filled(N::spec_zero(), m.n_agents as nat);
        lemma_fan_mix(ctx, m, cni, probs, view, 0, blank, zeros);
        if let Ok((mix, rewards)) = fan_mix(m, cni, probs, view, 0, blank, zeros) {
            let seen = NodeModel { actor: view, ..node };
            let mid = TreeModel {
                arena: m.arena.update(cni, seen),
                pend_seed: if any_reward(rewards) {
                    rewards
                } else {
                    m.pend_seed
                },
                ..m
            };
            assert(node_alike(node, seen));
            assert forall|i: int|
                #![trigger mid.arena[i]]
                #![trigger m.arena[i]]
                0 <= i < m.arena.len() implies node_alike(m.arena[i], mid.arena[i]) by {
                if i != cni {
                    assert(mid.arena[i] == m.arena[i]);
                }
            }
            lemma_alike_sound(ctx, m, mid);
            lemma_backup(ctx, gamma, mid, mix);
            if let Ok(b) = fan_backed_up(gamma, m) {
                lemma_passed_from(m, mid, b);
            }
        }
    }
}

} // verus!
