//! What a simulation's end does to the choices on its path.

use vstd::prelude::*;

use super::fan::add_into;
#[allow(unused_imports)]
use super::fan::added;
use super::grow::find_chance_child;
#[allow(unused_imports)]
use super::grow::{chance_child, with_node};
use super::tree::{Kind, Node, Tree, TreeMode};
#[allow(unused_imports)]
use super::tree::{
    link_models, node_models, same_counts, table_models, Arm, KindModel, LinkModel, NodeModel,
    TableModel, TreeModel,
};
use crate::fault::Fault;
use crate::num::Scalar;
use crate::util::{copied, filled};
#[allow(unused_imports)]
use crate::util::{spec_filled, viewed};

verus! {

/// A table with `q` credited to arm `a`.
pub open spec fn table_credited<N: Scalar>(t: TableModel<N>, a: int, q: N) -> TableModel<N> {
    TableModel {
        arms: t.arms.update(
            a,
            Arm {
                visits: (t.arms[a].visits + 1) as u32,
                value_sum: t.arms[a].value_sum.spec_plus(q),
                ..t.arms[a]
            },
        ),
        total_visits: (t.total_visits + 1) as u32,
        ..t
    }
}

/// A node with `q` credited to arm `a` of its table `ti`.
pub open spec fn credited<S, F, N: Scalar>(
    node: NodeModel<S, F, N>,
    ti: nat,
    a: nat,
    q: N,
) -> Result<NodeModel<S, F, N>, Fault> {
    if ti >= node.tables.len() || a >= node.tables[ti as int].arms.len() {
        Err(Fault::Tree)
    } else {
        let t = node.tables[ti as int];
        if t.arms[a as int].visits == u32::MAX || t.total_visits == u32::MAX {
            Err(Fault::VisitCount)
        } else {
            Ok(
                NodeModel {
                    tables: node.tables.update(ti as int, table_credited(t, a as int, q)),
                    ..node
                },
            )
        }
    }
}

fn credit<S, F, N: Scalar>(node: &mut Node<S, F, N>, ti: usize, a: usize, q: N) -> (r: Result<
    (),
    Fault,
>)
    ensures
        match r {
            Ok(_) => credited(old(node)@, ti as nat, a as nat, q) == Ok::<_, Fault>(final(node)@),
            Err(f) => credited(old(node)@, ti as nat, a as nat, q) == Err::<NodeModel<S, F, N>, _>(
                f,
            ) && final(node)@ == old(node)@,
        },
{
    let ghost before = node@;
    if ti >= node.tables.len() {
        return Err(Fault::Tree);
    }
    assert(before.tables[ti as int] == node.tables@[ti as int]@);
    if a >= node.tables[ti].arms.len() {
        return Err(Fault::Tree);
    }
    let arm = node.tables[ti].arms[a];
    let total = node.tables[ti].total_visits;
    if arm.visits == u32::MAX || total == u32::MAX {
        return Err(Fault::VisitCount);
    }
    node.tables[ti].arms[a] =
    Arm {
        action: arm.action,
        visits: arm.visits + 1,
        value_sum: arm.value_sum.plus(q),
        prior: arm.prior,
    };
    node.tables[ti].total_visits = total + 1;
    assert(node@.tables =~= before.tables.update(
        ti as int,
        table_credited(before.tables[ti as int], a as int, q),
    ));
    Ok(())
}

/// The rewards pending after a chance node was passed: those of the edge taken from it join.
pub open spec fn chance_passed<S, F, N: Scalar>(
    m: TreeModel<S, F, N>,
    ni: int,
    slot: usize,
    pend: Seq<N>,
) -> Result<Seq<N>, Fault> {
    match chance_child(m.arena[ni], slot) {
        Err(f) => Err(f),
        Ok(None) => Ok(pend),
        Ok(Some(c)) => if c < m.arena.len() {
            Ok(added(pend, m.arena[c as int].chance_in))
        } else {
            Err(Fault::Tree)
        },
    }
}

fn pass_chance<S, F, N: Scalar>(
    arena: &Vec<Node<S, F, N>>,
    ni: usize,
    slot: usize,
    pend: &mut Vec<N>,
    Ghost(m): Ghost<TreeModel<S, F, N>>,
) -> (r: Result<(), Fault>)
    requires
        ni < arena@.len(),
        m.arena == node_models(arena@),
    ensures
        match r {
            Ok(_) => chance_passed(m, ni as int, slot, old(pend)@) == Ok::<_, Fault>(final(pend)@)
                && final(pend)@.len() == old(pend)@.len(),
            Err(f) => chance_passed(m, ni as int, slot, old(pend)@) == Err::<Seq<N>, _>(f),
        },
{
    assert(m.arena[ni as int] == arena@[ni as int]@);
    match find_chance_child(&arena[ni], slot) {
        Err(f) => Err(f),
        Ok(None) => Ok(()),
        Ok(Some(c)) => {
            if c < arena.len() {
                assert(m.arena[c as int] == arena@[c as int]@);
                add_into(pend, &arena[c].chance_in);
                Ok(())
            } else {
                Err(Fault::Tree)
            }
        },
    }
}

/// The tree with a value passed up the first `i` choices of its path. `g` is the value below, as
/// agent `g_actor` sees it; `pend` the chance rewards that wait for a decision, agent by agent.
pub open spec fn negamax_up<S, F, N: Scalar>(
    gamma: N,
    m: TreeModel<S, F, N>,
    i: nat,
    g: N,
    g_actor: usize,
    pend: Seq<N>,
) -> Result<TreeModel<S, F, N>, Fault>
    decreases i,
{
    if i == 0 {
        Ok(m)
    } else {
        let (ni, a) = m.path[i - 1];
        if ni >= m.arena.len() {
            Err(Fault::Tree)
        } else {
            let node = m.arena[ni as int];
            if node.kind is Chance {
                match chance_passed(m, ni as int, a, pend) {
                    Err(f) => Err(f),
                    Ok(more) => negamax_up(gamma, m, (i - 1) as nat, g, g_actor, more),
                }
            } else if node.actor >= pend.len() {
                Err(Fault::AgentRange)
            } else if a >= node.links.len() || node.links[a as int].rewards.len() == 0 {
                Err(Fault::Tree)
            } else {
                let child_val = if g_actor == node.actor {
                    g
                } else {
                    g.spec_negated()
                };
                let q = node.links[a as int].rewards[0].spec_plus(
                    pend[node.actor as int],
                ).spec_plus(gamma.spec_times(child_val));
                match credited(node, 0, a as nat, q) {
                    Err(f) => Err(f),
                    Ok(next) => negamax_up(
                        gamma,
                        with_node(m, ni as int, next),
                        (i - 1) as nat,
                        q,
                        node.actor,
                        spec_filled(N::spec_zero(), 2),
                    ),
                }
            }
        }
    }
}

/// A tree whose leaf has `value`, its pending chance rewards taken.
pub open spec fn leaf_valued<S, F, N>(m: TreeModel<S, F, N>, value: N) -> TreeModel<S, F, N> {
    TreeModel {
        arena: m.arena.update(
            m.leaf as int,
            NodeModel { values: seq![value], ..m.arena[m.leaf as int] },
        ),
        pend_seed: Seq::empty(),
        ..m
    }
}

/// The tree with `value`, seen by the leaf's actor, backed up: the sign turns with the mover.
pub open spec fn spec_backprop<S, F, N: Scalar>(gamma: N, m: TreeModel<S, F, N>, value: N) -> Result<
    TreeModel<S, F, N>,
    Fault,
> {
    if m.leaf >= m.arena.len() {
        Err(Fault::Tree)
    } else {
        negamax_up(
            gamma,
            leaf_valued(m, value),
            m.path.len(),
            value,
            m.arena[m.leaf as int].actor,
            added(spec_filled(N::spec_zero(), 2), m.pend_seed),
        )
    }
}

#[verifier::loop_isolation(false)]
pub(crate) fn backprop<S, F, N: Scalar>(t: &mut Tree<S, F, N>, gamma: N, value: N) -> (r: Result<
    (),
    Fault,
>)
    ensures
        match r {
            Ok(_) => spec_backprop(gamma, old(t)@, value) == Ok::<_, Fault>(final(t)@) && same_counts(
                old(t)@,
                final(t)@,
            ),
            Err(f) => spec_backprop(gamma, old(t)@, value) == Err::<TreeModel<S, F, N>, _>(f),
        },
{
    let leaf = t.leaf;
    if leaf >= t.arena.len() {
        return Err(Fault::Tree);
    }
    let ghost held = t@;
    assert(held.arena[leaf as int] == t.arena@[leaf as int]@);
    let mut g_actor = t.arena[leaf].actor;
    let mut values: Vec<N> = Vec::new();
    values.push(value);
    assert(values@ =~= seq![value]);
    t.arena[leaf].values = values;
    let mut pend: Vec<N> = filled(N::zero(), 2);
    add_into(&mut pend, &t.pend_seed);
    t.pend_seed = Vec::new();
    assert(t@ =~= leaf_valued(held, value)) by {
        assert(t@.arena =~= leaf_valued(held, value).arena);
        assert(t@.pend_seed =~= Seq::empty());
    }
    let mut g = value;
    let mut i: usize = t.path.len();
    while i > 0
        invariant
            i <= t@.path.len(),
            t@.path == held.path,
            same_counts(held, t@),
            negamax_up(gamma, t@, i as nat, g, g_actor, pend@) == spec_backprop(
                gamma,
                old(t)@,
                value,
            ),
        decreases i,
    {
        i = i - 1;
        let (ni, a) = t.path[i];
        if ni >= t.arena.len() {
            return Err(Fault::Tree);
        }
        let ghost before = t@;
        assert(before.arena[ni as int] == t.arena@[ni as int]@);
        if matches!(&t.arena[ni].kind, Kind::Chance(_)) {
            match pass_chance(&t.arena, ni, a, &mut pend, Ghost(before)) {
                Ok(_) => {},
                Err(f) => return Err(f),
            }
            continue;
        }
        let node_actor = t.arena[ni].actor;
        if node_actor >= pend.len() {
            return Err(Fault::AgentRange);
        }
        if a >= t.arena[ni].links.len() {
            return Err(Fault::Tree);
        }
        assert(before.arena[ni as int].links[a as int] == t.arena@[ni as int].links@[a as int]@);
        if t.arena[ni].links[a].rewards.len() == 0 {
            return Err(Fault::Tree);
        }
        let child_val = if g_actor == node_actor {
            g
        } else {
            g.negated()
        };
        let q = t.arena[ni].links[a].rewards[0].plus(pend[node_actor]).plus(gamma.times(child_val));
        match credit(&mut t.arena[ni], 0, a, q) {
            Ok(_) => {},
            Err(f) => return Err(f),
        }
        assert(t@ =~= with_node(
            before,
            ni as int,
            credited(before.arena[ni as int], 0, a as nat, q)->Ok_0,
        )) by {
            assert(t@.arena =~= before.arena.update(
                ni as int,
                credited(before.arena[ni as int], 0, a as nat, q)->Ok_0,
            ));
        }
        pend = filled(N::zero(), 2);
        g = q;
        g_actor = node_actor;
    }
    Ok(())
}

/// What a choice is worth to every agent: its reward, the chance rewards pending, and the
/// discounted value below.
pub open spec fn choice_values<N: Scalar>(rewards: Seq<N>, pend: Seq<N>, gamma: N, g: Seq<N>) -> Seq<
    N,
> {
    Seq::new(
        g.len(),
        |i: int| rewards[i].spec_plus(pend[i]).spec_plus(gamma.spec_times(g[i])),
    )
}

fn value_choice<N: Scalar>(rewards: &[N], pend: &[N], gamma: N, g: &[N]) -> (r: Vec<N>)
    requires
        g@.len() <= rewards@.len(),
        g@.len() <= pend@.len(),
    ensures
        r@ == choice_values(rewards@, pend@, gamma, g@),
{
    let mut r: Vec<N> = Vec::new();
    let mut i: usize = 0;
    while i < g.len()
        invariant
            i <= g@.len() <= rewards@.len(),
            g@.len() <= pend@.len(),
            r@.len() == i,
            forall|k: int|
                0 <= k < i ==> #[trigger] r@[k] == choice_values(rewards@, pend@, gamma, g@)[k],
        decreases g@.len() - i,
    {
        r.push(rewards[i].plus(pend[i]).plus(gamma.times(g[i])));
        i = i + 1;
    }
    assert(r@ =~= choice_values(rewards@, pend@, gamma, g@));
    r
}

/// A node with every agent's value credited to the arm that joint choice `rem` has in its table,
/// for the first `i` tables, the last varying fastest.
pub open spec fn joint_credited<S, F, N: Scalar>(
    node: NodeModel<S, F, N>,
    i: nat,
    rem: nat,
    g: Seq<N>,
) -> Result<NodeModel<S, F, N>, Fault>
    decreases i,
{
    if i == 0 {
        Ok(node)
    } else {
        let ti = (i - 1) as nat;
        if ti >= node.tables.len() || ti >= g.len() || node.tables[ti as int].arms.len() == 0 {
            Err(Fault::Tree)
        } else {
            let l = node.tables[ti as int].arms.len();
            match credited(node, ti, rem % l, g[ti as int]) {
                Err(f) => Err(f),
                Ok(next) => joint_credited(next, ti, rem / l, g),
            }
        }
    }
}

#[verifier::loop_isolation(false)]
fn credit_joint<S, F, N: Scalar>(node: &mut Node<S, F, N>, slot: usize, g: &[N]) -> (r: Result<
    (),
    Fault,
>)
    ensures
        match r {
            Ok(_) => joint_credited(old(node)@, old(node)@.tables.len(), slot as nat, g@) == Ok::<
                _,
                Fault,
            >(final(node)@),
            Err(f) => joint_credited(old(node)@, old(node)@.tables.len(), slot as nat, g@) == Err::<
                NodeModel<S, F, N>,
                _,
            >(f),
        },
{
    let mut rem: usize = slot;
    let mut i: usize = node.tables.len();
    while i > 0
        invariant
            i <= node@.tables.len() == old(node)@.tables.len(),
            joint_credited(node@, i as nat, rem as nat, g@) == joint_credited(
                old(node)@,
                old(node)@.tables.len(),
                slot as nat,
                g@,
            ),
        decreases i,
    {
        i = i - 1;
        assert(node@.tables[i as int] == node.tables@[i as int]@);
        let l = node.tables[i].arms.len();
        if i >= g.len() || l == 0 {
            return Err(Fault::Tree);
        }
        match credit(node, i, rem % l, g[i]) {
            Ok(_) => {},
            Err(f) => return Err(f),
        }
        rem = rem / l;
    }
    Ok(())
}

/// A choice of node `ni` with every agent's value `g` below it passed up: what the choice is worth,
/// and the node with it credited, to its mover's arm or to everyone's.
pub open spec fn choice_up<S, F, N: Scalar>(
    gamma: N,
    mode: TreeMode,
    node: NodeModel<S, F, N>,
    slot: usize,
    g: Seq<N>,
    pend: Seq<N>,
) -> Result<(NodeModel<S, F, N>, Seq<N>), Fault> {
    if slot >= node.links.len() || g.len() > node.links[slot as int].rewards.len() || g.len()
        > pend.len() {
        Err(Fault::Tree)
    } else {
        let q = choice_values(node.links[slot as int].rewards, pend, gamma, g);
        let done = if mode == TreeMode::Sim {
            if node.kind is Simultaneous {
                joint_credited(node, node.tables.len(), slot as nat, q)
            } else {
                Err(Fault::Tree)
            }
        } else if node.actor < q.len() {
            credited(node, 0, slot as nat, q[node.actor as int])
        } else {
            Err(Fault::AgentRange)
        };
        match done {
            Err(f) => Err(f),
            Ok(next) => Ok((next, q)),
        }
    }
}

/// The tree with every agent's value `g` passed up the first `i` choices of its path, `pend` being
/// the chance rewards that wait for a decision.
pub open spec fn vector_up<S, F, N: Scalar>(
    gamma: N,
    m: TreeModel<S, F, N>,
    i: nat,
    g: Seq<N>,
    pend: Seq<N>,
) -> Result<TreeModel<S, F, N>, Fault>
    decreases i,
{
    if i == 0 {
        Ok(m)
    } else {
        let (ni, slot) = m.path[i - 1];
        if ni >= m.arena.len() {
            Err(Fault::Tree)
        } else {
            let node = m.arena[ni as int];
            if node.kind is Chance {
                match chance_passed(m, ni as int, slot, pend) {
                    Err(f) => Err(f),
                    Ok(more) => vector_up(gamma, m, (i - 1) as nat, g, more),
                }
            } else {
                match choice_up(gamma, m.mode, node, slot, g, pend) {
                    Err(f) => Err(f),
                    Ok((next, q)) => vector_up(
                        gamma,
                        with_node(m, ni as int, next),
                        (i - 1) as nat,
                        q,
                        spec_filled(N::spec_zero(), pend.len()),
                    ),
                }
            }
        }
    }
}

/// The tree with every agent's value backed up.
pub open spec fn spec_backprop_vector<S, F, N: Scalar>(
    gamma: N,
    m: TreeModel<S, F, N>,
    vals: Seq<N>,
) -> Result<TreeModel<S, F, N>, Fault> {
    vector_up(
        gamma,
        TreeModel { pend_seed: Seq::empty(), ..m },
        m.path.len(),
        vals,
        added(spec_filled(N::spec_zero(), m.n_agents as nat), m.pend_seed),
    )
}

fn pass_choice<S, F, N: Scalar>(
    node: &mut Node<S, F, N>,
    gamma: N,
    mode: TreeMode,
    slot: usize,
    g: &[N],
    pend: &[N],
) -> (r: Result<Vec<N>, Fault>)
    ensures
        match r {
            Ok(q) => choice_up(gamma, mode, old(node)@, slot, g@, pend@) == Ok::<_, Fault>(
                (final(node)@, q@),
            ),
            Err(f) => choice_up(gamma, mode, old(node)@, slot, g@, pend@) == Err::<
                (NodeModel<S, F, N>, Seq<N>),
                _,
            >(f),
        },
{
    if slot >= node.links.len() {
        return Err(Fault::Tree);
    }
    assert(node@.links[slot as int] == node.links@[slot as int]@);
    if g.len() > node.links[slot].rewards.len() || g.len() > pend.len() {
        return Err(Fault::Tree);
    }
    let q = value_choice(&node.links[slot].rewards, pend, gamma, g);
    if matches!(mode, TreeMode::Sim) {
        if !matches!(&node.kind, Kind::Simultaneous) {
            return Err(Fault::Tree);
        }
        match credit_joint(node, slot, &q) {
            Ok(_) => Ok(q),
            Err(f) => Err(f),
        }
    } else {
        let actor = node.actor;
        if actor >= q.len() {
            return Err(Fault::AgentRange);
        }
        match credit(node, 0, slot, q[actor]) {
            Ok(_) => Ok(q),
            Err(f) => Err(f),
        }
    }
}

#[verifier::loop_isolation(false)]
fn backprop_vector<S, F, N: Scalar>(t: &mut Tree<S, F, N>, gamma: N, vals: &[N]) -> (r: Result<
    (),
    Fault,
>)
    ensures
        match r {
            Ok(_) => spec_backprop_vector(gamma, old(t)@, vals@) == Ok::<_, Fault>(final(t)@) && same_counts(
                old(t)@,
                final(t)@,
            ),
            Err(f) => spec_backprop_vector(gamma, old(t)@, vals@) == Err::<
                TreeModel<S, F, N>,
                _,
            >(f),
        },
{
    let ghost held = t@;
    let mode = t.mode;
    let mut pend: Vec<N> = filled(N::zero(), t.n_agents);
    add_into(&mut pend, &t.pend_seed);
    t.pend_seed = Vec::new();
    assert(t@ =~= TreeModel { pend_seed: Seq::empty(), ..held }) by {
        assert(t@.pend_seed =~= Seq::empty());
    }
    let mut g: Vec<N> = copied(vals);
    let mut i: usize = t.path.len();
    while i > 0
        invariant
            i <= t@.path.len(),
            t@.path == held.path,
            t@.mode == mode,
            same_counts(held, t@),
            vector_up(gamma, t@, i as nat, g@, pend@) == spec_backprop_vector(
                gamma,
                old(t)@,
                vals@,
            ),
        decreases i,
    {
        i = i - 1;
        let (ni, slot) = t.path[i];
        if ni >= t.arena.len() {
            return Err(Fault::Tree);
        }
        let ghost before = t@;
        assert(before.arena[ni as int] == t.arena@[ni as int]@);
        if matches!(&t.arena[ni].kind, Kind::Chance(_)) {
            match pass_chance(&t.arena, ni, slot, &mut pend, Ghost(before)) {
                Ok(_) => {},
                Err(f) => return Err(f),
            }
            continue;
        }
        let n = pend.len();
        match pass_choice(&mut t.arena[ni], gamma, mode, slot, &g, &pend) {
            Ok(q) => {
                assert(t@ =~= with_node(
                    before,
                    ni as int,
                    choice_up(gamma, mode, before.arena[ni as int], slot, g@, pend@)->Ok_0.0,
                )) by {
                    assert(t@.arena =~= before.arena.update(
                        ni as int,
                        choice_up(gamma, mode, before.arena[ni as int], slot, g@, pend@)->Ok_0.0,
                    ));
                }
                g = q;
                pend = filled(N::zero(), n);
            },
            Err(f) => return Err(f),
        }
    }
    Ok(())
}

/// The tree with `vals` backed up: one value in a two-agent tree, every agent's otherwise.
pub open spec fn spec_backup<S, F, N: Scalar>(gamma: N, m: TreeModel<S, F, N>, vals: Seq<N>) -> Result<
    TreeModel<S, F, N>,
    Fault,
> {
    if m.mode == TreeMode::SeqNegamax {
        if vals.len() == 0 {
            Err(Fault::Tree)
        } else {
            spec_backprop(gamma, m, vals[0])
        }
    } else {
        spec_backprop_vector(gamma, m, vals)
    }
}

/// Backs up `vals`.
pub fn backup<S, F, N: Scalar>(t: &mut Tree<S, F, N>, gamma: N, vals: &[N]) -> (r: Result<
    (),
    Fault,
>)
    ensures
        match r {
            Ok(_) => spec_backup(gamma, old(t)@, vals@) == Ok::<_, Fault>(final(t)@) && same_counts(
                old(t)@,
                final(t)@,
            ),
            Err(f) => spec_backup(gamma, old(t)@, vals@) == Err::<TreeModel<S, F, N>, _>(f),
        },
{
    if matches!(t.mode, TreeMode::SeqNegamax) {
        if vals.len() == 0 {
            return Err(Fault::Tree);
        }
        backprop(t, gamma, vals[0])
    } else {
        backprop_vector(t, gamma, vals)
    }
}

/// The values at the end of the game: nothing is to come.
pub open spec fn no_values<N: Scalar>(mode: TreeMode, n: nat) -> Seq<N> {
    spec_filled(
        N::spec_zero(),
        if mode == TreeMode::SeqNegamax {
            1
        } else {
            n
        },
    )
}

/// Backs up the end of the game.
pub fn backup_terminal<S, F, N: Scalar>(t: &mut Tree<S, F, N>, gamma: N) -> (r: Result<(), Fault>)
    ensures
        match r {
            Ok(_) => spec_backup(
                gamma,
                old(t)@,
                no_values(old(t)@.mode, old(t)@.n_agents as nat),
            ) == Ok::<_, Fault>(final(t)@) && same_counts(old(t)@, final(t)@),
            Err(f) => spec_backup(
                gamma,
                old(t)@,
                no_values(old(t)@.mode, old(t)@.n_agents as nat),
            ) == Err::<TreeModel<S, F, N>, _>(f),
        },
{
    let n = if matches!(t.mode, TreeMode::SeqNegamax) {
        1
    } else {
        t.n_agents
    };
    let zeros = filled(N::zero(), n);
    backup(t, gamma, &zeros)
}

/// The tree with its leaf's own values backed up.
pub open spec fn leaf_backed_up<S, F, N: Scalar>(gamma: N, m: TreeModel<S, F, N>) -> Result<
    TreeModel<S, F, N>,
    Fault,
> {
    if m.leaf >= m.arena.len() {
        Err(Fault::Tree)
    } else {
        spec_backup(gamma, m, m.arena[m.leaf as int].values)
    }
}

/// Backs up the leaf's own values.
pub fn backup_leaf_values<S, F, N: Scalar>(t: &mut Tree<S, F, N>, gamma: N) -> (r: Result<
    (),
    Fault,
>)
    ensures
        match r {
            Ok(_) => leaf_backed_up(gamma, old(t)@) == Ok::<_, Fault>(final(t)@) && same_counts(
                old(t)@,
                final(t)@,
            ),
            Err(f) => leaf_backed_up(gamma, old(t)@) == Err::<TreeModel<S, F, N>, _>(f),
        },
{
    let leaf = t.leaf;
    if leaf >= t.arena.len() {
        return Err(Fault::Tree);
    }
    assert(t@.arena[leaf as int] == t.arena@[leaf as int]@);
    let vals = copied(&t.arena[leaf].values);
    backup(t, gamma, &vals)
}

/// The probabilities of a fan's slots.
pub open spec fn fan_weights<S, F, N: Scalar>(node: NodeModel<S, F, N>) -> Result<Seq<N>, Fault> {
    match node.kind {
        KindModel::Chance(spot) => if spot.fan_weights.len() > 0 {
            Ok(spot.fan_weights)
        } else if !spot.dist.sound() {
            Err(Fault::WeightTotal)
        } else if node.links.len() < spot.dist.probs().len() {
            Ok(spot.dist.probs().take(node.links.len() as int))
        } else {
            Ok(spot.dist.probs())
        },
        _ => Err(Fault::Tree),
    }
}

fn find_fan_weights<S, F, N: Scalar>(node: &Node<S, F, N>) -> (r: Result<Vec<N>, Fault>)
    ensures
        viewed(r) == fan_weights(node@),
{
    match &node.kind {
        Kind::Chance(spot) => {
            if spot.fan_weights.len() > 0 {
                return Ok(copied(&spot.fan_weights));
            }
            let mut probs = match spot.dist.iter_probs() {
                Ok(probs) => probs,
                Err(f) => return Err(f),
            };
            if node.links.len() < probs.len() {
                probs.truncate(node.links.len());
            }
            Ok(probs)
        },
        _ => Err(Fault::Tree),
    }
}

/// The node at slot `slot` of a fan.
pub open spec fn fan_kid<S, F, N>(m: TreeModel<S, F, N>, cni: int, slot: nat) -> Result<
    NodeModel<S, F, N>,
    Fault,
> {
    let links = m.arena[cni].links;
    if slot >= links.len() {
        Err(Fault::Tree)
    } else {
        match links[slot as int].child {
            None => Err(Fault::Tree),
            Some(c) => if c < m.arena.len() {
                Ok(m.arena[c as int])
            } else {
                Err(Fault::Tree)
            },
        }
    }
}

fn find_kid<S, F, N>(
    arena: &Vec<Node<S, F, N>>,
    cni: usize,
    slot: usize,
    Ghost(m): Ghost<TreeModel<S, F, N>>,
) -> (r: Result<usize, Fault>)
    requires
        cni < arena@.len(),
        m.arena == node_models(arena@),
    ensures
        match r {
            Ok(c) => c < arena@.len() && fan_kid(m, cni as int, slot as nat) == Ok::<_, Fault>(
                m.arena[c as int],
            ) && m.arena[c as int] == arena@[c as int]@,
            Err(f) => fan_kid(m, cni as int, slot as nat) == Err::<NodeModel<S, F, N>, _>(f),
        },
{
    assert(m.arena[cni as int] == arena@[cni as int]@);
    if slot >= arena[cni].links.len() {
        return Err(Fault::Tree);
    }
    assert(m.arena[cni as int].links[slot as int] == arena@[cni as int].links@[slot as int]@);
    match arena[cni].links[slot].child {
        None => Err(Fault::Tree),
        Some(c) => if c < arena.len() {
            assert(m.arena[c as int] == arena@[c as int]@);
            Ok(c)
        } else {
            Err(Fault::Tree)
        },
    }
}

/// Whose view a two-agent fan's value takes, from slot `i` on: the first live outcome's mover.
pub open spec fn fan_actor<S, F, N>(m: TreeModel<S, F, N>, cni: int, i: nat) -> Result<
    usize,
    Fault,
>
    decreases m.arena[cni].links.len() - i,
{
    if i >= m.arena[cni].links.len() {
        Ok(m.arena[cni].actor)
    } else {
        match fan_kid(m, cni, i) {
            Err(f) => Err(f),
            Ok(kid) => if kid.terminal {
                fan_actor(m, cni, i + 1)
            } else {
                Ok(kid.actor)
            },
        }
    }
}

#[verifier::loop_isolation(false)]
fn find_fan_actor<S, F, N>(
    arena: &Vec<Node<S, F, N>>,
    cni: usize,
    Ghost(m): Ghost<TreeModel<S, F, N>>,
) -> (r: Result<usize, Fault>)
    requires
        cni < arena@.len(),
        m.arena == node_models(arena@),
    ensures
        r == fan_actor(m, cni as int, 0),
{
    assert(m.arena[cni as int] == arena@[cni as int]@);
    let mut i: usize = 0;
    while i < arena[cni].links.len()
        invariant
            i <= m.arena[cni as int].links.len(),
            fan_actor(m, cni as int, i as nat) == fan_actor(m, cni as int, 0),
        decreases m.arena[cni as int].links.len() - i,
    {
        let c = match find_kid(arena, cni, i, Ghost(m)) {
            Ok(c) => c,
            Err(f) => return Err(f),
        };
        if !arena[c].terminal {
            return Ok(arena[c].actor);
        }
        i = i + 1;
    }
    Ok(arena[cni].actor)
}

/// `acc` with `p` times `b` added as far as it goes.
pub open spec fn mixed_in<N: Scalar>(acc: Seq<N>, p: N, b: Seq<N>) -> Seq<N> {
    Seq::new(
        acc.len(),
        |i: int|
            if i < b.len() {
                acc[i].spec_plus(p.spec_times(b[i]))
            } else {
                acc[i]
            },
    )
}

fn mix_in<N: Scalar>(acc: &mut Vec<N>, p: N, b: &[N])
    ensures
        final(acc)@ == mixed_in(old(acc)@, p, b@),
{
    let mut i: usize = 0;
    while i < acc.len() && i < b.len()
        invariant
            i <= acc@.len() == old(acc)@.len(),
            i <= b@.len(),
            forall|k: int|
                0 <= k < i ==> #[trigger] acc@[k] == old(acc)@[k].spec_plus(p.spec_times(b@[k])),
            forall|k: int| i <= k < acc@.len() ==> #[trigger] acc@[k] == old(acc)@[k],
        decreases acc@.len() - i,
    {
        let x = acc[i].plus(p.times(b[i]));
        acc.set(i, x);
        i = i + 1;
    }
    assert(acc@ =~= mixed_in(old(acc)@, p, b@));
}

/// What an outcome adds to a fan's value: nothing to come where it ends the game; in a two-agent
/// tree its mover's value, as agent `view` sees it.
pub open spec fn kid_values<S, F, N: Scalar>(
    kid: NodeModel<S, F, N>,
    mode: TreeMode,
    view: usize,
    n: nat,
) -> Result<Seq<N>, Fault> {
    if mode == TreeMode::SeqNegamax {
        if kid.terminal {
            Ok(seq![N::spec_zero()])
        } else if kid.values.len() == 0 {
            Err(Fault::Tree)
        } else if kid.actor == view {
            Ok(seq![kid.values[0]])
        } else {
            Ok(seq![kid.values[0].spec_negated()])
        }
    } else {
        Ok(
            Seq::new(
                n,
                |ag: int|
                    if ag < kid.values.len() {
                        kid.values[ag]
                    } else {
                        N::spec_zero()
                    },
            ),
        )
    }
}

fn read_kid<S, F, N: Scalar>(kid: &Node<S, F, N>, mode: TreeMode, view: usize, n: usize) -> (r:
    Result<Vec<N>, Fault>)
    ensures
        viewed(r) == kid_values(kid@, mode, view, n as nat),
{
    let mut out: Vec<N> = Vec::new();
    if matches!(mode, TreeMode::SeqNegamax) {
        if kid.terminal {
            out.push(N::zero());
        } else if kid.values.len() == 0 {
            return Err(Fault::Tree);
        } else if kid.actor == view {
            out.push(kid.values[0]);
        } else {
            out.push(kid.values[0].negated());
        }
        assert(out@ =~= kid_values(kid@, mode, view, n as nat)->Ok_0);
        return Ok(out);
    }
    let mut ag: usize = 0;
    while ag < n
        invariant
            ag <= n,
            mode != TreeMode::SeqNegamax,
            out@.len() == ag,
            forall|k: int|
                0 <= k < ag ==> #[trigger] out@[k] == kid_values(
                    kid@,
                    mode,
                    view,
                    n as nat,
                )->Ok_0[k],
        decreases n - ag,
    {
        if ag < kid.values.len() {
            out.push(kid.values[ag]);
        } else {
            out.push(N::zero());
        }
        ag = ag + 1;
    }
    assert(out@ =~= kid_values(kid@, mode, view, n as nat)->Ok_0);
    Ok(out)
}

/// The expectations over a fan's slots from the `i`-th on: of the values, and of the chance
/// rewards.
pub open spec fn fan_mix<S, F, N: Scalar>(
    m: TreeModel<S, F, N>,
    cni: int,
    probs: Seq<N>,
    view: usize,
    i: nat,
    mix: Seq<N>,
    rewards: Seq<N>,
) -> Result<(Seq<N>, Seq<N>), Fault>
    decreases probs.len() - i,
{
    if i >= probs.len() {
        Ok((mix, rewards))
    } else {
        match fan_kid(m, cni, i) {
            Err(f) => Err(f),
            Ok(kid) => match kid_values(kid, m.mode, view, m.n_agents as nat) {
                Err(f) => Err(f),
                Ok(vals) => fan_mix(
                    m,
                    cni,
                    probs,
                    view,
                    i + 1,
                    mixed_in(mix, probs[i as int], vals),
                    mixed_in(rewards, probs[i as int], kid.chance_in),
                ),
            },
        }
    }
}

/// Some agent's share is not nothing.
pub open spec fn any_reward<N: Scalar>(rewards: Seq<N>) -> bool {
    exists|i: int| 0 <= i < rewards.len() && !(#[trigger] rewards[i]).spec_same(N::spec_zero())
}

fn some_reward<N: Scalar>(rewards: &[N]) -> (r: bool)
    ensures
        r == any_reward(rewards@),
{
    let mut i: usize = 0;
    while i < rewards.len()
        invariant
            i <= rewards@.len(),
            forall|k: int| 0 <= k < i ==> (#[trigger] rewards@[k]).spec_same(N::spec_zero()),
        decreases rewards@.len() - i,
    {
        if !rewards[i].same(N::zero()) {
            return true;
        }
        i = i + 1;
    }
    false
}

/// The tree with the expectation over its leaf's fan backed up.
pub open spec fn fan_backed_up<S, F, N: Scalar>(gamma: N, m: TreeModel<S, F, N>) -> Result<
    TreeModel<S, F, N>,
    Fault,
> {
    let cni = m.leaf as int;
    if cni >= m.arena.len() {
        Err(Fault::Tree)
    } else {
        let view = if m.mode == TreeMode::SeqNegamax {
            fan_actor(m, cni, 0)
        } else {
            Ok(m.arena[cni].actor)
        };
        match (fan_weights(m.arena[cni]), view) {
            (Err(f), _) => Err(f),
            (_, Err(f)) => Err(f),
            (Ok(probs), Ok(view)) => match fan_mix(
                m,
                cni,
                probs,
                view,
                0,
                no_values(m.mode, m.n_agents as nat),
                spec_filled(N::spec_zero(), m.n_agents as nat),
            ) {
                Err(f) => Err(f),
                Ok((mix, rewards)) => spec_backup(
                    gamma,
                    TreeModel {
                        arena: m.arena.update(cni, NodeModel { actor: view, ..m.arena[cni] }),
                        pend_seed: if any_reward(rewards) {
                            rewards
                        } else {
                            m.pend_seed
                        },
                        ..m
                    },
                    mix,
                ),
            },
        }
    }
}

/// Backs up the expectation over the leaf's fan: its outcomes' values, all in one agent's view,
/// and their chance rewards.
#[verifier::loop_isolation(false)]
pub fn fan_backprop<S, F, N: Scalar>(t: &mut Tree<S, F, N>, gamma: N) -> (r: Result<(), Fault>)
    ensures
        match r {
            Ok(_) => fan_backed_up(gamma, old(t)@) == Ok::<_, Fault>(final(t)@) && same_counts(
                old(t)@,
                final(t)@,
            ),
            Err(f) => fan_backed_up(gamma, old(t)@) == Err::<TreeModel<S, F, N>, _>(f),
        },
{
    let cni = t.leaf;
    if cni >= t.arena.len() {
        return Err(Fault::Tree);
    }
    let ghost m = t@;
    assert(m.arena[cni as int] == t.arena@[cni as int]@);
    let probs = match find_fan_weights(&t.arena[cni]) {
        Ok(probs) => probs,
        Err(f) => return Err(f),
    };
    let negamax = matches!(t.mode, TreeMode::SeqNegamax);
    let view = if negamax {
        match find_fan_actor(&t.arena, cni, Ghost(m)) {
            Ok(view) => view,
            Err(f) => return Err(f),
        }
    } else {
        t.arena[cni].actor
    };
    let width = if negamax {
        1
    } else {
        t.n_agents
    };
    let mut mix: Vec<N> = filled(N::zero(), width);
    let mut rewards: Vec<N> = filled(N::zero(), t.n_agents);
    let ghost goal = fan_mix(
        m,
        cni as int,
        probs@,
        view,
        0,
        no_values(m.mode, m.n_agents as nat),
        spec_filled(N::spec_zero(), m.n_agents as nat),
    );
    let mut i: usize = 0;
    while i < probs.len()
        invariant
            i <= probs@.len(),
            fan_mix(m, cni as int, probs@, view, i as nat, mix@, rewards@) == goal,
        decreases probs@.len() - i,
    {
        let c = match find_kid(&t.arena, cni, i, Ghost(m)) {
            Ok(c) => c,
            Err(f) => return Err(f),
        };
        let vals = match read_kid(&t.arena[c], t.mode, view, t.n_agents) {
            Ok(vals) => vals,
            Err(f) => return Err(f),
        };
        mix_in(&mut mix, probs[i], &vals);
        mix_in(&mut rewards, probs[i], &t.arena[c].chance_in);
        i = i + 1;
    }
    t.arena[cni].actor = view;
    assert(t@.arena =~= m.arena.update(
        cni as int,
        NodeModel { actor: view, ..m.arena[cni as int] },
    ));
    if some_reward(&rewards) {
        t.pend_seed = rewards;
    }
    backup(t, gamma, &mix)
}

} // verus!
