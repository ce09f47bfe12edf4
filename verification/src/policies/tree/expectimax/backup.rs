//! Values backed up from the leaves, and what is read off them.

use vstd::prelude::*;

use super::tree::{Branch, Edge, Node, Search, SearchConfig, SearchStats};
#[allow(unused_imports)]
use super::tree::{
    branch_models, edge_models, node_models, rooted, BranchModel, NodeModel, SearchModel,
};
use crate::fault::Fault;
use crate::game::Game;
use crate::num::Scalar;
use crate::util::{copied, filled};
#[allow(unused_imports)]
use crate::util::{spec_filled, viewed};

#[allow(unused_imports)]
use crate::util::matrix;

verus! {

/// `acc` with the better of each entry; the worse at a minimizing node.
pub open spec fn bettered<N: Scalar>(acc: Seq<N>, ev: Seq<N>, k: nat, min_node: bool) -> Seq<N> {
    Seq::new(
        k,
        |h: int|
            if min_node {
                acc[h].spec_smaller(ev[h])
            } else {
                acc[h].spec_larger(ev[h])
            },
    )
}

/// `acc` with a terminal branch's share.
pub open spec fn plus_final<N: Scalar>(acc: Seq<N>, b: BranchModel<N>, k: nat) -> Seq<N> {
    Seq::new(k, |h: int| acc[h].spec_plus(b.weight.spec_times(b.reward)))
}

/// `acc` with the share of a branch whose child is worth `v`.
pub open spec fn plus_branch<N: Scalar>(
    acc: Seq<N>,
    b: BranchModel<N>,
    gamma: N,
    v: Seq<N>,
    k: nat,
) -> Seq<N> {
    Seq::new(
        k,
        |h: int|
            acc[h].spec_plus(b.weight.spec_times(b.reward.spec_plus(gamma.spec_times(v[h])))),
    )
}

/// The value of a node per head: that of its evaluation at a leaf, the best of its edges where the
/// searcher decides or chance does, the worst where the opponent minimizes. Nothing where an
/// evaluation has too few heads.
pub open spec fn node_value<S, F, N: Scalar>(
    arena: Seq<NodeModel<S, F, N>>,
    idx: int,
    gamma: N,
    k: nat,
) -> Option<Seq<N>>
    decreases arena.len() - idx, 2int, 0int,
{
    if idx < 0 || idx >= arena.len() {
        None
    } else {
        let node = arena[idx];
        if node.terminal {
            Some(Seq::empty())
        } else {
            match node.edges {
                None => Some(node.bootstrap),
                Some(edges) => edges_value(
                    arena,
                    idx,
                    edges,
                    gamma,
                    k,
                    0,
                    spec_filled(
                        if node.min_node {
                            N::spec_highest()
                        } else {
                            N::spec_lowest()
                        },
                        k,
                    ),
                ),
            }
        }
    }
}

/// `acc` bettered by the edges of `idx` from the `ei`-th on.
pub open spec fn edges_value<S, F, N: Scalar>(
    arena: Seq<NodeModel<S, F, N>>,
    idx: int,
    edges: Seq<Seq<BranchModel<N>>>,
    gamma: N,
    k: nat,
    ei: nat,
    acc: Seq<N>,
) -> Option<Seq<N>>
    decreases arena.len() - idx, 1int, edges.len() - ei,
{
    if ei >= edges.len() {
        Some(acc)
    } else {
        match edge_worth(
            arena,
            idx,
            edges[ei as int],
            gamma,
            k,
            0,
            spec_filled(N::spec_zero(), k),
        ) {
            None => None,
            Some(ev) => edges_value(
                arena,
                idx,
                edges,
                gamma,
                k,
                ei + 1,
                bettered(acc, ev, k, arena[idx].min_node),
            ),
        }
    }
}

/// The expectation over an edge's branches from the `bi`-th on, `acc` being what lies before:
/// reward plus discounted value, by weight.
pub open spec fn edge_worth<S, F, N: Scalar>(
    arena: Seq<NodeModel<S, F, N>>,
    idx: int,
    branches: Seq<BranchModel<N>>,
    gamma: N,
    k: nat,
    bi: nat,
    acc: Seq<N>,
) -> Option<Seq<N>>
    decreases arena.len() - idx, 0int, branches.len() - bi,
{
    if bi >= branches.len() {
        Some(acc)
    } else {
        let b = branches[bi as int];
        let c = b.child as int;
        if !(idx < c < arena.len()) {
            None
        } else if arena[c].terminal {
            edge_worth(arena, idx, branches, gamma, k, bi + 1, plus_final(acc, b, k))
        } else {
            match node_value(arena, c, gamma, k) {
                None => None,
                Some(v) => if v.len() < k {
                    None
                } else {
                    edge_worth(
                        arena,
                        idx,
                        branches,
                        gamma,
                        k,
                        bi + 1,
                        plus_branch(acc, b, gamma, v, k),
                    )
                },
            }
        }
    }
}

/// A value as a mathematical value.
pub open spec fn shown<N>(v: Option<Vec<N>>) -> Option<Seq<N>> {
    match v {
        Some(v) => Some(v@),
        None => None,
    }
}

/// `values` are right behind `idx`.
pub open spec fn valued_after<S, F, N: Scalar>(
    arena: Seq<NodeModel<S, F, N>>,
    values: Seq<Option<Vec<N>>>,
    gamma: N,
    k: nat,
    idx: int,
) -> bool {
    &&& values.len() == arena.len()
    &&& forall|j: int|
        idx < j < arena.len() ==> shown(#[trigger] values[j]) == node_value(arena, j, gamma, k)
}

#[verifier::loop_isolation(false)]
fn edge_value<S, F, N: Scalar>(
    arena: &Vec<Node<S, F, N>>,
    values: &Vec<Option<Vec<N>>>,
    idx: usize,
    branches: &Vec<Branch<N>>,
    gamma: N,
    k: usize,
) -> (r: Option<Vec<N>>)
    requires
        valued_after(node_models(arena@), values@, gamma, k as nat, idx as int),
    ensures
        shown(r) == edge_worth(
            node_models(arena@),
            idx as int,
            branch_models(branches@),
            gamma,
            k as nat,
            0,
            spec_filled(N::spec_zero(), k as nat),
        ),
        r matches Some(v) ==> v@.len() == k,
{
    let ghost models = node_models(arena@);
    let ghost listed = branch_models(branches@);
    let ghost goal = edge_worth(
        models,
        idx as int,
        listed,
        gamma,
        k as nat,
        0,
        spec_filled(N::spec_zero(), k as nat),
    );
    let mut acc: Vec<N> = filled(N::zero(), k);
    let mut bi: usize = 0;
    while bi < branches.len()
        invariant
            bi <= branches@.len(),
            acc@.len() == k,
            edge_worth(models, idx as int, listed, gamma, k as nat, bi as nat, acc@) == goal,
        decreases branches@.len() - bi,
    {
        let b = &branches[bi];
        assert(listed[bi as int] == b@);
        let c = b.child;
        if !(idx < c && c < arena.len()) {
            return None;
        }
        assert(models[c as int] == arena@[c as int]@);
        let ghost before = acc@;
        if arena[c].terminal {
            let share = b.weight.times(b.reward);
            let mut h: usize = 0;
            while h < k
                invariant
                    h <= k,
                    acc@.len() == k,
                    forall|i: int| 0 <= i < h ==> #[trigger] acc@[i] == before[i].spec_plus(share),
                    forall|i: int| h <= i < k ==> #[trigger] acc@[i] == before[i],
                decreases k - h,
            {
                let x = acc[h].plus(share);
                acc.set(h, x);
                h = h + 1;
            }
            assert(acc@ =~= plus_final(before, b@, k as nat));
        } else {
            assert(shown(values@[c as int]) == node_value(models, c as int, gamma, k as nat));
            let v = match &values[c] {
                Some(v) => v,
                None => return None,
            };
            if v.len() < k {
                return None;
            }
            let mut h: usize = 0;
            while h < k
                invariant
                    h <= k,
                    acc@.len() == k,
                    forall|i: int|
                        0 <= i < h ==> #[trigger] acc@[i] == plus_branch(
                            before,
                            b@,
                            gamma,
                            v@,
                            k as nat,
                        )[i],
                    forall|i: int| h <= i < k ==> #[trigger] acc@[i] == before[i],
                decreases k - h,
            {
                let x = acc[h].plus(b.weight.times(b.reward.plus(gamma.times(v[h]))));
                acc.set(h, x);
                h = h + 1;
            }
            assert(acc@ =~= plus_branch(before, b@, gamma, v@, k as nat));
        }
        bi = bi + 1;
    }
    Some(acc)
}

#[verifier::loop_isolation(false)]
fn value_of<S, F, N: Scalar>(
    arena: &Vec<Node<S, F, N>>,
    values: &Vec<Option<Vec<N>>>,
    idx: usize,
    gamma: N,
    k: usize,
) -> (r: Option<Vec<N>>)
    requires
        idx < arena@.len(),
        valued_after(node_models(arena@), values@, gamma, k as nat, idx as int),
    ensures
        shown(r) == node_value(node_models(arena@), idx as int, gamma, k as nat),
{
    let ghost models = node_models(arena@);
    let node = &arena[idx];
    assert(models[idx as int] == node@);
    if node.terminal {
        let none: Vec<N> = Vec::new();
        return Some(none);
    }
    let edges = match &node.edges {
        None => return Some(copied(&node.bootstrap)),
        Some(edges) => edges,
    };
    let ghost listed = edge_models(edges@);
    let ghost goal = node_value(models, idx as int, gamma, k as nat);
    let start = if node.min_node {
        N::highest()
    } else {
        N::lowest()
    };
    let mut acc: Vec<N> = filled(start, k);
    let mut ei: usize = 0;
    while ei < edges.len()
        invariant
            ei <= edges@.len(),
            acc@.len() == k,
            edges_value(models, idx as int, listed, gamma, k as nat, ei as nat, acc@) == goal,
        decreases edges@.len() - ei,
    {
        assert(listed[ei as int] == branch_models(edges@[ei as int].branches@));
        let ev = match edge_value(arena, values, idx, &edges[ei].branches, gamma, k) {
            Some(ev) => ev,
            None => return None,
        };
        let ghost before = acc@;
        let mut h: usize = 0;
        while h < k
            invariant
                h <= k,
                acc@.len() == k,
                forall|i: int|
                    0 <= i < h ==> #[trigger] acc@[i] == bettered(
                        before,
                        ev@,
                        k as nat,
                        node.min_node,
                    )[i],
                forall|i: int| h <= i < k ==> #[trigger] acc@[i] == before[i],
            decreases k - h,
        {
            let x = if node.min_node {
                acc[h].smaller(ev[h])
            } else {
                acc[h].larger(ev[h])
            };
            acc.set(h, x);
            h = h + 1;
        }
        assert(acc@ =~= bettered(before, ev@, k as nat, node.min_node));
        ei = ei + 1;
    }
    Some(acc)
}

/// The value of every node, children before parents.
pub fn resolve<S, F, N: Scalar>(arena: &Vec<Node<S, F, N>>, gamma: N, k: usize) -> (r: Vec<
    Option<Vec<N>>,
>)
    ensures
        valued_after(node_models(arena@), r@, gamma, k as nat, -1),
{
    let ghost models = node_models(arena@);
    let n = arena.len();
    let mut values: Vec<Option<Vec<N>>> = Vec::new();
    let mut i: usize = 0;
    while i < n
        invariant
            i <= n,
            values@.len() == i,
        decreases n - i,
    {
        values.push(None);
        i = i + 1;
    }
    let mut idx: usize = n;
    while idx > 0
        invariant
            idx <= n == arena@.len() == values@.len(),
            models == node_models(arena@),
            valued_after(models, values@, gamma, k as nat, idx - 1),
        decreases idx,
    {
        idx = idx - 1;
        let v = value_of(arena, &values, idx, gamma, k);
        let ghost before = values@;
        values.set(idx, v);
        assert forall|j: int| idx - 1 < j < models.len() implies shown(#[trigger] values@[j])
            == node_value(models, j, gamma, k as nat) by {
            if j > idx {
                assert(values@[j] == before[j]);
            }
        }
    }
    values
}

/// A matrix of zeros.
pub open spec fn zeros<N: Scalar>(k: nat, a: nat) -> Seq<Seq<N>> {
    Seq::new(k, |h: int| spec_filled(N::spec_zero(), a))
}

fn zero_matrix<N: Scalar>(k: usize, a: usize) -> (r: Vec<Vec<N>>)
    ensures
        matrix(r@) == zeros::<N>(k as nat, a as nat),
{
    let mut r: Vec<Vec<N>> = Vec::new();
    let mut h: usize = 0;
    while h < k
        invariant
            h <= k,
            r@.len() == h,
            forall|i: int| 0 <= i < h ==> (#[trigger] r@[i])@ == spec_filled(
                N::spec_zero(),
                a as nat,
            ),
        decreases k - h,
    {
        r.push(filled(N::zero(), a));
        h = h + 1;
    }
    assert(matrix(r@) =~= zeros::<N>(k as nat, a as nat));
    r
}

/// `m` with `ev` down column `action`.
pub open spec fn with_column<N>(m: Seq<Seq<N>>, action: int, ev: Seq<N>) -> Seq<Seq<N>> {
    Seq::new(m.len(), |h: int| m[h].update(action, ev[h]))
}

/// The matrix with the worth of the edges from the `slot`-th on, each down its action's column.
/// Edges follow the legal actions.
pub open spec fn columns<S, F, N: Scalar>(
    arena: Seq<NodeModel<S, F, N>>,
    idx: int,
    edges: Seq<Seq<BranchModel<N>>>,
    legal: Seq<usize>,
    gamma: N,
    k: nat,
    a: nat,
    slot: nat,
    out: Seq<Seq<N>>,
) -> Result<Seq<Seq<N>>, Fault>
    decreases edges.len() - slot,
{
    if slot >= edges.len() {
        Ok(out)
    } else {
        match edge_worth(
            arena,
            idx,
            edges[slot as int],
            gamma,
            k,
            0,
            spec_filled(N::spec_zero(), k),
        ) {
            None => Err(Fault::HeadCount),
            Some(ev) => {
                let action = if slot < legal.len() {
                    legal[slot as int] as nat
                } else {
                    slot
                };
                if action >= a {
                    Err(Fault::ActionRange)
                } else {
                    columns(
                        arena,
                        idx,
                        edges,
                        legal,
                        gamma,
                        k,
                        a,
                        slot + 1,
                        with_column(out, action as int, ev),
                    )
                }
            },
        }
    }
}

/// The action values of a node, per head: zeros where it has no edges.
pub open spec fn spec_action_values<S, F, N: Scalar>(
    arena: Seq<NodeModel<S, F, N>>,
    idx: int,
    legal: Seq<usize>,
    gamma: N,
    k: nat,
    a: nat,
) -> Result<Seq<Seq<N>>, Fault> {
    match arena[idx].edges {
        None => Ok(zeros(k, a)),
        Some(edges) => columns(arena, idx, edges, legal, gamma, k, a, 0, zeros(k, a)),
    }
}

fn write_column<N: Scalar>(m: &mut Vec<Vec<N>>, action: usize, ev: &Vec<N>, a: usize)
    requires
        action < a,
        ev@.len() == old(m)@.len(),
        forall|h: int| 0 <= h < old(m)@.len() ==> (#[trigger] old(m)@[h])@.len() == a,
    ensures
        matrix(final(m)@) == with_column(matrix(old(m)@), action as int, ev@),
        final(m)@.len() == old(m)@.len(),
        forall|h: int| 0 <= h < final(m)@.len() ==> (#[trigger] final(m)@[h])@.len() == a,
{
    let mut h: usize = 0;
    while h < m.len()
        invariant
            h <= m@.len() == old(m)@.len() == ev@.len(),
            action < a,
            forall|i: int| 0 <= i < m@.len() ==> (#[trigger] m@[i])@.len() == a,
            forall|i: int|
                0 <= i < h ==> (#[trigger] m@[i])@ == old(m)@[i]@.update(action as int, ev@[i]),
            forall|i: int| h <= i < m@.len() ==> (#[trigger] m@[i])@ == old(m)@[i]@,
        decreases m@.len() - h,
    {
        m[h][action] = ev[h];
        h = h + 1;
    }
    assert(matrix(m@) =~= with_column(matrix(old(m)@), action as int, ev@));
}

#[verifier::loop_isolation(false)]
fn node_action_values<S, F, N: Scalar>(
    arena: &Vec<Node<S, F, N>>,
    values: &Vec<Option<Vec<N>>>,
    idx: usize,
    legal: &[usize],
    gamma: N,
    k: usize,
    a: usize,
) -> (r: Result<Vec<Vec<N>>, Fault>)
    requires
        idx < arena@.len(),
        valued_after(node_models(arena@), values@, gamma, k as nat, -1),
    ensures
        match r {
            Ok(m) => spec_action_values(
                node_models(arena@),
                idx as int,
                legal@,
                gamma,
                k as nat,
                a as nat,
            ) == Ok::<_, Fault>(matrix(m@)),
            Err(f) => spec_action_values(
                node_models(arena@),
                idx as int,
                legal@,
                gamma,
                k as nat,
                a as nat,
            ) == Err::<Seq<Seq<N>>, _>(f),
        },
{
    let ghost models = node_models(arena@);
    let node = &arena[idx];
    assert(models[idx as int] == node@);
    let ghost goal = spec_action_values(models, idx as int, legal@, gamma, k as nat, a as nat);
    let mut out: Vec<Vec<N>> = zero_matrix(k, a);
    assert(out@.len() == k) by {
        assert(matrix(out@).len() == k);
    }
    assert forall|h: int| 0 <= h < out@.len() implies (#[trigger] out@[h])@.len() == a by {
        assert(matrix(out@)[h] == out@[h]@);
    }
    let edges = match &node.edges {
        None => return Ok(out),
        Some(edges) => edges,
    };
    let ghost listed = edge_models(edges@);
    let mut slot: usize = 0;
    while slot < edges.len()
        invariant
            slot <= edges@.len(),
            out@.len() == k,
            forall|h: int| 0 <= h < out@.len() ==> (#[trigger] out@[h])@.len() == a,
            columns(
                models,
                idx as int,
                listed,
                legal@,
                gamma,
                k as nat,
                a as nat,
                slot as nat,
                matrix(out@),
            ) == goal,
        decreases edges@.len() - slot,
    {
        assert(listed[slot as int] == branch_models(edges@[slot as int].branches@));
        let ev = match edge_value(arena, values, idx, &edges[slot].branches, gamma, k) {
            Some(ev) => ev,
            None => return Err(Fault::HeadCount),
        };
        let action = if slot < legal.len() {
            legal[slot]
        } else {
            slot
        };
        if action >= a {
            return Err(Fault::ActionRange);
        }
        write_column(&mut out, action, &ev, a);
        slot = slot + 1;
    }
    Ok(out)
}

/// An interior training target: an observation, and values per head and action.
pub type InteriorTarget<F, N> = (Vec<F>, Vec<Vec<N>>);

/// Interior targets as mathematical values.
pub open spec fn targets<F, N>(out: Seq<InteriorTarget<F, N>>) -> Seq<(Seq<F>, Seq<Seq<N>>)> {
    out.map_values(|t: InteriorTarget<F, N>| (t.0@, matrix(t.1@)))
}

/// `out` with the targets of the subtree at `idx`, parents first: its searcher decisions that were
/// searched in full. Opponent decisions give none, nor do beamed ones, whose rows would train
/// unsearched actions toward zero.
pub open spec fn interior<N: Scalar, G: Game<N>, F>(
    game: G,
    agent: usize,
    arena: Seq<NodeModel<G::State, F, N>>,
    idx: int,
    gamma: N,
    k: nat,
    out: Seq<(Seq<F>, Seq<Seq<N>>)>,
) -> Result<Seq<(Seq<F>, Seq<Seq<N>>)>, Fault>
    decreases arena.len() - idx, 2int, 0int,
{
    if idx < 0 || idx >= arena.len() {
        Ok(out)
    } else {
        let node = arena[idx];
        if node.terminal || node.edges is None {
            Ok(out)
        } else {
            let edges = node.edges->0;
            let legal = game.spec_legal_actions(node.state, agent);
            if node.max_node && edges.len() == legal.len() {
                match spec_action_values(
                    arena,
                    idx,
                    legal,
                    gamma,
                    k,
                    game.spec_action_count() as nat,
                ) {
                    Err(f) => Err(f),
                    Ok(values) => interior_edges(
                        game,
                        agent,
                        arena,
                        idx,
                        edges,
                        gamma,
                        k,
                        0,
                        out.push((node.obs, values)),
                    ),
                }
            } else {
                interior_edges(game, agent, arena, idx, edges, gamma, k, 0, out)
            }
        }
    }
}

/// `out` with the targets behind the edges of `idx` from the `ei`-th on.
pub open spec fn interior_edges<N: Scalar, G: Game<N>, F>(
    game: G,
    agent: usize,
    arena: Seq<NodeModel<G::State, F, N>>,
    idx: int,
    edges: Seq<Seq<BranchModel<N>>>,
    gamma: N,
    k: nat,
    ei: nat,
    out: Seq<(Seq<F>, Seq<Seq<N>>)>,
) -> Result<Seq<(Seq<F>, Seq<Seq<N>>)>, Fault>
    decreases arena.len() - idx, 1int, edges.len() - ei,
{
    if ei >= edges.len() {
        Ok(out)
    } else {
        match interior_branches(game, agent, arena, idx, edges[ei as int], gamma, k, 0, out) {
            Err(f) => Err(f),
            Ok(more) => interior_edges(game, agent, arena, idx, edges, gamma, k, ei + 1, more),
        }
    }
}

/// `out` with the targets behind the branches from the `bi`-th on.
pub open spec fn interior_branches<N: Scalar, G: Game<N>, F>(
    game: G,
    agent: usize,
    arena: Seq<NodeModel<G::State, F, N>>,
    idx: int,
    branches: Seq<BranchModel<N>>,
    gamma: N,
    k: nat,
    bi: nat,
    out: Seq<(Seq<F>, Seq<Seq<N>>)>,
) -> Result<Seq<(Seq<F>, Seq<Seq<N>>)>, Fault>
    decreases arena.len() - idx, 0int, branches.len() - bi,
{
    if bi >= branches.len() {
        Ok(out)
    } else {
        let c = branches[bi as int].child as int;
        if !(idx < c < arena.len()) {
            interior_branches(game, agent, arena, idx, branches, gamma, k, bi + 1, out)
        } else {
            match interior(game, agent, arena, c, gamma, k, out) {
                Err(f) => Err(f),
                Ok(more) => interior_branches(
                    game,
                    agent,
                    arena,
                    idx,
                    branches,
                    gamma,
                    k,
                    bi + 1,
                    more,
                ),
            }
        }
    }
}

fn collect_interior_targets<N: Scalar, G: Game<N>, F: Copy>(
    game: &G,
    agent: usize,
    arena: &Vec<Node<G::State, F, N>>,
    values: &Vec<Option<Vec<N>>>,
    idx: usize,
    gamma: N,
    k: usize,
    out: &mut Vec<InteriorTarget<F, N>>,
) -> (r: Result<(), Fault>)
    requires
        idx < arena@.len(),
        valued_after(node_models(arena@), values@, gamma, k as nat, -1),
    ensures
        match r {
            Ok(_) => interior(
                *game,
                agent,
                node_models(arena@),
                idx as int,
                gamma,
                k as nat,
                targets(old(out)@),
            ) == Ok::<_, Fault>(targets(final(out)@)),
            Err(f) => interior(
                *game,
                agent,
                node_models(arena@),
                idx as int,
                gamma,
                k as nat,
                targets(old(out)@),
            ) == Err::<Seq<(Seq<F>, Seq<Seq<N>>)>, _>(f),
        },
    decreases arena@.len() - idx, 1int,
{
    let node = &arena[idx];
    assert(node_models(arena@)[idx as int] == node@);
    if node.terminal {
        return Ok(());
    }
    let edges = match &node.edges {
        None => return Ok(()),
        Some(edges) => edges,
    };
    let legal = game.legal_actions(&node.state, agent);
    if node.max_node && edges.len() == legal.len() {
        let rows = match node_action_values(
            arena,
            values,
            idx,
            &legal,
            gamma,
            k,
            game.action_count(),
        ) {
            Ok(rows) => rows,
            Err(f) => return Err(f),
        };
        let ghost listed = targets(out@);
        let ghost shown_rows = matrix(rows@);
        out.push((copied(&node.obs), rows));
        assert(targets(out@) =~= listed.push((node@.obs, shown_rows)));
    }
    collect_behind(game, agent, arena, values, idx, edges, gamma, k, out)
}

#[verifier::loop_isolation(false)]
fn collect_behind<N: Scalar, G: Game<N>, F: Copy>(
    game: &G,
    agent: usize,
    arena: &Vec<Node<G::State, F, N>>,
    values: &Vec<Option<Vec<N>>>,
    idx: usize,
    edges: &Vec<Edge<N>>,
    gamma: N,
    k: usize,
    out: &mut Vec<InteriorTarget<F, N>>,
) -> (r: Result<(), Fault>)
    requires
        idx < arena@.len(),
        valued_after(node_models(arena@), values@, gamma, k as nat, -1),
    ensures
        match r {
            Ok(_) => interior_edges(
                *game,
                agent,
                node_models(arena@),
                idx as int,
                edge_models(edges@),
                gamma,
                k as nat,
                0,
                targets(old(out)@),
            ) == Ok::<_, Fault>(targets(final(out)@)),
            Err(f) => interior_edges(
                *game,
                agent,
                node_models(arena@),
                idx as int,
                edge_models(edges@),
                gamma,
                k as nat,
                0,
                targets(old(out)@),
            ) == Err::<Seq<(Seq<F>, Seq<Seq<N>>)>, _>(f),
        },
    decreases arena@.len() - idx, 0int,
{
    let ghost models = node_models(arena@);
    let ghost listed = edge_models(edges@);
    let ghost goal = interior_edges(
        *game,
        agent,
        models,
        idx as int,
        listed,
        gamma,
        k as nat,
        0,
        targets(old(out)@),
    );
    let mut ei: usize = 0;
    while ei < edges.len()
        invariant
            ei <= edges@.len(),
            interior_edges(
                *game,
                agent,
                models,
                idx as int,
                listed,
                gamma,
                k as nat,
                ei as nat,
                targets(out@),
            ) == goal,
        decreases edges@.len() - ei,
    {
        let branches = &edges[ei].branches;
        let ghost row = branch_models(branches@);
        assert(listed[ei as int] == row);
        let ghost entering = targets(out@);
        let mut bi: usize = 0;
        while bi < branches.len()
            invariant
                bi <= branches@.len(),
                interior_branches(
                    *game,
                    agent,
                    models,
                    idx as int,
                    row,
                    gamma,
                    k as nat,
                    bi as nat,
                    targets(out@),
                ) == interior_branches(
                    *game,
                    agent,
                    models,
                    idx as int,
                    row,
                    gamma,
                    k as nat,
                    0,
                    entering,
                ),
            decreases branches@.len() - bi,
        {
            let c = branches[bi].child;
            assert(row[bi as int].child == c);
            if idx < c && c < arena.len() {
                match collect_interior_targets(game, agent, arena, values, c, gamma, k, out) {
                    Ok(_) => {},
                    Err(f) => return Err(f),
                }
            }
            bi = bi + 1;
        }
        ei = ei + 1;
    }
    Ok(())
}

/// What a search gives back: root values per head and action, interior targets, accounting.
pub type SearchResult<F, N> = (Vec<Vec<N>>, Vec<InteriorTarget<F, N>>, SearchStats<N>);

/// A search result as a mathematical value.
pub open spec fn result_model<F, N>(r: SearchResult<F, N>) -> (
    Seq<Seq<N>>,
    Seq<(Seq<F>, Seq<Seq<N>>)>,
    SearchStats<N>,
) {
    (matrix(r.0@), targets(r.1@), r.2)
}

/// What a finished search gives back.
#[verifier::opaque]
pub open spec fn spec_finish<N: Scalar, G: Game<N>, F>(
    game: G,
    cfg: SearchConfig<N>,
    m: SearchModel<G::State, F, N>,
    collect_interior: bool,
) -> Result<(Seq<Seq<N>>, Seq<(Seq<F>, Seq<Seq<N>>)>, SearchStats<N>), Fault> {
    let k = m.n_heads as nat;
    if node_value(m.arena, 0, cfg.gamma, k) is None {
        Err(Fault::HeadCount)
    } else {
        match spec_action_values(
            m.arena,
            0,
            game.spec_legal_actions(m.arena[0].state, m.agent),
            cfg.gamma,
            k,
            game.spec_action_count() as nat,
        ) {
            Err(f) => Err(f),
            Ok(values) => if collect_interior && m.arena[0].edges is Some {
                match interior_edges(
                    game,
                    m.agent,
                    m.arena,
                    0,
                    m.arena[0].edges->0,
                    cfg.gamma,
                    k,
                    0,
                    Seq::empty(),
                ) {
                    Err(f) => Err(f),
                    Ok(out) => Ok((values, out, m.stats)),
                }
            } else {
                Ok((values, Seq::empty(), m.stats))
            },
        }
    }
}

/// Reads a finished search: root values in the searcher's action frame, and the targets below the
/// root where they are asked for.
pub fn finish<N: Scalar, G: Game<N>, F: Copy>(
    game: &G,
    cfg: &SearchConfig<N>,
    s: &Search<G::State, F, N>,
    collect_interior: bool,
) -> (r: Result<SearchResult<F, N>, Fault>)
    requires
        s@.arena.len() > 0,
    ensures
        match r {
            Ok(out) => spec_finish(*game, *cfg, s@, collect_interior) == Ok::<_, Fault>(
                result_model(out),
            ),
            Err(f) => spec_finish(*game, *cfg, s@, collect_interior) == Err::<
                (Seq<Seq<N>>, Seq<(Seq<F>, Seq<Seq<N>>)>, SearchStats<N>),
                _,
            >(f),
        },
{
    reveal(spec_finish);
    let values = resolve(&s.arena, cfg.gamma, s.n_heads);
    assert(shown(values@[0]) == node_value(s@.arena, 0, cfg.gamma, s.n_heads as nat));
    if values[0].is_none() {
        return Err(Fault::HeadCount);
    }
    assert(s@.arena[0] == s.arena@[0]@);
    let legal = game.legal_actions(&s.arena[0].state, s.agent);
    let rows = match node_action_values(
        &s.arena,
        &values,
        0,
        &legal,
        cfg.gamma,
        s.n_heads,
        game.action_count(),
    ) {
        Ok(rows) => rows,
        Err(f) => return Err(f),
    };
    let mut out: Vec<InteriorTarget<F, N>> = Vec::new();
    assert(targets(out@) =~= Seq::empty());
    if collect_interior {
        match &s.arena[0].edges {
            None => {},
            Some(edges) => {
                match collect_behind(
                    game,
                    s.agent,
                    &s.arena,
                    &values,
                    0,
                    edges,
                    cfg.gamma,
                    s.n_heads,
                    &mut out,
                ) {
                    Ok(_) => {},
                    Err(f) => return Err(f),
                }
            },
        }
    }
    Ok((rows, out, s.stats))
}

} // verus!
