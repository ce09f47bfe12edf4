//! What an action is worth in an expectimax tree: the mean of its branches' returns, by weight; and
//! what a node is worth: the best of its actions, or the worst where the opponent minimizes.

use vstd::prelude::*;

#[allow(unused_imports)]
use super::backup::{
    bettered, columns, edge_worth, edges_value, node_value, plus_branch, plus_final,
    spec_action_values, spec_finish, with_column, zeros,
};
#[allow(unused_imports)]
use super::evaluate::{
    gathered, heads_of, leaf_evaluated, leaf_legal, leaf_values, spec_std, strays,
};
#[allow(unused_imports)]
use super::tree::{leaf_player, BranchModel, Ctx, NodeModel, SearchConfig, SearchModel};
#[allow(unused_imports)]
use crate::encoder::StateEncoder;
#[allow(unused_imports)]
use crate::game::{Actor, Game};
#[allow(unused_imports)]
use crate::num::{
    law_largest, law_ring, law_sum, law_sum_scales, picks, ring, spec_largest, spec_sum, Scalar,
};
#[allow(unused_imports)]
use crate::reward::Reward;
#[allow(unused_imports)]
use crate::util::spec_filled;

verus! {

/// What head `h` sees come of a branch: its reward where the game ends there, else the reward and the
/// discounted value of what it leads to.
pub open spec fn branch_return<S, F, N: Scalar>(
    arena: Seq<NodeModel<S, F, N>>,
    b: BranchModel<N>,
    gamma: N,
    k: nat,
    h: int,
) -> N {
    let child = arena[b.child as int];
    if child.terminal {
        b.reward
    } else {
        b.reward.spec_plus(
            gamma.spec_times(node_value(arena, b.child as int, gamma, k)->Some_0[h]),
        )
    }
}

/// The weights of an edge's branches.
pub open spec fn weights<N>(branches: Seq<BranchModel<N>>) -> Seq<N> {
    branches.map_values(|b: BranchModel<N>| b.weight)
}

/// The worth of an edge.
pub open spec fn worth_of_edge<S, F, N: Scalar>(
    arena: Seq<NodeModel<S, F, N>>,
    idx: int,
    branches: Seq<BranchModel<N>>,
    gamma: N,
    k: nat,
) -> Option<Seq<N>> {
    edge_worth(arena, idx, branches, gamma, k, 0, spec_filled(N::spec_zero(), k))
}

proof fn lemma_edge<S, F, N: Scalar>(
    arena: Seq<NodeModel<S, F, N>>,
    idx: int,
    branches: Seq<BranchModel<N>>,
    gamma: N,
    k: nat,
    bi: nat,
    acc: Seq<N>,
    h: int,
)
    requires
        bi <= branches.len(),
        acc.len() == k,
        0 <= h < k,
        acc[h] == spec_sum(
            Seq::new(
                bi,
                |i: int|
                    branches[i].weight.spec_times(branch_return(arena, branches[i], gamma, k, h)),
            ),
        ),
    ensures
        edge_worth(arena, idx, branches, gamma, k, bi, acc) matches Some(v) ==> v.len() == k && v[h]
            == spec_sum(
            Seq::new(
                branches.len(),
                |i: int|
                    branches[i].weight.spec_times(branch_return(arena, branches[i], gamma, k, h)),
            ),
        ),
    decreases branches.len() - bi,
{
    let term = |i: int|
        branches[i].weight.spec_times(branch_return(arena, branches[i], gamma, k, h));
    if bi < branches.len() {
        let b = branches[bi as int];
        let c = b.child as int;
        let so_far = Seq::new(bi, term);
        law_sum(so_far, term(bi as int));
        assert(so_far.push(term(bi as int)) =~= Seq::new(bi + 1, term));
        if idx < c < arena.len() {
            if arena[c].terminal {
                lemma_edge(arena, idx, branches, gamma, k, bi + 1, plus_final(acc, b, k), h);
            } else if let Some(v) = node_value(arena, c, gamma, k) {
                if v.len() >= k {
                    lemma_edge(
                        arena,
                        idx,
                        branches,
                        gamma,
                        k,
                        bi + 1,
                        plus_branch(acc, b, gamma, v, k),
                        h,
                    );
                }
            }
        }
    }
}

/// An edge is worth the sum, over its branches, of weight times return.
pub proof fn law_edges_are_weighted_means<S, F, N: Scalar>(
    arena: Seq<NodeModel<S, F, N>>,
    idx: int,
    branches: Seq<BranchModel<N>>,
    gamma: N,
    k: nat,
    h: int,
)
    requires
        0 <= h < k,
    ensures
        worth_of_edge(arena, idx, branches, gamma, k) matches Some(v) ==> v.len() == k && v[h]
            == spec_sum(
            Seq::new(
                branches.len(),
                |i: int|
                    branches[i].weight.spec_times(branch_return(arena, branches[i], gamma, k, h)),
            ),
        ),
{
    let term = |i: int|
        branches[i].weight.spec_times(branch_return(arena, branches[i], gamma, k, h));
    assert(Seq::new(0, term) =~= Seq::empty());
    law_sum(Seq::<N>::empty(), N::spec_zero());
    lemma_edge(arena, idx, branches, gamma, k, 0, spec_filled(N::spec_zero(), k), h);
}

/// Where every branch returns the same and the weights add up to one, that is what the edge is worth:
/// an action whose outcomes all pay alike is worth what each of them pays.
pub proof fn law_sure_returns_are_worth_themselves<S, F, N: Scalar>(
    arena: Seq<NodeModel<S, F, N>>,
    idx: int,
    branches: Seq<BranchModel<N>>,
    gamma: N,
    k: nat,
    h: int,
    x: N,
)
    requires
        ring::<N>(),
        0 <= h < k,
        forall|i: int|
            0 <= i < branches.len() ==> branch_return(
                arena,
                #[trigger] branches[i],
                gamma,
                k,
                h,
            ) == x,
        spec_sum(weights(branches)) == N::spec_one(),
    ensures
        worth_of_edge(arena, idx, branches, gamma, k) matches Some(v) ==> v[h] == x,
{
    law_edges_are_weighted_means(arena, idx, branches, gamma, k, h);
    let terms = Seq::new(
        branches.len(),
        |i: int| branches[i].weight.spec_times(branch_return(arena, branches[i], gamma, k, h)),
    );
    assert(terms =~= weights(branches).map_values(|w: N| w.spec_times(x)));
    law_sum_scales(weights(branches), x);
    law_ring(x, x, x);
}

/// A branch of no weight adds nothing: an edge with one more is worth the same.
pub proof fn law_weightless_branches_add_nothing<S, F, N: Scalar>(
    arena: Seq<NodeModel<S, F, N>>,
    idx: int,
    branches: Seq<BranchModel<N>>,
    b: BranchModel<N>,
    gamma: N,
    k: nat,
    h: int,
)
    requires
        ring::<N>(),
        0 <= h < k,
        b.weight == N::spec_zero(),
        worth_of_edge(arena, idx, branches, gamma, k) is Some,
        worth_of_edge(arena, idx, branches.push(b), gamma, k) is Some,
    ensures
        worth_of_edge(arena, idx, branches.push(b), gamma, k)->Some_0[h] == worth_of_edge(
            arena,
            idx,
            branches,
            gamma,
            k,
        )->Some_0[h],
{
    let more = branches.push(b);
    law_edges_are_weighted_means(arena, idx, branches, gamma, k, h);
    law_edges_are_weighted_means(arena, idx, more, gamma, k, h);
    let terms = Seq::new(
        branches.len(),
        |i: int| branches[i].weight.spec_times(branch_return(arena, branches[i], gamma, k, h)),
    );
    let all = Seq::new(
        more.len(),
        |i: int| more[i].weight.spec_times(branch_return(arena, more[i], gamma, k, h)),
    );
    let last = b.weight.spec_times(branch_return(arena, b, gamma, k, h));
    assert(all =~= terms.push(last));
    law_sum(terms, last);
    law_ring(branch_return(arena, b, gamma, k, h), spec_sum(terms), last);
    law_ring(spec_sum(terms), last, last);
}

/// What the edges of a node are worth to head `h`.
pub open spec fn edge_worths<S, F, N: Scalar>(
    arena: Seq<NodeModel<S, F, N>>,
    idx: int,
    edges: Seq<Seq<BranchModel<N>>>,
    gamma: N,
    k: nat,
    h: int,
) -> Seq<N> {
    Seq::new(edges.len(), |e: int| worth_of_edge(arena, idx, edges[e], gamma, k)->Some_0[h])
}

proof fn lemma_best<S, F, N: Scalar>(
    arena: Seq<NodeModel<S, F, N>>,
    idx: int,
    edges: Seq<Seq<BranchModel<N>>>,
    gamma: N,
    k: nat,
    ei: nat,
    acc: Seq<N>,
    h: int,
)
    requires
        picks::<N>(),
        0 <= h < k,
        acc.len() == k,
        ei <= edges.len(),
        forall|e: int|
            0 <= e < edges.len() ==> (#[trigger] edge_worths(
                arena,
                idx,
                edges,
                gamma,
                k,
                h,
            )[e]).spec_is_number(),
        ei == 0 ==> acc[h] == if arena[idx].min_node {
            N::spec_highest()
        } else {
            N::spec_lowest()
        },
        ei > 0 ==> best_of(
            edge_worths(arena, idx, edges, gamma, k, h).take(ei as int),
            acc[h],
            arena[idx].min_node,
        ),
    ensures
        edges_value(arena, idx, edges, gamma, k, ei, acc) matches Some(v) ==> v.len() == k && (
        edges.len() > 0 ==> best_of(
            edge_worths(arena, idx, edges, gamma, k, h),
            v[h],
            arena[idx].min_node,
        )),
    decreases edges.len() - ei,
{
    let all = edge_worths(arena, idx, edges, gamma, k, h);
    if ei < edges.len() {
        if let Some(ev) = worth_of_edge(arena, idx, edges[ei as int], gamma, k) {
            let min = arena[idx].min_node;
            let next = bettered(acc, ev, k, min);
            let sofar = all.take(ei as int);
            let now = all.take((ei + 1) as int);
            assert(all[ei as int] == ev[h]);
            assert(ev[h].spec_is_number());
            assert(now =~= sofar.push(ev[h]));
            assert(best_of(now, next[h], min)) by {
                if ei > 0 {
                    let j = choose|j: int| 0 <= j < sofar.len() && #[trigger] sofar[j] == acc[h];
                    assert(sofar[j] == all[j]);
                    assert(acc[h].spec_is_number());
                    assert(now[j] == acc[h] && now[ei as int] == ev[h]);
                    assert forall|i: int| 0 <= i < now.len() implies if min {
                        !(#[trigger] now[i]).spec_less(next[h])
                    } else {
                        !next[h].spec_less(now[i])
                    } by {
                        if i < ei {
                            assert(now[i] == sofar[i]);
                            assert(all[i].spec_is_number());
                        }
                    }
                } else {
                    assert(now[0] == ev[h]);
                    assert(next[h] == ev[h]);
                    assert(now[0] == next[h]);
                }
            }
            lemma_best(arena, idx, edges, gamma, k, ei + 1, next, h);
        }
    } else if ei > 0 {
        assert(all.take(ei as int) =~= all);
    }
}

/// `x` is one of `xs`, and the best of them: none is above it, or none below it where it is the worst
/// that counts.
pub open spec fn best_of<N: Scalar>(xs: Seq<N>, x: N, worst: bool) -> bool {
    &&& exists|i: int| 0 <= i < xs.len() && #[trigger] xs[i] == x
    &&& forall|i: int|
        0 <= i < xs.len() ==> if worst {
            !(#[trigger] xs[i]).spec_less(x)
        } else {
            !x.spec_less(xs[i])
        }
}

/// A node that was expanded is worth what its best edge is worth, or its worst where the opponent
/// minimizes; one that was not is worth its evaluation.
pub proof fn law_nodes_are_worth_their_best_edge<S, F, N: Scalar>(
    arena: Seq<NodeModel<S, F, N>>,
    idx: int,
    gamma: N,
    k: nat,
    h: int,
)
    requires
        0 <= idx < arena.len(),
        0 <= h < k,
        !arena[idx].terminal,
        arena[idx].edges matches Some(edges) ==> picks::<N>() && edges.len() > 0 && forall|e: int|
            0 <= e < edges.len() ==> (#[trigger] edge_worths(
                arena,
                idx,
                edges,
                gamma,
                k,
                h,
            )[e]).spec_is_number(),
    ensures
        node_value(arena, idx, gamma, k) matches Some(v) ==> match arena[idx].edges {
            None => v == arena[idx].bootstrap,
            Some(edges) => v.len() == k && best_of(
                edge_worths(arena, idx, edges, gamma, k, h),
                v[h],
                arena[idx].min_node,
            ),
        },
{
    if let Some(edges) = arena[idx].edges {
        let start = spec_filled(
            if arena[idx].min_node {
                N::spec_highest()
            } else {
                N::spec_lowest()
            },
            k,
        );
        lemma_best(arena, idx, edges, gamma, k, 0, start, h);
    }
}

proof fn lemma_columns<S, F, N: Scalar>(
    arena: Seq<NodeModel<S, F, N>>,
    idx: int,
    edges: Seq<Seq<BranchModel<N>>>,
    legal: Seq<usize>,
    gamma: N,
    k: nat,
    a: nat,
    slot: nat,
    out: Seq<Seq<N>>,
    h: int,
    i: int,
    x: int,
)
    requires
        0 <= h < k,
        out.len() == k,
        out[h].len() == a,
        edges.len() <= legal.len(),
        legal.no_duplicates(),
        slot <= edges.len(),
        0 <= i < edges.len(),
        0 <= x < a,
        i < slot ==> legal[i] < a && out[h][legal[i] as int] == worth_of_edge(
            arena,
            idx,
            edges[i],
            gamma,
            k,
        )->Some_0[h],
        (forall|j: int| 0 <= j < edges.len() ==> #[trigger] legal[j] != x) ==> out[h][x]
            == N::spec_zero(),
    ensures
        columns(arena, idx, edges, legal, gamma, k, a, slot, out) matches Ok(v) ==> {
            &&& v.len() == k
            &&& v[h].len() == a
            &&& legal[i] < a
            &&& v[h][legal[i] as int] == worth_of_edge(arena, idx, edges[i], gamma, k)->Some_0[h]
            &&& (forall|j: int| 0 <= j < edges.len() ==> #[trigger] legal[j] != x) ==> v[h][x]
                == N::spec_zero()
        },
    decreases edges.len() - slot,
{
    if slot < edges.len() {
        if let Some(ev) = worth_of_edge(arena, idx, edges[slot as int], gamma, k) {
            let action = legal[slot as int];
            if action < a {
                let next = with_column(out, action as int, ev);
                if i < slot {
                    assert(legal[i] != legal[slot as int]);
                }
                lemma_columns(arena, idx, edges, legal, gamma, k, a, slot + 1, next, h, i, x);
            }
        }
    }
}

/// The action values of a node: down each legal action's column what its edge is worth, head by head,
/// and nothing down any other.
pub proof fn law_action_values_are_edge_worths<S, F, N: Scalar>(
    arena: Seq<NodeModel<S, F, N>>,
    idx: int,
    legal: Seq<usize>,
    gamma: N,
    k: nat,
    a: nat,
    h: int,
    i: int,
    x: int,
)
    requires
        arena[idx].edges is Some,
        0 <= h < k,
        arena[idx].edges->0.len() <= legal.len(),
        legal.no_duplicates(),
        0 <= i < arena[idx].edges->0.len(),
        0 <= x < a,
    ensures
        spec_action_values(arena, idx, legal, gamma, k, a) matches Ok(v) ==> {
            let edges = arena[idx].edges->0;
            &&& v.len() == k
            &&& v[h].len() == a
            &&& legal[i] < a
            &&& v[h][legal[i] as int] == worth_of_edge(arena, idx, edges[i], gamma, k)->Some_0[h]
            &&& (forall|j: int| 0 <= j < edges.len() ==> #[trigger] legal[j] != x) ==> v[h][x]
                == N::spec_zero()
        },
{
    let edges = arena[idx].edges->0;
    lemma_columns(arena, idx, edges, legal, gamma, k, a, 0, zeros(k, a), h, i, x);
}

/// What a search says of its root: of each legal action, head by head, the weighted mean of the
/// returns of its branches; of an action that is not legal, nothing.
pub proof fn law_searches_say_what_actions_return<N: Scalar, G: Game<N>, F>(
    game: G,
    cfg: SearchConfig<N>,
    m: SearchModel<G::State, F, N>,
    collect_interior: bool,
    h: int,
    i: int,
    x: int,
)
    requires
        m.arena[0].edges is Some,
        0 <= h < m.n_heads,
        m.arena[0].edges->0.len() <= game.spec_legal_actions(m.arena[0].state, m.agent).len(),
        game.spec_legal_actions(m.arena[0].state, m.agent).no_duplicates(),
        0 <= i < m.arena[0].edges->0.len(),
        0 <= x < game.spec_action_count(),
    ensures
        spec_finish(game, cfg, m, collect_interior) matches Ok((values, _, stats)) ==> {
            let legal = game.spec_legal_actions(m.arena[0].state, m.agent);
            let edges = m.arena[0].edges->0;
            let k = m.n_heads as nat;
            &&& values.len() == k
            &&& values[h][legal[i] as int] == spec_sum(
                Seq::new(
                    edges[i].len(),
                    |j: int|
                        edges[i][j].weight.spec_times(
                            branch_return(m.arena, edges[i][j], cfg.gamma, k, h),
                        ),
                ),
            )
            &&& (forall|j: int| 0 <= j < edges.len() ==> #[trigger] legal[j] != x)
                ==> values[h][x] == N::spec_zero()
            &&& stats == m.stats
        },
{
    reveal(spec_finish);
    let legal = game.spec_legal_actions(m.arena[0].state, m.agent);
    let edges = m.arena[0].edges->0;
    let k = m.n_heads as nat;
    let a = game.spec_action_count() as nat;
    law_action_values_are_edge_worths(m.arena, 0, legal, cfg.gamma, k, a, h, i, x);
    law_edges_are_weighted_means(m.arena, 0, edges[i], cfg.gamma, k, h);
    if let Ok(v) = spec_action_values(m.arena, 0, legal, cfg.gamma, k, a) {
        lemma_columns_some(m.arena, 0, edges, legal, cfg.gamma, k, a, 0, zeros(k, a), i);
    }
}

proof fn lemma_columns_some<S, F, N: Scalar>(
    arena: Seq<NodeModel<S, F, N>>,
    idx: int,
    edges: Seq<Seq<BranchModel<N>>>,
    legal: Seq<usize>,
    gamma: N,
    k: nat,
    a: nat,
    slot: nat,
    out: Seq<Seq<N>>,
    i: int,
)
    requires
        slot <= i < edges.len(),
        columns(arena, idx, edges, legal, gamma, k, a, slot, out) is Ok,
    ensures
        worth_of_edge(arena, idx, edges[i], gamma, k) is Some,
    decreases edges.len() - slot,
{
    if slot < i {
        let ev = worth_of_edge(arena, idx, edges[slot as int], gamma, k)->Some_0;
        let action = if slot < legal.len() {
            legal[slot as int] as nat
        } else {
            slot
        };
        let next = with_column(out, action as int, ev);
        lemma_columns_some(arena, idx, edges, legal, gamma, k, a, slot + 1, next, i);
    }
}

/// A leaf is worth the best of what its row holds for the legal actions, head by head: it is one of
/// these entries and none is above it; and to the searcher the opposite, where it is the adversary
/// that moves.
pub proof fn law_leaves_are_worth_their_best_action<N: Scalar>(
    row: Seq<N>,
    k: nat,
    a: nat,
    heads: Seq<usize>,
    adverse: bool,
    h: int,
) -> (best: int)
    requires
        picks::<N>(),
        0 <= h < k,
        heads.len() > 0,
        forall|i: int| 0 <= i < heads.len() ==> row[h * a + #[trigger] heads[i]].spec_is_number(),
    ensures
        0 <= best < heads.len(),
        forall|i: int|
            0 <= i < heads.len() ==> !row[h * a + heads[best]].spec_less(
                row[h * a + #[trigger] heads[i]],
            ),
        leaf_values(row, k, a, heads, adverse)[h] == if adverse {
            row[h * a + heads[best]].spec_negated()
        } else {
            row[h * a + heads[best]]
        },
{
    let entries = gathered(row, a, h as nat, heads);
    assert forall|i: int| 0 <= i < entries.len() implies (
    #[trigger] entries[i]).spec_is_number() by {
        assert(entries[i] == row[h * a + heads[i]]);
    }
    law_largest(entries);
    let best = choose|i: int| 0 <= i < entries.len() && #[trigger] entries[i] == spec_largest(entries);
    assert forall|i: int| 0 <= i < heads.len() implies !row[h * a + heads[best]].spec_less(
        row[h * a + #[trigger] heads[i]],
    ) by {
        assert(entries[i] == row[h * a + heads[i]]);
    }
    best
}

/// Evaluating a leaf touches that leaf alone. By its row, head by head, it is worth the best of its
/// mover's legal actions: one of their entries, with none above it, and the opposite of that to the
/// searcher where the row is its adversary's. How unsure it is, is the spread of the heads, which the
/// statistics count.
pub proof fn law_leaves_are_evaluated_by_their_row<
    N: Scalar,
    G: Game<N>,
    E: StateEncoder<State = G::State>,
    W: Reward<N, Event = G::Event>,
>(
    ctx: Ctx<N, G, E, W>,
    m: SearchModel<G::State, E::Feature, N>,
    li: int,
    row: Seq<N>,
    k: nat,
    h: int,
) -> (best: usize)
    requires
        picks::<N>(),
        0 <= li < m.arena.len(),
        0 <= h < k,
        forall|i: int| 0 <= i < row.len() ==> (#[trigger] row[i]).spec_is_number(),
        row.len() >= k * ctx.game.spec_action_count(),
    ensures
        leaf_evaluated(ctx, m, li, row, k) matches Ok(next) ==> {
            let a = ctx.game.spec_action_count() as int;
            let node = next.arena[li];
            let state = m.arena[li].state;
            let mover = match ctx.game.spec_actor(state) {
                Actor::Agent(x) => x,
                _ => m.agent,
            };
            let reader = if ctx.cfg.opponent is Adversarial {
                mover
            } else {
                m.agent
            };
            let legal = ctx.game.spec_legal_actions(state, mover);
            &&& next.arena.len() == m.arena.len()
            &&& forall|i: int|
                0 <= i < m.arena.len() && i != li ==> #[trigger] next.arena[i] == m.arena[i]
            &&& node.state == state
            &&& node.edges == m.arena[li].edges
            &&& node.path_weight == m.arena[li].path_weight
            &&& node.bootstrap.len() == k
            &&& legal.len() > 0 ==> {
                let entry = row[h * a + ctx.enc.spec_head_index(best, reader)];
                &&& legal.contains(best)
                &&& node.bootstrap[h] == if reader == m.agent {
                    entry
                } else {
                    entry.spec_negated()
                }
                &&& forall|i: int|
                    0 <= i < legal.len() ==> !entry.spec_less(
                        row[h * a + ctx.enc.spec_head_index(#[trigger] legal[i], reader)],
                    )
            }
            &&& node.sigma == spec_std(node.bootstrap)
            &&& next.stats.sigma_sum == m.stats.sigma_sum.spec_plus(node.sigma)
            &&& m.stats.leaves < usize::MAX ==> next.stats.leaves == m.stats.leaves + 1
            &&& next.frontier == m.frontier
        },
{
    let a = ctx.game.spec_action_count() as nat;
    let state = m.arena[li].state;
    if let Ok(next) = leaf_evaluated(ctx, m, li, row, k) {
        let legal = leaf_legal(*ctx.game, state, m.agent)->Ok_0;
        let reader = leaf_player(*ctx.game, ctx.cfg, state, m.agent);
        let heads = heads_of(*ctx.enc, legal, reader);
        if legal.len() > 0 {
            assert forall|i: int| 0 <= i < heads.len() implies row[h * a
                + #[trigger] heads[i]].spec_is_number() by {
                assert(!strays(heads, a));
                assert(heads[i] < a);
                assert(0 <= h * a + heads[i] < k * a) by (nonlinear_arith)
                    requires
                        0 <= h < k,
                        0 <= heads[i] < a,
                ;
            }
            let best = law_leaves_are_worth_their_best_action(
                row,
                k,
                a,
                heads,
                reader != m.agent,
                h,
            );
            assert(heads[best] == ctx.enc.spec_head_index(legal[best], reader));
            assert forall|i: int| 0 <= i < legal.len() implies !row[h * a + heads[best]].spec_less(
                row[h * a + ctx.enc.spec_head_index(#[trigger] legal[i], reader)],
            ) by {
                assert(heads[i] == ctx.enc.spec_head_index(legal[i], reader));
            }
            legal[best]
        } else {
            0
        }
    } else {
        0
    }
}

} // verus!
