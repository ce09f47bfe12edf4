//! How likely the nodes of an expectimax tree are reached.

use vstd::prelude::*;

#[allow(unused_imports)]
use super::evaluate::{batch_weighed, branch_weight, branches_weighed, edges_weighed, paths_written};
#[allow(unused_imports)]
use super::odds::law_paths_multiply;
#[allow(unused_imports)]
use super::tree::{BranchModel, NodeModel, SearchModel};
#[allow(unused_imports)]
use crate::fault::Fault;
#[allow(unused_imports)]
use crate::num::Scalar;

verus! {

/// `path` leads to the child of branch `b` of edge `e`, with what led to the node, the branch's weight
/// and the discount.
pub open spec fn pathed<N: Scalar>(
    edges: Seq<Seq<BranchModel<N>>>,
    weighed: Seq<Seq<BranchModel<N>>>,
    parent: N,
    gamma: N,
    path: (usize, N),
    e: int,
    b: int,
) -> bool {
    &&& 0 <= e < weighed.len() <= edges.len()
    &&& 0 <= b < edges[e].len()
    &&& path.0 == edges[e][b].child
    &&& path.1 == parent.spec_times(weighed[e][b].weight).spec_times(gamma)
}

/// `path` leads to some child.
pub open spec fn leads_down<N: Scalar>(
    edges: Seq<Seq<BranchModel<N>>>,
    weighed: Seq<Seq<BranchModel<N>>>,
    parent: N,
    gamma: N,
    path: (usize, N),
) -> bool {
    exists|e: int, b: int| #[trigger] pathed(edges, weighed, parent, gamma, path, e, b)
}

/// What is known once the first `i` edges are weighed.
pub open spec fn weighed_upto<N: Scalar>(
    edges: Seq<Seq<BranchModel<N>>>,
    probs: Seq<Seq<N>>,
    parent: N,
    gamma: N,
    i: nat,
    out: Seq<Seq<BranchModel<N>>>,
    paths: Seq<(usize, N)>,
) -> bool {
    &&& out.len() == i <= edges.len()
    &&& forall|e: int| 0 <= e < i ==> (#[trigger] out[e]).len() == edges[e].len()
    &&& forall|e: int, b: int|
        #![trigger out[e][b]]
        0 <= e < i && 0 <= b < edges[e].len() ==> {
            &&& out[e][b] == (BranchModel { weight: out[e][b].weight, ..edges[e][b] })
            &&& branch_weight(edges[e][b], probs) == Ok::<_, Fault>(out[e][b].weight)
            &&& paths.contains(
                (
                    edges[e][b].child,
                    parent.spec_times(out[e][b].weight).spec_times(gamma),
                ),
            )
        }
    &&& forall|p: int|
        0 <= p < paths.len() ==> leads_down(edges, out, parent, gamma, #[trigger] paths[p])
}

proof fn lemma_edges<N: Scalar>(
    edges: Seq<Seq<BranchModel<N>>>,
    probs: Seq<Seq<N>>,
    parent: N,
    gamma: N,
    i: nat,
    out: Seq<Seq<BranchModel<N>>>,
    paths: Seq<(usize, N)>,
)
    requires
        weighed_upto(edges, probs, parent, gamma, i, out, paths),
    ensures
        edges_weighed(edges, probs, parent, gamma, i, out, paths) matches Ok((w, all))
            ==> weighed_upto(edges, probs, parent, gamma, edges.len(), w, all),
    decreases edges.len() - i,
{
    if i < edges.len() {
        let edge = edges[i as int];
        if let Ok((branches, more)) = branches_weighed(
            edge,
            probs,
            parent,
            gamma,
            0,
            Seq::empty(),
            paths,
        ) {
            let next = out.push(branches);
            if edge.len() == 0 {
                assert(branches =~= Seq::empty() && more == paths);
            } else {
                law_paths_multiply(edge, probs, parent, gamma, paths, 0);
            }
            assert(branches.len() == edge.len() && more.len() == paths.len() + edge.len());
            assert forall|e: int, b: int|
                #![trigger next[e][b]]
                0 <= e < i + 1 && 0 <= b < edges[e].len() implies {
                &&& next[e][b] == (BranchModel { weight: next[e][b].weight, ..edges[e][b] })
                &&& branch_weight(edges[e][b], probs) == Ok::<_, Fault>(next[e][b].weight)
                &&& more.contains(
                    (
                        edges[e][b].child,
                        parent.spec_times(next[e][b].weight).spec_times(gamma),
                    ),
                )
            } by {
                if e < i {
                    assert(next[e][b] == out[e][b]);
                    let path = (
                        edges[e][b].child,
                        parent.spec_times(out[e][b].weight).spec_times(gamma),
                    );
                    let p = choose|p: int| 0 <= p < paths.len() && paths[p] == path;
                    if edge.len() > 0 {
                        law_paths_multiply(edge, probs, parent, gamma, paths, 0);
                        assert(more.take(paths.len() as int)[p] == paths[p]);
                    }
                    assert(more[p] == path);
                } else {
                    law_paths_multiply(edge, probs, parent, gamma, paths, b);
                    assert(next[e][b] == branches[b]);
                    assert(more[paths.len() + b] == (
                        edges[e][b].child,
                        parent.spec_times(next[e][b].weight).spec_times(gamma),
                    ));
                }
            }
            assert forall|p: int| 0 <= p < more.len() implies leads_down(
                edges,
                next,
                parent,
                gamma,
                #[trigger] more[p],
            ) by {
                if p < paths.len() {
                    if edge.len() > 0 {
                        law_paths_multiply(edge, probs, parent, gamma, paths, 0);
                        assert(more.take(paths.len() as int)[p] == paths[p]);
                    }
                    assert(more[p] == paths[p]);
                    assert(leads_down(edges, out, parent, gamma, paths[p]));
                    let (e, b) = choose|e: int, b: int| #[trigger]
                        pathed(edges, out, parent, gamma, paths[p], e, b);
                    assert(next[e] == out[e]);
                    assert(pathed(edges, next, parent, gamma, more[p], e, b));
                } else {
                    let b = p - paths.len();
                    law_paths_multiply(edge, probs, parent, gamma, paths, b);
                    assert(next[i as int][b] == branches[b]);
                    assert(pathed(edges, next, parent, gamma, more[p], i as int, b));
                }
            }
            assert forall|e: int| 0 <= e < i + 1 implies (#[trigger] next[e]).len()
                == edges[e].len() by {
                if e < i {
                    assert(next[e] == out[e]);
                }
            }
            lemma_edges(edges, probs, parent, gamma, i + 1, next, more);
        }
    }
}

proof fn lemma_written<S, F, N>(
    arena: Seq<NodeModel<S, F, N>>,
    paths: Seq<(usize, N)>,
    i: nat,
    c: int,
    pw: N,
)
    requires
        i <= paths.len(),
        0 <= c < arena.len(),
        forall|p: int| 0 <= p < paths.len() ==> (#[trigger] paths[p]).0 < arena.len(),
        forall|p: int| i <= p < paths.len() && (#[trigger] paths[p]).0 == c ==> paths[p].1 == pw,
    ensures
        paths_written(arena, paths, i).len() == arena.len(),
        (exists|p: int| i <= p < paths.len() && (#[trigger] paths[p]).0 == c) || arena[c].path_weight
            == pw ==> paths_written(arena, paths, i)[c].path_weight == pw,
        (forall|p: int| i <= p < paths.len() ==> (#[trigger] paths[p]).0 != c) ==> paths_written(
            arena,
            paths,
            i,
        )[c] == arena[c],
        paths_written(arena, paths, i)[c] == (NodeModel {
            path_weight: paths_written(arena, paths, i)[c].path_weight,
            ..arena[c]
        }),
    decreases paths.len() - i,
{
    if i < paths.len() {
        let (x, w) = paths[i as int];
        assert(paths[i as int].0 < arena.len());
        let next = arena.update(x as int, NodeModel { path_weight: w, ..arena[x as int] });
        lemma_written(next, paths, i + 1, c, pw);
        if x == c {
            assert(paths[i as int].0 == c);
            assert(next[c].path_weight == pw);
        } else if exists|p: int| i <= p < paths.len() && (#[trigger] paths[p]).0 == c {
            let p = choose|p: int| i <= p < paths.len() && (#[trigger] paths[p]).0 == c;
            assert(i + 1 <= p);
        }
    }
}

/// No two branches of a node lead to the same child, and none to the node itself.
pub open spec fn apart<N>(edges: Seq<Seq<BranchModel<N>>>, ni: int, len: nat) -> bool {
    &&& forall|e: int, b: int|
        #![trigger edges[e][b]]
        0 <= e < edges.len() && 0 <= b < edges[e].len() ==> edges[e][b].child != ni
            && edges[e][b].child < len
    &&& forall|e: int, b: int, f: int, c: int|
        #![trigger edges[e][b], edges[f][c]]
        0 <= e < edges.len() && 0 <= b < edges[e].len() && 0 <= f < edges.len() && 0 <= c
            < edges[f].len() && edges[e][b].child == edges[f][c].child ==> e == f && b == c
}

/// Weighing a node gives each branch the weight that the beliefs give it, and each child the chance
/// with which it is reached: that of the node, times the branch's weight, discounted. Every other node
/// keeps its own, and nothing else of any node changes.
pub proof fn law_children_are_reached_through_their_branch<S, F, N: Scalar>(
    m: SearchModel<S, F, N>,
    ni: usize,
    probs: Seq<Seq<N>>,
    gamma: N,
    e: int,
    b: int,
    other: int,
)
    requires
        ni < m.arena.len(),
        m.arena[ni as int].edges is Some,
        apart(m.arena[ni as int].edges->0, ni as int, m.arena.len()),
        0 <= e < m.arena[ni as int].edges->0.len(),
        0 <= b < m.arena[ni as int].edges->0[e].len(),
        0 <= other < m.arena.len(),
        forall|f: int, c: int|
            #![trigger m.arena[ni as int].edges->0[f][c]]
            0 <= f < m.arena[ni as int].edges->0.len() && 0 <= c
                < m.arena[ni as int].edges->0[f].len() ==> m.arena[ni as int].edges->0[f][c].child
                != other,
    ensures
        batch_weighed(seq![ni], probs, gamma, 0, m) matches Ok(next) ==> {
            let node = m.arena[ni as int];
            let branch = node.edges->0[e][b];
            let c = branch.child as int;
            &&& next.arena.len() == m.arena.len()
            &&& next.arena[ni as int].edges matches Some(edges) && edges.len()
                == node.edges->0.len() && edges[e].len() == node.edges->0[e].len() && edges[e][b]
                == (BranchModel { weight: edges[e][b].weight, ..branch }) && branch_weight(
                branch,
                probs,
            ) == Ok::<_, Fault>(edges[e][b].weight) && next.arena[c].path_weight
                == node.path_weight.spec_times(edges[e][b].weight).spec_times(gamma)
            &&& next.arena[ni as int].path_weight == node.path_weight
            &&& next.arena[c] == (NodeModel {
                path_weight: next.arena[c].path_weight,
                ..m.arena[c]
            })
            &&& other != ni ==> next.arena[other] == m.arena[other]
        },
{
    reveal_with_fuel(batch_weighed, 2);
    let node = m.arena[ni as int];
    let edges = node.edges->0;
    let parent = node.path_weight;
    let none = Seq::<Seq<BranchModel<N>>>::empty();
    let no_paths = Seq::<(usize, N)>::empty();
    assert(seq![ni][0] == ni);
    lemma_edges(edges, probs, parent, gamma, 0, none, no_paths);
    if let Ok(next) = batch_weighed(seq![ni], probs, gamma, 0, m) {
        let (w, paths) = edges_weighed(edges, probs, parent, gamma, 0, none, no_paths)->Ok_0;
        let mid = m.arena.update(ni as int, NodeModel { edges: Some(w), ..node });
        let c = edges[e][b].child as int;
        let pw = parent.spec_times(w[e][b].weight).spec_times(gamma);
        assert(next.arena == paths_written(mid, paths, 0));
        assert(w[e].len() == edges[e].len());
        assert(w[e][b] == (BranchModel { weight: w[e][b].weight, ..edges[e][b] }));
        assert(c != ni && c < m.arena.len());
        assert forall|p: int| 0 <= p < paths.len() && (#[trigger] paths[p]).0 == c implies paths[p].1
            == pw by {
            assert(leads_down(edges, w, parent, gamma, paths[p]));
            let (f, d) = choose|f: int, d: int| #[trigger]
                pathed(edges, w, parent, gamma, paths[p], f, d);
            assert(edges[f][d].child == edges[e][b].child);
        }
        assert(paths.contains((edges[e][b].child, pw)));
        let p = choose|p: int| 0 <= p < paths.len() && paths[p] == (edges[e][b].child, pw);
        assert(paths[p].0 == c);
        assert forall|p: int| 0 <= p < paths.len() implies (#[trigger] paths[p]).0 != ni
            && paths[p].0 != other && paths[p].0 < mid.len() by {
            assert(leads_down(edges, w, parent, gamma, paths[p]));
            let (f, d) = choose|f: int, d: int| #[trigger]
                pathed(edges, w, parent, gamma, paths[p], f, d);
            assert(edges[f][d].child != ni);
        }
        lemma_written(mid, paths, 0, c, pw);
        lemma_written(mid, paths, 0, ni as int, mid[ni as int].path_weight);
        lemma_written(mid, paths, 0, other, mid[other].path_weight);
    }
}

/// Nodes are weighed one after the other, each on what the ones before left.
pub proof fn law_batches_are_weighed_in_turn<S, F, N: Scalar>(
    batch: Seq<usize>,
    ni: usize,
    probs: Seq<Seq<N>>,
    gamma: N,
    i: nat,
    m: SearchModel<S, F, N>,
)
    requires
        i <= batch.len(),
    ensures
        batch_weighed(batch.push(ni), probs, gamma, i, m) == match batch_weighed(
            batch,
            probs,
            gamma,
            i,
            m,
        ) {
            Ok(mid) => batch_weighed(seq![ni], probs, gamma, 0, mid),
            Err(f) => Err(f),
        },
    decreases batch.len() - i,
{
    let more = batch.push(ni);
    if i < batch.len() {
        assert(more[i as int] == batch[i as int]);
        let x = batch[i as int] as int;
        let node = m.arena[x];
        match node.edges {
            None => {
                law_batches_are_weighed_in_turn(batch, ni, probs, gamma, i + 1, m);
            },
            Some(edges) => {
                if let Ok((weighed, paths)) = edges_weighed(
                    edges,
                    probs,
                    node.path_weight,
                    gamma,
                    0,
                    Seq::empty(),
                    Seq::empty(),
                ) {
                    let next = SearchModel {
                        arena: paths_written(
                            m.arena.update(x, NodeModel { edges: Some(weighed), ..node }),
                            paths,
                            0,
                        ),
                        ..m
                    };
                    law_batches_are_weighed_in_turn(batch, ni, probs, gamma, i + 1, next);
                }
            },
        }
    } else {
        reveal_with_fuel(batch_weighed, 2);
        assert(more[i as int] == ni);
        assert(seq![ni][0] == ni);
    }
}

} // verus!
