//! What an expectimax search looks at next, and which moves it looks at.

use vstd::prelude::*;

#[allow(unused_imports)]
use super::frontier::{
    frontier_relation, key_less, key_sound, queued, spec_key, spec_sort_frontier, spec_voi_scale,
    voi,
};
#[allow(unused_imports)]
use super::tree::{beamed, row_relation, NodeModel, SearchConfig};
#[allow(unused_imports)]
use crate::means::{law_splits, splits};
#[allow(unused_imports)]
use crate::num::{law_ring, picks, ring, spec_whole, weakly_ordered, Scalar};
#[allow(unused_imports)]
use crate::order::{law_sorted_in_order, law_sorted_permutes, lemma_sorted_all, sorted};

verus! {

/// A node comes by what it promises, so much of it, and by how deep it lies, for the rest: its key and
/// these add up to nothing. With all the weight on one of them the other does not count.
pub proof fn law_keys_weigh_promise_and_depth<S, F, N: Scalar>(
    node: NodeModel<S, F, N>,
    cfg: SearchConfig<N>,
    scale: N,
)
    requires
        ring::<N>(),
        splits(scale),
        splits(spec_whole::<N>(cfg.max_depth)),
    ensures
        ({
            let key = spec_key(node, cfg, scale);
            let promise = node.path_weight.spec_times(node.sigma).spec_over(scale);
            let depth = spec_whole::<N>(node.depth).spec_over(spec_whole(cfg.max_depth));
            &&& key.0.spec_plus(
                cfg.beta.spec_times(promise).spec_plus(
                    N::spec_one().spec_minus(cfg.beta).spec_times(depth),
                ),
            ) == N::spec_zero()
            &&& cfg.beta == N::spec_one() ==> key.0 == promise.spec_negated()
            &&& cfg.beta == N::spec_zero() ==> key.0 == depth.spec_negated()
            &&& key.1.spec_plus(spec_whole(node.depth)) == N::spec_zero()
            &&& key.2.spec_plus(node.path_weight) == N::spec_zero()
        }),
{
    let one = N::spec_one();
    let zero = N::spec_zero();
    let b = cfg.beta;
    let v = node.path_weight.spec_times(node.sigma);
    let deep = spec_whole::<N>(node.depth);
    let most = spec_whole::<N>(cfg.max_depth);
    let promise = v.spec_over(scale);
    let depth = deep.spec_over(most);
    let c = one.spec_minus(b);
    law_splits(scale, b, v);
    law_splits(most, c, deep);
    let x = b.spec_times(promise).spec_plus(c.spec_times(depth));
    law_ring(x, x.spec_negated(), x);
    law_ring(x.spec_negated(), x, x);
    law_ring(deep, deep.spec_negated(), deep);
    law_ring(node.path_weight, node.path_weight.spec_negated(), deep);
    law_ring(promise, depth, depth);
    law_ring(depth, depth, depth);
    law_ring(one, one, one);
    law_ring(one, zero, zero);
    law_ring(one.spec_minus(zero), zero, zero);
    law_ring(zero, zero, zero);
}

/// The promises of a frontier.
pub open spec fn promises<S, F, N: Scalar>(
    arena: Seq<NodeModel<S, F, N>>,
    frontier: Seq<usize>,
) -> Seq<N> {
    frontier.map_values(
        |i: usize| arena[i as int].path_weight.spec_times(arena[i as int].sigma),
    )
}

/// Promises are measured against the largest of them: none is above the scale where one is above
/// nothing, and the scale is then one of them; else it is one.
pub proof fn law_promises_are_measured_by_the_largest<S, F, N: Scalar>(
    arena: Seq<NodeModel<S, F, N>>,
    frontier: Seq<usize>,
)
    requires
        picks::<N>(),
        N::spec_zero().spec_is_number(),
        forall|i: int|
            0 <= i < frontier.len() ==> (#[trigger] promises(
                arena,
                frontier,
            )[i]).spec_is_number(),
    ensures
        ({
            let scale = spec_voi_scale(arena, frontier);
            let all = promises(arena, frontier);
            if exists|i: int|
                0 <= i < all.len() && N::spec_zero().spec_less(#[trigger] all[i]) {
                &&& forall|i: int| 0 <= i < all.len() ==> !scale.spec_less(#[trigger] all[i])
                &&& exists|i: int| 0 <= i < all.len() && #[trigger] all[i] == scale
            } else {
                scale == N::spec_one()
            }
        }),
{
    lemma_top(arena, frontier);
    let all = promises(arena, frontier);
    let best = frontier.fold_left(
        N::spec_zero(),
        |acc: N, i: usize| acc.spec_larger(voi(arena[i as int])),
    );
    if exists|i: int| 0 <= i < all.len() && N::spec_zero().spec_less(#[trigger] all[i]) {
        let i = choose|i: int|
            0 <= i < all.len() && N::spec_zero().spec_less(#[trigger] all[i]);
        assert(!best.spec_less(all[i]));
        if !N::spec_zero().spec_less(best) {
            assert(!N::spec_zero().spec_less(all[i]));
        }
        assert(best != N::spec_zero());
    } else if N::spec_zero().spec_less(best) {
        assert(best != N::spec_zero());
    }
}

proof fn lemma_top<S, F, N: Scalar>(arena: Seq<NodeModel<S, F, N>>, frontier: Seq<usize>)
    requires
        picks::<N>(),
        N::spec_zero().spec_is_number(),
        forall|i: int|
            0 <= i < frontier.len() ==> (#[trigger] promises(
                arena,
                frontier,
            )[i]).spec_is_number(),
    ensures
        ({
            let best = frontier.fold_left(
                N::spec_zero(),
                |acc: N, i: usize| acc.spec_larger(voi(arena[i as int])),
            );
            let all = promises(arena, frontier);
            &&& best.spec_is_number()
            &&& forall|i: int| 0 <= i < all.len() ==> !best.spec_less(#[trigger] all[i])
            &&& best == N::spec_zero() || exists|i: int|
                0 <= i < all.len() && #[trigger] all[i] == best
        }),
    decreases frontier.len(),
{
    let f = |acc: N, i: usize| acc.spec_larger(voi(arena[i as int]));
    if frontier.len() > 0 {
        let short = frontier.drop_last();
        let n = frontier.len() - 1;
        let all = promises(arena, frontier);
        let few = promises(arena, short);
        assert forall|i: int| 0 <= i < short.len() implies (#[trigger] few[i]).spec_is_number() by {
            assert(few[i] == all[i]);
        }
        lemma_top(arena, short);
        let before = short.fold_left(N::spec_zero(), f);
        let best = frontier.fold_left(N::spec_zero(), f);
        assert(all[n].spec_is_number());
        assert(best == before.spec_larger(all[n]));
        assert forall|i: int| 0 <= i < all.len() implies !best.spec_less(#[trigger] all[i]) by {
            if i < n {
                assert(few[i] == all[i]);
                assert(!before.spec_less(few[i]));
                assert(!best.spec_less(before));
            }
        }
        if best != N::spec_zero() {
            if best == all[n] {
            } else {
                let i = choose|i: int| 0 <= i < few.len() && #[trigger] few[i] == before;
                assert(all[i] == best);
            }
        }
    }
}

/// The frontier in order holds what it held, and no node stands behind one that is to come later by
/// its key.
pub proof fn law_frontiers_are_in_order<S, F, N: Scalar>(
    arena: Seq<NodeModel<S, F, N>>,
    frontier: Seq<usize>,
    cfg: SearchConfig<N>,
)
    requires
        weakly_ordered::<N>(),
        frontier.len() >= 2,
    ensures
        spec_sort_frontier(arena, frontier, cfg) matches Ok(out) ==> {
            let scale = spec_voi_scale(arena, frontier);
            &&& out.to_multiset() == frontier.to_multiset()
            &&& out.len() == frontier.len()
            &&& forall|i: int, j: int|
                0 <= i < j < out.len() ==> {
                    let a = spec_key(arena[#[trigger] out[i] as int], cfg, scale);
                    let b = spec_key(arena[#[trigger] out[j] as int], cfg, scale);
                    &&& !b.0.spec_less(a.0)
                    &&& !a.0.spec_less(b.0) ==> !b.1.spec_less(a.1)
                    &&& !a.0.spec_less(b.0) && !a.1.spec_less(b.1) ==> !b.2.spec_less(a.2)
                }
        },
{
    let scale = spec_voi_scale(arena, frontier);
    let before = frontier_relation(arena, cfg, scale);
    let covers = |a: usize| key_sound(spec_key(arena[a as int], cfg, scale));
    if let Ok(out) = spec_sort_frontier(arena, frontier, cfg) {
        law_sorted_permutes(before, frontier);
        assert forall|a: usize, b: usize|
            covers(a) && covers(b) && #[trigger] before(a, b) implies !before(b, a) by {}
        assert forall|a: usize, b: usize, c: usize|
            covers(a) && covers(b) && covers(c) && !#[trigger] before(b, a) && !#[trigger] before(
                c,
                b,
            ) implies !before(c, a) by {
            let x = spec_key(arena[a as int], cfg, scale);
            let y = spec_key(arena[b as int], cfg, scale);
            let z = spec_key(arena[c as int], cfg, scale);
            lemma_key_trans(x, y, z);
        }
        assert forall|i: int| 0 <= i < frontier.len() implies covers(#[trigger] frontier[i]) by {}
        law_sorted_in_order(before, covers, frontier);
        assert forall|i: int, j: int| 0 <= i < j < out.len() implies {
            let a = spec_key(arena[#[trigger] out[i] as int], cfg, scale);
            let b = spec_key(arena[#[trigger] out[j] as int], cfg, scale);
            &&& !b.0.spec_less(a.0)
            &&& !a.0.spec_less(b.0) ==> !b.1.spec_less(a.1)
            &&& !a.0.spec_less(b.0) && !a.1.spec_less(b.1) ==> !b.2.spec_less(a.2)
        } by {
            assert(!before(out[j], out[i]));
        }
    }
}

proof fn lemma_key_trans<N: Scalar>(x: (N, N, N), y: (N, N, N), z: (N, N, N))
    requires
        weakly_ordered::<N>(),
        key_sound(x),
        key_sound(y),
        key_sound(z),
        !key_less(y, x),
        !key_less(z, y),
    ensures
        !key_less(z, x),
{
}

/// A beam keeps so many of the moves, in ascending order; and no move that it leaves out is worth more
/// to the mover than one that it keeps.
pub proof fn law_beams_keep_the_best<N: Scalar>(
    legal: Seq<usize>,
    row: Seq<N>,
    depth: i32,
    move_cap: usize,
)
    requires
        weakly_ordered::<N>(),
        depth != 0,
        move_cap < legal.len(),
        row.len() > 0,
        legal.no_duplicates(),
        legal.len() >= 2,
    ensures
        beamed(legal, row, depth, move_cap) matches Ok(kept) ==> {
            &&& kept.len() == move_cap
            &&& forall|i: int, j: int| 0 <= i < j < kept.len() ==> kept[i] <= kept[j]
            &&& forall|i: int| 0 <= i < kept.len() ==> legal.contains(#[trigger] kept[i])
            &&& forall|i: int, d: usize|
                0 <= i < kept.len() && legal.contains(d) && !kept.contains(d)
                    ==> !row[#[trigger] kept[i] as int].spec_less(#[trigger] row[d as int])
        },
{
    if let Ok(kept) = beamed(legal, row, depth, move_cap) {
        let before = row_relation(row);
        let covers = |a: usize| row[a as int].spec_is_number();
        let ranked = sorted(before, legal);
        let top = ranked.take(move_cap as int);
        let up = |a: usize, b: usize| a < b;
        assert forall|i: int| 0 <= i < legal.len() implies covers(#[trigger] legal[i]) by {
            assert(row[legal[i] as int].spec_is_number());
        }
        law_sorted_in_order(before, covers, legal);
        law_sorted_permutes(before, legal);
        lemma_sorted_all(before, legal, |x: usize| legal.contains(x));
        law_sorted_permutes(up, top);
        law_sorted_in_order(up, |a: usize| true, top);
        lemma_sorted_all(up, top, |x: usize| top.contains(x));
        assert(kept == sorted(up, top));
        assert forall|i: int, j: int| 0 <= i < j < kept.len() implies kept[i] <= kept[j] by {
            assert(!up(kept[j], kept[i]));
        }
        assert forall|i: int| 0 <= i < kept.len() implies legal.contains(#[trigger] kept[i]) by {
            assert(top.contains(kept[i]));
            let k = choose|k: int| 0 <= k < top.len() && top[k] == kept[i];
            assert(ranked[k] == kept[i]);
        }
        assert forall|i: int, d: usize|
            0 <= i < kept.len() && legal.contains(d) && !kept.contains(
                d,
            ) implies !row[#[trigger] kept[i] as int].spec_less(#[trigger] row[d as int]) by {
            assert(top.contains(kept[i]));
            let k = choose|k: int| 0 <= k < top.len() && top[k] == kept[i];
            assert(ranked[k] == kept[i]);
            legal.to_multiset_ensures();
            ranked.to_multiset_ensures();
            top.to_multiset_ensures();
            kept.to_multiset_ensures();
            assert(ranked.to_multiset().count(d) > 0);
            assert(ranked.contains(d));
            let r = choose|r: int| 0 <= r < ranked.len() && ranked[r] == d;
            if r < move_cap {
                assert(top[r] == d);
                assert(top.contains(d));
                assert(kept.to_multiset().count(d) > 0);
                assert(false);
            }
            assert(!before(ranked[r], ranked[k]));
        }
    }
}

/// New leaves wait behind the frontier, in their order, where they lie above the deepest ply; nothing
/// leaves the frontier.
pub proof fn law_shallow_leaves_wait<S, F, N>(
    arena: Seq<NodeModel<S, F, N>>,
    leaves: Seq<usize>,
    max_depth: i32,
    i: nat,
    frontier: Seq<usize>,
    x: usize,
)
    requires
        i <= leaves.len(),
    ensures
        queued(arena, leaves, max_depth, i, frontier).len() >= frontier.len(),
        queued(arena, leaves, max_depth, i, frontier).take(frontier.len() as int) == frontier,
        queued(arena, leaves, max_depth, i, frontier).contains(x) == (frontier.contains(x) || (
        arena[x as int].depth < max_depth && exists|j: int|
            i <= j < leaves.len() && #[trigger] leaves[j] == x)),
    decreases leaves.len() - i,
{
    if i < leaves.len() {
        let li = leaves[i as int];
        let next = if arena[li as int].depth < max_depth {
            frontier.push(li)
        } else {
            frontier
        };
        law_shallow_leaves_wait(arena, leaves, max_depth, i + 1, next, x);
        let out = queued(arena, leaves, max_depth, i, frontier);
        let n = frontier.len() as int;
        assert(out.take(n) =~= out.take(next.len() as int).take(n));
        assert(next.take(n) =~= frontier);
        assert(next.contains(x) == (frontier.contains(x) || (li == x && arena[li as int].depth
            < max_depth))) by {
            if frontier.contains(x) {
                let k = choose|k: int| 0 <= k < frontier.len() && frontier[k] == x;
                assert(next[k] == x);
            }
            if li == x && arena[li as int].depth < max_depth {
                assert(next[n] == x);
            }
        }
        if exists|j: int| i <= j < leaves.len() && #[trigger] leaves[j] == x {
            let j = choose|j: int| i <= j < leaves.len() && #[trigger] leaves[j] == x;
            if j > i {
                assert(i + 1 <= j);
                assert(leaves[j] == x);
            }
        }
        if li == x {
            assert(leaves[i as int] == x);
        }
    } else {
        assert(frontier.take(frontier.len() as int) =~= frontier);
    }
}

} // verus!
