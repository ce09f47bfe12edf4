//! Which nodes are expanded next, and the round that expands them.

use vstd::prelude::*;

use super::tree::{expand_node, Ctx, Node, Search, SearchConfig};
#[allow(unused_imports)]
use super::tree::{
    expanded_from, legal_of, node_models, rooted, rows_of, spec_expand_node, NodeModel, SearchModel,
};
use crate::encoder::StateEncoder;
use crate::fault::Fault;
use crate::game::Game;
use crate::num::{whole, Scalar};
#[allow(unused_imports)]
use crate::num::spec_whole;
use crate::order::{stable_sort, Precedence};
#[allow(unused_imports)]
use crate::order::{lemma_sorted_all, sorted, Before};
use crate::policy::MAX_ENUMERATED_OUTCOMES;
use crate::reward::Reward;

verus! {

/// What expanding a node promises: how likely it is reached times how unsure its value is.
pub open spec fn voi<S, F, N: Scalar>(node: NodeModel<S, F, N>) -> N {
    node.path_weight.spec_times(node.sigma)
}

/// The largest promise on the frontier; one where there is none.
pub open spec fn spec_voi_scale<S, F, N: Scalar>(
    arena: Seq<NodeModel<S, F, N>>,
    frontier: Seq<usize>,
) -> N {
    let top = frontier.fold_left(
        N::spec_zero(),
        |acc: N, i: usize| acc.spec_larger(voi(arena[i as int])),
    );
    if N::spec_zero().spec_less(top) {
        top
    } else {
        N::spec_one()
    }
}

/// A node's place in the queue: the smaller, the sooner.
pub open spec fn spec_key<S, F, N: Scalar>(
    node: NodeModel<S, F, N>,
    cfg: SearchConfig<N>,
    scale: N,
) -> (N, N, N) {
    let promise = cfg.beta.spec_times(voi(node)).spec_over(scale);
    let depth_term = N::spec_one().spec_minus(cfg.beta).spec_times(
        spec_whole(node.depth),
    ).spec_over(spec_whole(cfg.max_depth));
    (
        promise.spec_plus(depth_term).spec_negated(),
        spec_whole::<N>(node.depth).spec_negated(),
        node.path_weight.spec_negated(),
    )
}

/// Lexicographic order of keys.
pub open spec fn key_less<N: Scalar>(a: (N, N, N), b: (N, N, N)) -> bool {
    a.0.spec_less(b.0) || (!b.0.spec_less(a.0) && (a.1.spec_less(b.1) || (!b.1.spec_less(a.1)
        && a.2.spec_less(b.2))))
}

/// A key that takes part in the order.
pub open spec fn key_sound<N: Scalar>(k: (N, N, N)) -> bool {
    k.0.spec_is_number() && k.1.spec_is_number() && k.2.spec_is_number()
}

/// The order of the frontier.
pub open spec fn frontier_relation<S, F, N: Scalar>(
    arena: Seq<NodeModel<S, F, N>>,
    cfg: SearchConfig<N>,
    scale: N,
) -> Before {
    |a: usize, b: usize|
        key_less(spec_key(arena[a as int], cfg, scale), spec_key(arena[b as int], cfg, scale))
}

/// Some node's key takes no part in the order, and there is something to compare it with.
pub open spec fn frontier_unsound<S, F, N: Scalar>(
    arena: Seq<NodeModel<S, F, N>>,
    frontier: Seq<usize>,
    cfg: SearchConfig<N>,
    scale: N,
) -> bool {
    frontier.len() >= 2 && exists|i: int|
        0 <= i < frontier.len() && !key_sound(
            spec_key(arena[#[trigger] frontier[i] as int], cfg, scale),
        )
}

/// The frontier with the most promising node first.
pub open spec fn spec_sort_frontier<S, F, N: Scalar>(
    arena: Seq<NodeModel<S, F, N>>,
    frontier: Seq<usize>,
    cfg: SearchConfig<N>,
) -> Result<Seq<usize>, Fault> {
    let scale = spec_voi_scale(arena, frontier);
    if frontier_unsound(arena, frontier, cfg, scale) {
        Err(Fault::NotANumber)
    } else {
        Ok(sorted(frontier_relation(arena, cfg, scale), frontier))
    }
}

fn node_key<S, F, N: Scalar>(node: &Node<S, F, N>, cfg: &SearchConfig<N>, scale: N) -> (r: (
    N,
    N,
    N,
))
    ensures
        r == spec_key(node@, *cfg, scale),
{
    let promise = cfg.beta.times(node.path_weight.times(node.sigma)).over(scale);
    let depth_term = N::one().minus(cfg.beta).times(whole(node.depth)).over(whole(cfg.max_depth));
    (
        promise.plus(depth_term).negated(),
        whole::<N>(node.depth).negated(),
        node.path_weight.negated(),
    )
}

struct FrontierOrder<'a, S, F, N> {
    arena: &'a Vec<Node<S, F, N>>,
    cfg: SearchConfig<N>,
    scale: N,
}

impl<'a, S, F, N: Scalar> Precedence for FrontierOrder<'a, S, F, N> {
    closed spec fn relation(&self) -> Before {
        frontier_relation(node_models(self.arena@), self.cfg, self.scale)
    }

    closed spec fn covers(&self, a: usize) -> bool {
        a < self.arena@.len()
    }

    fn before(&self, a: usize, b: usize) -> (r: bool) {
        let ka = node_key(&self.arena[a], &self.cfg, self.scale);
        let kb = node_key(&self.arena[b], &self.cfg, self.scale);
        ka.0.less(kb.0) || (!kb.0.less(ka.0) && (ka.1.less(kb.1) || (!kb.1.less(ka.1) && ka.2.less(
            kb.2,
        ))))
    }
}

#[verifier::loop_isolation(false)]
fn sort_frontier<S, F, N: Scalar>(
    arena: &Vec<Node<S, F, N>>,
    frontier: &[usize],
    cfg: &SearchConfig<N>,
) -> (r: Result<Vec<usize>, Fault>)
    requires
        forall|i: int| 0 <= i < frontier@.len() ==> #[trigger] frontier@[i] < arena@.len(),
    ensures
        crate::util::viewed(r) == spec_sort_frontier(node_models(arena@), frontier@, *cfg),
{
    let ghost models = node_models(arena@);
    let ghost f = |acc: N, i: usize| acc.spec_larger(voi(models[i as int]));
    let mut top = N::zero();
    let mut i: usize = 0;
    while i < frontier.len()
        invariant
            i <= frontier@.len(),
            top == frontier@.take(i as int).fold_left(N::spec_zero(), f),
        decreases frontier.len() - i,
    {
        assert(frontier@.take(i + 1).drop_last() =~= frontier@.take(i as int));
        let node = &arena[frontier[i]];
        assert(node@ == models[frontier@[i as int] as int]);
        top = top.larger(node.path_weight.times(node.sigma));
        i = i + 1;
    }
    assert(frontier@.take(i as int) =~= frontier@);
    let scale = if N::zero().less(top) {
        top
    } else {
        N::one()
    };
    assert(scale == spec_voi_scale(models, frontier@));
    if frontier.len() >= 2 {
        let mut j: usize = 0;
        while j < frontier.len()
            invariant
                j <= frontier@.len(),
                forall|k: int|
                    0 <= k < j ==> key_sound(
                        spec_key(models[#[trigger] frontier@[k] as int], *cfg, scale),
                    ),
            decreases frontier.len() - j,
        {
            let key = node_key(&arena[frontier[j]], cfg, scale);
            assert(key == spec_key(models[frontier@[j as int] as int], *cfg, scale));
            if !(key.0.is_number() && key.1.is_number() && key.2.is_number()) {
                assert(frontier_unsound(models, frontier@, *cfg, scale));
                return Err(Fault::NotANumber);
            }
            j = j + 1;
        }
        assert(!frontier_unsound(models, frontier@, *cfg, scale));
    }
    let order = FrontierOrder { arena, cfg: *cfg, scale };
    Ok(stable_sort(frontier, &order))
}

/// The smaller of two counts.
pub open spec fn least(a: usize, b: usize) -> usize {
    if a < b {
        a
    } else {
        b
    }
}

fn least_of(a: usize, b: usize) -> (r: usize)
    ensures
        r == least(a, b),
{
    if a < b {
        a
    } else {
        b
    }
}

/// The search with the nodes of `batch` from the `i`-th on expanded.
pub open spec fn expanded<
    N: Scalar,
    G: Game<N>,
    E: StateEncoder<State = G::State>,
    W: Reward<N, Event = G::Event>,
>(
    ctx: Ctx<N, G, E, W>,
    batch: Seq<usize>,
    i: nat,
    m: SearchModel<G::State, E::Feature, N>,
) -> Result<SearchModel<G::State, E::Feature, N>, Fault>
    decreases batch.len() - i,
{
    if i >= batch.len() {
        Ok(m)
    } else {
        let ni = batch[i as int] as int;
        match spec_expand_node(ctx, m, ni) {
            Err(f) => Err(f),
            Ok(next) => {
                let depth = (next.arena[ni].depth + 1) as i32;
                let stats = super::tree::SearchStats {
                    expansions: (next.stats.expansions + 1) as usize,
                    max_depth: if next.stats.max_depth < depth {
                        depth
                    } else {
                        next.stats.max_depth
                    },
                    ..next.stats
                };
                expanded(ctx, batch, i + 1, SearchModel { stats, ..next })
            },
        }
    }
}

/// The leaves from the `i`-th on that may be expanded later, behind `frontier`.
pub open spec fn queued<S, F, N>(
    arena: Seq<NodeModel<S, F, N>>,
    leaves: Seq<usize>,
    max_depth: i32,
    i: nat,
    frontier: Seq<usize>,
) -> Seq<usize>
    decreases leaves.len() - i,
{
    if i >= leaves.len() {
        frontier
    } else {
        let li = leaves[i as int];
        queued(
            arena,
            leaves,
            max_depth,
            i + 1,
            if arena[li as int].depth < max_depth {
                frontier.push(li)
            } else {
                frontier
            },
        )
    }
}

/// The search with a round opened: the front of the frontier expanded, the new leaves queued.
#[verifier::opaque]
pub open spec fn spec_expand_round<
    N: Scalar,
    G: Game<N>,
    E: StateEncoder<State = G::State>,
    W: Reward<N, Event = G::Event>,
>(
    ctx: Ctx<N, G, E, W>,
    m: SearchModel<G::State, E::Feature, N>,
    first: bool,
) -> Result<SearchModel<G::State, E::Feature, N>, Fault> {
    let order = if first {
        Ok(m.frontier)
    } else {
        spec_sort_frontier(m.arena, m.frontier, ctx.cfg)
    };
    match order {
        Err(f) => Err(f),
        Ok(frontier) => {
            let take = least(
                least(
                    ctx.cfg.top_k,
                    (ctx.cfg.expansion_budget - m.stats.expansions) as usize,
                ),
                frontier.len() as usize,
            );
            let start = SearchModel {
                frontier: frontier.skip(take as int),
                batch: frontier.take(take as int),
                opp_obs: Seq::empty(),
                opp_legal: Seq::empty(),
                new_leaves: Seq::empty(),
                ..m
            };
            match expanded(ctx, start.batch, 0, start) {
                Err(f) => Err(f),
                Ok(next) => Ok(
                    SearchModel {
                        frontier: queued(
                            next.arena,
                            next.new_leaves,
                            ctx.cfg.max_depth,
                            0,
                            next.frontier,
                        ),
                        stats: super::tree::SearchStats {
                            rounds: (next.stats.rounds + 1) as usize,
                            ..next.stats
                        },
                        ..next
                    },
                ),
            }
        },
    }
}

impl<S, F, N: Scalar> SearchModel<S, F, N> {
    /// Between the opening of a round and its evaluation: the leaves of the round are real nodes
    /// not counted yet, and the expanded nodes are in range.
    pub open spec fn mid_round(self) -> bool {
        &&& self.stats.leaves + self.new_leaves.len() <= self.arena.len()
        &&& self.opp_obs.len() == self.opp_legal.len()
        &&& forall|i: int|
            0 <= i < self.new_leaves.len() ==> #[trigger] self.new_leaves[i] < self.arena.len()
        &&& forall|i: int| 0 <= i < self.batch.len() ==> #[trigger] self.batch[i] < self.arena.len()
    }
}

/// A node that keeps its edges' children behind it keeps the tree rooted.
proof fn lemma_expanded_rooted<S, F, N: Scalar>(
    before: SearchModel<S, F, N>,
    after: SearchModel<S, F, N>,
    ni: int,
)
    requires
        0 <= ni < before.arena.len(),
        rooted(before.arena),
        expanded_from(before, after, ni),
    ensures
        rooted(after.arena),
{
    let arena = after.arena;
    assert forall|i: int, e: int, b: int|
        #![trigger arena[i].edges->0[e][b]]
        0 <= i < arena.len() && arena[i].edges is Some && 0 <= e < arena[i].edges->0.len() && 0 <= b
            < arena[i].edges->0[e].len() implies i < arena[i].edges->0[e][b].child
        < arena.len() by {
        if i < before.arena.len() && i != ni {
            assert(arena[i] == before.arena[i]);
            assert(before.arena[i].edges->0[e][b].child < before.arena.len());
        }
    }
}

/// Opens one round: expands the selected frontier and queues the new leaves.
#[verifier::loop_isolation(false)]
#[verifier::rlimit(30)]
pub fn expand_round<
    N: Scalar,
    G: Game<N>,
    E: StateEncoder<State = G::State>,
    W: Reward<N, Event = G::Event>,
>(
    s: &mut Search<G::State, E::Feature, N>,
    ctx: &Ctx<N, G, E, W>,
    first: bool,
) -> (r: Result<(), Fault>)
    requires
        old(s)@.wf(ctx.cfg.expansion_budget),
        old(s)@.active(ctx.cfg.expansion_budget),
        ctx.cfg.top_k > 0,
    ensures
        match r {
            Ok(_) => {
                &&& spec_expand_round(*ctx, old(s)@, first) == Ok::<_, Fault>(final(s)@)
                &&& final(s)@.wf(ctx.cfg.expansion_budget)
                &&& final(s)@.mid_round()
                &&& final(s)@.agent == old(s)@.agent
                &&& final(s)@.n_heads == old(s)@.n_heads
                &&& final(s)@.stats.expansions > old(s)@.stats.expansions
            },
            Err(f) => spec_expand_round(*ctx, old(s)@, first) == Err::<
                SearchModel<G::State, E::Feature, N>,
                _,
            >(f),
        },
{
    reveal(spec_expand_round);
    let budget = ctx.cfg.expansion_budget;
    if !first {
        let ghost relation = frontier_relation(
            s@.arena,
            ctx.cfg,
            spec_voi_scale(s@.arena, s@.frontier),
        );
        proof {
            let arena = s@.arena;
            lemma_sorted_all(
                relation,
                s@.frontier,
                |i: usize| i < arena.len() && arena[i as int].depth < i32::MAX,
            );
        }
        match sort_frontier(&s.arena, &s.frontier, &ctx.cfg) {
            Ok(frontier) => {
                s.frontier = frontier;
            },
            Err(f) => return Err(f),
        }
    }
    assert(s@.wf(budget));
    let take = least_of(least_of(ctx.cfg.top_k, budget - s.stats.expansions), s.frontier.len());
    let ghost frontier = s@.frontier;
    let rest = s.frontier.split_off(take);
    let mut batch: Vec<usize> = Vec::new();
    std::mem::swap(&mut batch, &mut s.frontier);
    s.frontier = rest;
    s.batch = batch;
    s.opp_obs = Vec::new();
    s.opp_legal = Vec::new();
    s.new_leaves = Vec::new();
    let ghost start = s@;
    proof {
        assert(start.frontier =~= frontier.skip(take as int));
        assert(start.batch =~= frontier.take(take as int));
        assert(start.opp_obs =~= Seq::empty());
        assert(start.opp_legal =~= Seq::empty());
        assert forall|i: int| 0 <= i < start.frontier.len() implies (
        #[trigger] start.frontier[i]) < start.arena.len()
            && start.arena[start.frontier[i] as int].depth < i32::MAX by {
            assert(start.frontier[i] == frontier[i + take]);
        }
        assert forall|i: int| 0 <= i < start.batch.len() implies (#[trigger] start.batch[i])
            < start.arena.len() && start.arena[start.batch[i] as int].depth < i32::MAX by {
            assert(start.batch[i] == frontier[i]);
        }
    }
    let mut i: usize = 0;
    while i < s.batch.len()
        invariant
            i <= s@.batch.len(),
            s@.batch == start.batch,
            s@.batch.len() == take,
            s@.agent == start.agent,
            s@.n_heads == start.n_heads,
            s@.stats.rounds == start.stats.rounds,
            s@.stats.leaves == start.stats.leaves,
            s@.stats.expansions == start.stats.expansions + i,
            s@.frontier == start.frontier,
            start.arena.len() <= s@.arena.len() <= MAX_ENUMERATED_OUTCOMES,
            s@.new_leaves.len() <= s@.arena.len() - start.arena.len(),
            s@.opp_obs.len() == s@.opp_legal.len(),
            rooted(s@.arena),
            forall|k: int|
                0 <= k < start.arena.len() ==> (#[trigger] s@.arena[k]).depth
                    == start.arena[k].depth,
            forall|k: int| 0 <= k < s@.arena.len() ==> 0 <= (#[trigger] s@.arena[k]).depth,
            forall|k: int|
                0 <= k < s@.new_leaves.len() ==> #[trigger] s@.new_leaves[k] < s@.arena.len(),
            expanded(*ctx, start.batch, i as nat, s@) == expanded(*ctx, start.batch, 0, start),
        decreases s@.batch.len() - i,
    {
        let ni = s.batch[i];
        let ghost held = s@;
        assert(start.batch[i as int] < start.arena.len() && start.arena[start.batch[i as int] as int].depth
            < i32::MAX);
        assert(s@.arena[ni as int].depth == start.arena[ni as int].depth);
        match expand_node(s, ctx, ni) {
            Ok(_) => {},
            Err(f) => return Err(f),
        }
        proof {
            lemma_expanded_rooted(held, s@, ni as int);
        }
        let ghost next = s@;
        assert(next.arena[ni as int] == s.arena@[ni as int]@);
        let depth = s.arena[ni].depth + 1;
        s.stats.expansions = s.stats.expansions + 1;
        if s.stats.max_depth < depth {
            s.stats.max_depth = depth;
        }
        proof {
            assert(s@.arena == next.arena);
            assert forall|k: int| 0 <= k < start.arena.len() implies (
            #[trigger] s@.arena[k]).depth == start.arena[k].depth by {
                assert(held.arena[k].depth == start.arena[k].depth);
                if k != ni {
                    assert(next.arena[k] == held.arena[k]);
                }
            }
            assert forall|k: int| 0 <= k < s@.arena.len() implies 0 <= (
            #[trigger] s@.arena[k]).depth by {
                if k < held.arena.len() && k != ni {
                    assert(next.arena[k] == held.arena[k]);
                }
            }
            assert forall|k: int| 0 <= k < s@.new_leaves.len() implies #[trigger] s@.new_leaves[k]
                < s@.arena.len() by {
                if k < held.new_leaves.len() {
                    assert(next.new_leaves[k] == held.new_leaves[k]);
                }
            }
        }
        i = i + 1;
    }
    s.stats.rounds = s.stats.rounds + 1;
    let ghost grown = s@;
    let mut k: usize = 0;
    while k < s.new_leaves.len()
        invariant
            k <= s@.new_leaves.len(),
            s@ == (SearchModel { frontier: s@.frontier, ..grown }),
            queued(
                grown.arena,
                grown.new_leaves,
                ctx.cfg.max_depth,
                k as nat,
                s@.frontier,
            ) == queued(grown.arena, grown.new_leaves, ctx.cfg.max_depth, 0, grown.frontier),
            forall|j: int|
                0 <= j < s@.frontier.len() ==> (#[trigger] s@.frontier[j]) < grown.arena.len()
                    && grown.arena[s@.frontier[j] as int].depth < i32::MAX,
        decreases s@.new_leaves.len() - k,
    {
        let li = s.new_leaves[k];
        assert(grown.arena[li as int] == s.arena@[li as int]@);
        if s.arena[li].depth < ctx.cfg.max_depth {
            s.frontier.push(li);
        }
        k = k + 1;
    }
    Ok(())
}

} // verus!
