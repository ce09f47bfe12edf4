//! How a simulation goes down its tree: by what the tables choose, to where it must stop.

use vstd::prelude::*;

#[allow(unused_imports)]
use super::fan::{fan_of, FanModel};
#[allow(unused_imports)]
use super::grow::{
    chance_child, descended, ended, evaluated, fan_attached, fan_probs, fan_seeds, fanned,
    materialized, slot_drawn, spec_expand, spec_select_expand, stepped, with_node, Ctx, Expanded,
    Reached,
};
#[allow(unused_imports)]
use super::leaves::{child_node, fresh_links};
#[allow(unused_imports)]
use super::select::joint_choice;
#[allow(unused_imports)]
use super::tree::{ChanceSpotModel, KindModel, LinkModel, NodeModel, TreeModel};
#[allow(unused_imports)]
use crate::encoder::StateEncoder;
#[allow(unused_imports)]
use crate::game::{Game, CHANCE_CHAIN_LIMIT};
#[allow(unused_imports)]
use crate::num::Scalar;
#[allow(unused_imports)]
use crate::reward::Reward;

verus! {

/// `b` has the nodes of `a`, and more; those it has are what they were but for where they lead.
#[verifier::opaque]
pub open spec fn grown_alike<S, F, N>(a: TreeModel<S, F, N>, b: TreeModel<S, F, N>) -> bool {
    &&& a.arena.len() <= b.arena.len()
    &&& forall|i: int|
        0 <= i < a.arena.len() ==> {
            let x = a.arena[i];
            let y = #[trigger] b.arena[i];
            &&& y.tables == x.tables
            &&& y.kind is Chance == x.kind is Chance
            &&& y.terminal == x.terminal
            &&& y.depth == x.depth
            &&& y.state == x.state
            &&& y.actor == x.actor
            &&& y.values == x.values
        }
}

proof fn lemma_alike_on<S, F, N>(
    a: TreeModel<S, F, N>,
    b: TreeModel<S, F, N>,
    c: TreeModel<S, F, N>,
)
    requires
        grown_alike(a, b),
        grown_alike(b, c),
    ensures
        grown_alike(a, c),
{
    reveal(grown_alike);
    assert forall|i: int| 0 <= i < a.arena.len() implies {
        let x = a.arena[i];
        let y = #[trigger] c.arena[i];
        &&& y.tables == x.tables
        &&& y.kind is Chance == x.kind is Chance
        &&& y.terminal == x.terminal
        &&& y.depth == x.depth
        &&& y.state == x.state
        &&& y.actor == x.actor
        &&& y.values == x.values
    } by {
        assert(b.arena[i].tables == a.arena[i].tables);
    }
}

proof fn lemma_alike_same<S, F, N>(
    a: TreeModel<S, F, N>,
    b: TreeModel<S, F, N>,
    c: TreeModel<S, F, N>,
)
    requires
        grown_alike(a, b),
        c.arena == b.arena,
    ensures
        grown_alike(a, c),
{
    reveal(grown_alike);
}

proof fn lemma_alike_at<S, F, N>(a: TreeModel<S, F, N>, b: TreeModel<S, F, N>, i: int)
    requires
        grown_alike(a, b),
        0 <= i < a.arena.len(),
    ensures
        a.arena.len() <= b.arena.len(),
        b.arena[i].tables == a.arena[i].tables,
        b.arena[i].kind is Chance == a.arena[i].kind is Chance,
{
    reveal(grown_alike);
}

/// A tree with one node exchanged for one that differs in where it leads, and another added.
proof fn lemma_alike_grafted<S, F, N>(
    a: TreeModel<S, F, N>,
    b: TreeModel<S, F, N>,
    ni: int,
)
    requires
        0 <= ni < a.arena.len() <= b.arena.len(),
        forall|i: int| 0 <= i < a.arena.len() && i != ni ==> #[trigger] b.arena[i] == a.arena[i],
        b.arena[ni].tables == a.arena[ni].tables,
        b.arena[ni].kind is Chance == a.arena[ni].kind is Chance,
        b.arena[ni].terminal == a.arena[ni].terminal,
        b.arena[ni].depth == a.arena[ni].depth,
        b.arena[ni].state == a.arena[ni].state,
        b.arena[ni].actor == a.arena[ni].actor,
        b.arena[ni].values == a.arena[ni].values,
    ensures
        grown_alike(a, b),
{
    reveal(grown_alike);
}

proof fn lemma_attached<
    N: Scalar,
    G: Game<N>,
    E: StateEncoder<State = G::State>,
    W: Reward<N, Event = G::Event>,
>(
    ctx: Ctx<N, G, E, W>,
    cni: int,
    leaves: Seq<FanModel<G::State, N>>,
    slot: nat,
    m: TreeModel<G::State, E::Feature, N>,
)
    requires
        0 <= cni < m.arena.len(),
    ensures
        fan_attached(ctx, cni, leaves, slot, m) matches Ok(b) ==> grown_alike(m, b) && b.path
            == m.path,
    decreases leaves.len() - slot,
{
    lemma_alike_grafted(m, m, cni);
    if slot < leaves.len() {
        let leaf = leaves[slot as int];
        let node = m.arena[cni];
        let (child, rng) = child_node(
            *ctx.game,
            *ctx.enc,
            m.mode,
            leaf.state,
            node.actor,
            node.depth,
            leaf.terminal,
            ctx.chance,
            m.rng,
        );
        if let Ok(child) = child {
            let idx = m.arena.len() as usize;
            let linked = NodeModel {
                links: node.links.update(
                    slot as int,
                    LinkModel { child: Some(idx), ..node.links[slot as int] },
                ),
                ..node
            };
            let next = TreeModel {
                arena: m.arena.update(cni, linked).push(
                    NodeModel { chance_in: leaf.rewards, ..child },
                ),
                rng,
                ..m
            };
            lemma_alike_grafted(m, next, cni);
            lemma_attached(ctx, cni, leaves, slot + 1, next);
            if let Ok(b) = fan_attached(ctx, cni, leaves, slot, m) {
                lemma_alike_on(m, next, b);
            }
        }
    }
}

proof fn lemma_fanned<
    N: Scalar,
    G: Game<N>,
    E: StateEncoder<State = G::State>,
    W: Reward<N, Event = G::Event>,
>(
    ctx: Ctx<N, G, E, W>,
    m: TreeModel<G::State, E::Feature, N>,
    cni: int,
)
    requires
        0 <= cni < m.arena.len(),
    ensures
        fanned(ctx, m, cni) matches Ok(b) ==> grown_alike(m, b) && b.path == m.path,
{
    if let Ok(b) = fanned(ctx, m, cni) {
        let node = m.arena[cni];
        let spot = node.kind->Chance_0;
        let seeds = fan_seeds(
            *ctx.game,
            *ctx.reward,
            m.n_agents,
            node.state,
            spot.dist.probs(),
            0,
            Seq::empty(),
        )->Ok_0;
        let (leaves, chained) = fan_of(*ctx.game, *ctx.reward, m.n_agents, seeds)->Ok_0;
        let widened = NodeModel {
            links: fresh_links(leaves.len()),
            kind: KindModel::Chance(
                ChanceSpotModel {
                    fan_weights: if chained {
                        fan_probs(leaves)
                    } else {
                        spot.fan_weights
                    },
                    ..spot
                },
            ),
            ..node
        };
        let mid = with_node(m, cni, widened);
        lemma_alike_grafted(m, mid, cni);
        lemma_attached(ctx, cni, leaves, 0, mid);
        lemma_alike_on(m, mid, b);
    }
}

proof fn lemma_expanded<
    N: Scalar,
    G: Game<N>,
    E: StateEncoder<State = G::State>,
    W: Reward<N, Event = G::Event>,
>(
    ctx: Ctx<N, G, E, W>,
    m: TreeModel<G::State, E::Feature, N>,
    ni: int,
    js: usize,
)
    requires
        0 <= ni < m.arena.len(),
    ensures
        spec_expand(ctx, m, ni, js) matches Ok((e, b)) ==> grown_alike(m, b) && b.path == m.path,
{
    if let Ok((e, b)) = spec_expand(ctx, m, ni, js) {
        let node = m.arena[ni];
        let joint = super::grow::link_move(
            node.tables,
            node.tables.len(),
            js as nat,
            crate::util::spec_filled(0usize, ctx.game.spec_num_agents() as nat),
        )->Ok_0;
        let t = ctx.game.spec_step(node.state, joint);
        let rewards = super::grow::link_rewards(
            *ctx.reward,
            t.events,
            m.mode,
            node.actor,
            m.n_agents,
        )->Ok_0;
        let (child, rng) = child_node(
            *ctx.game,
            *ctx.enc,
            m.mode,
            t.next_state,
            node.actor,
            node.depth,
            t.terminal,
            ctx.chance,
            m.rng,
        );
        let idx = m.arena.len() as usize;
        let linked = NodeModel {
            links: node.links.update(js as int, LinkModel { child: Some(idx), rewards }),
            ..node
        };
        let next = TreeModel {
            arena: m.arena.update(ni, linked).push(child->Ok_0),
            rng,
            ..m
        };
        lemma_alike_grafted(m, next, ni);
        if e is Fan {
            assert(idx < next.arena.len());
            lemma_fanned(ctx, next, idx as int);
            lemma_alike_on(m, next, b);
        }
    }
}

/// What a simulation does at each decision that was there when it began: it takes the link that the
/// tables choose together.
#[verifier::opaque]
pub open spec fn takes_choices<
    N: Scalar,
    G: Game<N>,
    E: StateEncoder<State = G::State>,
    W: Reward<N, Event = G::Event>,
>(
    ctx: Ctx<N, G, E, W>,
    base: TreeModel<G::State, E::Feature, N>,
    path: Seq<(usize, usize)>,
    from: int,
) -> bool {
    forall|k: int|
        from <= k < path.len() ==> {
            let (ni, slot) = #[trigger] path[k];
            let node = base.arena[ni as int];
            ni < base.arena.len() && !(node.kind is Chance) ==> (joint_choice(
                node.tables,
                ctx.guidance,
                ctx.logs@,
                0,
                0,
            ) matches Ok(js) && js as usize == slot)
        }
}

/// Where a simulation may end so.
pub open spec fn ends_well<
    N: Scalar,
    G: Game<N>,
    E: StateEncoder<State = G::State>,
    W: Reward<N, Event = G::Event>,
>(
    ctx: Ctx<N, G, E, W>,
    reached: Reached,
    leaf: NodeModel<G::State, E::Feature, N>,
) -> bool {
    match reached {
        Reached::Terminal => leaf.terminal,
        Reached::DepthCapped => !leaf.terminal && leaf.depth >= ctx.max_depth,
        Reached::Eval => !leaf.terminal,
        Reached::Fan => true,
    }
}

proof fn lemma_step<
    N: Scalar,
    G: Game<N>,
    E: StateEncoder<State = G::State>,
    W: Reward<N, Event = G::Event>,
>(
    ctx: Ctx<N, G, E, W>,
    base: TreeModel<G::State, E::Feature, N>,
    path: Seq<(usize, usize)>,
    end: Seq<(usize, usize)>,
    ni: usize,
    slot: usize,
)
    requires
        path.len() + 1 <= end.len(),
        forall|k: int|
            0 <= k < path.len() + 1 ==> #[trigger] end[k] == path.push((ni, slot))[k],
        takes_choices(ctx, base, end, (path.len() + 1) as int),
        ni < base.arena.len() && !(base.arena[ni as int].kind is Chance) ==> (joint_choice(
            base.arena[ni as int].tables,
            ctx.guidance,
            ctx.logs@,
            0,
            0,
    ) matches Ok(js) && js as usize == slot),
    ensures
        takes_choices(ctx, base, end, path.len() as int),
        end[path.len() as int] == (ni, slot),
        forall|k: int| 0 <= k < path.len() ==> #[trigger] end[k] == path[k],
{
    reveal(takes_choices);
    assert(end[path.len() as int] == path.push((ni, slot))[path.len() as int]);
    assert forall|k: int| 0 <= k < path.len() implies #[trigger] end[k] == path[k] by {
        assert(end[k] == path.push((ni, slot))[k]);
    }
    assert forall|k: int| path.len() <= k < end.len() implies {
        let (ni, slot) = #[trigger] end[k];
        let node = base.arena[ni as int];
        ni < base.arena.len() && !(node.kind is Chance) ==> (joint_choice(
            node.tables,
            ctx.guidance,
            ctx.logs@,
            0,
            0,
        ) matches Ok(js) && js as usize == slot)
    } by {
        if k == path.len() {
            assert(end[k] == (ni, slot));
        }
    }
}

proof fn lemma_no_choices<
    N: Scalar,
    G: Game<N>,
    E: StateEncoder<State = G::State>,
    W: Reward<N, Event = G::Event>,
>(
    ctx: Ctx<N, G, E, W>,
    base: TreeModel<G::State, E::Feature, N>,
    path: Seq<(usize, usize)>,
)
    ensures
        takes_choices(ctx, base, path, path.len() as int),
{
    reveal(takes_choices);
}

proof fn lemma_materialized<
    N: Scalar,
    G: Game<N>,
    E: StateEncoder<State = G::State>,
    W: Reward<N, Event = G::Event>,
>(
    ctx: Ctx<N, G, E, W>,
    m: TreeModel<G::State, E::Feature, N>,
    ni: int,
    slot: usize,
)
    requires
        0 <= ni < m.arena.len(),
    ensures
        materialized(ctx, m, ni, slot) matches Ok((c, b)) ==> grown_alike(m, b) && b.path == m.path,
{
    if let Ok((c, b)) = materialized(ctx, m, ni, slot) {
        lemma_alike_grafted(m, b, ni);
    }
}

#[verifier::rlimit(40)]
proof fn lemma_down<
    N: Scalar,
    G: Game<N>,
    E: StateEncoder<State = G::State>,
    W: Reward<N, Event = G::Event>,
>(
    ctx: Ctx<N, G, E, W>,
    base: TreeModel<G::State, E::Feature, N>,
    m: TreeModel<G::State, E::Feature, N>,
    ni: usize,
    hops: nat,
    len: nat,
)
    requires
        grown_alike(base, m),
        len == base.arena.len(),
    ensures
        descended(ctx, m, ni, hops, len) matches Ok((reached, b)) ==> {
            &&& grown_alike(base, b)
            &&& m.path.len() <= b.path.len()
            &&& forall|k: int| 0 <= k < m.path.len() ==> #[trigger] b.path[k] == m.path[k]
            &&& takes_choices(ctx, base, b.path, m.path.len() as int)
            &&& b.path.len() > m.path.len() ==> b.path[m.path.len() as int].0 == ni
            &&& ends_well(ctx, reached, b.arena[b.leaf as int])
        },
    decreases
            (if ni < len {
                len - ni
            } else {
                0
            }),
            CHANCE_CHAIN_LIMIT + 1 - hops,
{
    if ni < m.arena.len() {
        let node = m.arena[ni as int];
        match node.kind {
            KindModel::Chance(spot) => {
                if hops < CHANCE_CHAIN_LIMIT {
                    let (drawn, rng) = slot_drawn(spot, ctx.chance, m.rng);
                    if let Ok(slot) = drawn {
                        let next = stepped(TreeModel { rng, ..m }, ni, slot);
                        lemma_alike_same(base, m, next);
                        if ni < base.arena.len() {
                            lemma_alike_at(base, m, ni as int);
                        }
                        match chance_child(node, slot) {
                            Err(_) => {},
                            Ok(Some(c)) => if ni < c {
                                lemma_down(ctx, base, next, c, hops + 1, len);
                                if let Ok((reached, b)) = descended(ctx, next, c, hops + 1, len) {
                                    lemma_step(ctx, base, m.path, b.path, ni, slot);
                                }
                            },
                            Ok(None) => {
                                lemma_materialized(ctx, next, ni as int, slot);
                                if let Ok((c, grown)) = materialized(ctx, next, ni as int, slot) {
                                    lemma_alike_on(base, next, grown);
                                    if grown.arena[c as int].kind is Chance {
                                        if ni < c {
                                            lemma_down(ctx, base, grown, c, hops + 1, len);
                                            if let Ok((reached, b)) = descended(
                                                ctx,
                                                grown,
                                                c,
                                                hops + 1,
                                                len,
                                            ) {
                                                lemma_step(ctx, base, m.path, b.path, ni, slot);
                                            }
                                        }
                                    } else {
                                        lemma_no_choices(ctx, base, grown.path);
                                        lemma_alike_same(base, grown, ended(grown, c));
                                        lemma_step(ctx, base, m.path, grown.path, ni, slot);
                                    }
                                }
                            },
                        }
                    }
                }
            },
            _ => {
                if ni < len {
                    lemma_alike_at(base, m, ni as int);
                    lemma_no_choices(ctx, base, m.path);
                    let seen = TreeModel {
                        max_depth_seen: if m.max_depth_seen < node.depth {
                            node.depth
                        } else {
                            m.max_depth_seen
                        },
                        ..m
                    };
                    lemma_alike_same(base, m, seen);
                    lemma_alike_same(base, m, ended(seen, ni));
                    if !node.terminal && !(ctx.guidance is Puct && !evaluated(node)) && node.depth
                        < ctx.max_depth {
                        if let Ok(js) = joint_choice(
                            node.tables,
                            ctx.guidance,
                            ctx.logs@,
                            0,
                            0,
                        ) {
                            let slot = js as usize;
                            let next = stepped(seen, ni, slot);
                            lemma_alike_same(base, m, next);
                            if js < node.links.len() {
                                match node.links[js as int].child {
                                    Some(c) => if ni < c {
                                        lemma_down(ctx, base, next, c, 0, len);
                                        if let Ok((reached, b)) = descended(
                                            ctx,
                                            next,
                                            c,
                                            0,
                                            len,
                                        ) {
                                            lemma_step(ctx, base, m.path, b.path, ni, slot);
                                        }
                                    },
                                    None => {
                                        lemma_expanded(ctx, next, ni as int, slot);
                                        if let Ok((e, grown)) = spec_expand(
                                            ctx,
                                            next,
                                            ni as int,
                                            slot,
                                        ) {
                                            lemma_alike_on(base, next, grown);
                                            match e {
                                                Expanded::Chance(c) => if ni < c {
                                                    lemma_down(ctx, base, grown, c, 0, len);
                                                    if let Ok((reached, b)) = descended(
                                                        ctx,
                                                        grown,
                                                        c,
                                                        0,
                                                        len,
                                                    ) {
                                                        lemma_step(
                                                            ctx,
                                                            base,
                                                            m.path,
                                                            b.path,
                                                            ni,
                                                            slot,
                                                        );
                                                    }
                                                },
                                                _ => {
                                                    let c = super::grow::added_index(e);
                                                    lemma_no_choices(ctx, base, grown.path);
                                                    lemma_alike_same(
                                                        base,
                                                        grown,
                                                        ended(grown, c),
                                                    );
                                                    lemma_step(
                                                        ctx,
                                                        base,
                                                        m.path,
                                                        grown.path,
                                                        ni,
                                                        slot,
                                                    );
                                                },
                                            }
                                        }
                                    },
                                }
                            }
                        }
                    }
                }
            },
        }
    }
}

/// A simulation begins at the root, takes at each decision that was there the link that its tables
/// choose together, and credits nothing on its way: the nodes that were there are what they were but
/// for where they lead. It ends where the game ends, at the depth cap, where a node is to be
/// evaluated, or at a fan.
pub proof fn law_simulations_take_what_tables_choose<
    N: Scalar,
    G: Game<N>,
    E: StateEncoder<State = G::State>,
    W: Reward<N, Event = G::Event>,
>(
    ctx: Ctx<N, G, E, W>,
    m: TreeModel<G::State, E::Feature, N>,
)
    ensures
        spec_select_expand(ctx, m) matches Ok((reached, b)) ==> {
            &&& grown_alike(m, b)
            &&& takes_choices(ctx, m, b.path, 0)
            &&& b.path.len() > 0 ==> b.path[0].0 == 0
            &&& ends_well(ctx, reached, b.arena[b.leaf as int])
        },
{
    let first = TreeModel { path: Seq::empty(), ..m };
    assert(grown_alike(m, first)) by {
        reveal(grown_alike);
    }
    lemma_down(ctx, m, first, 0, 0, m.arena.len());
}

/// Outcome `leaf` hangs at slot `j` of chance node `cni`.
pub open spec fn hangs<S, F, N>(
    m: TreeModel<S, F, N>,
    cni: int,
    leaf: FanModel<S, N>,
    j: int,
) -> bool {
    &&& m.arena[cni].links[j].child matches Some(c) && cni < c < m.arena.len() && {
        let node = m.arena[c as int];
        &&& node.state == leaf.state
        &&& node.terminal == leaf.terminal
        &&& node.chance_in == leaf.rewards
    }
}

/// Every outcome of a fan hangs below its chance node, slot by slot: the state, the end and the rewards
/// of chance that it came with.
pub proof fn law_fans_hold_their_outcomes<
    N: Scalar,
    G: Game<N>,
    E: StateEncoder<State = G::State>,
    W: Reward<N, Event = G::Event>,
>(
    ctx: Ctx<N, G, E, W>,
    cni: int,
    leaves: Seq<FanModel<G::State, N>>,
    slot: nat,
    m: TreeModel<G::State, E::Feature, N>,
    j: int,
)
    requires
        0 <= cni < m.arena.len(),
        slot <= leaves.len(),
        0 <= j < leaves.len(),
        m.arena[cni].links.len() == leaves.len(),
        m.arena.len() + (leaves.len() - slot) <= usize::MAX,
        j < slot ==> hangs(m, cni, leaves[j], j),
    ensures
        fan_attached(ctx, cni, leaves, slot, m) matches Ok(b) ==> hangs(b, cni, leaves[j], j),
    decreases leaves.len() - slot,
{
    if slot < leaves.len() {
        let leaf = leaves[slot as int];
        let node = m.arena[cni];
        let (child, rng) = child_node(
            *ctx.game,
            *ctx.enc,
            m.mode,
            leaf.state,
            node.actor,
            node.depth,
            leaf.terminal,
            ctx.chance,
            m.rng,
        );
        if let Ok(child) = child {
            let idx = m.arena.len() as usize;
            let linked = NodeModel {
                links: node.links.update(
                    slot as int,
                    LinkModel { child: Some(idx), ..node.links[slot as int] },
                ),
                ..node
            };
            let next = TreeModel {
                arena: m.arena.update(cni, linked).push(
                    NodeModel { chance_in: leaf.rewards, ..child },
                ),
                rng,
                ..m
            };
            if j < slot {
                let c = m.arena[cni].links[j].child->Some_0 as int;
                assert(next.arena[cni].links[j] == m.arena[cni].links[j]);
                assert(next.arena[c] == m.arena[c] || c == cni);
            }
            law_fans_hold_their_outcomes(ctx, cni, leaves, slot + 1, next, j);
        }
    }
}

} // verus!
