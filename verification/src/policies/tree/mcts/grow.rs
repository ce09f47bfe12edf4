//! The way down the tree, and the node at its end.

use vstd::prelude::*;

use super::fan::{flatten_chance_fan, per_agent_chance_rewards, score_all, FanState};
#[allow(unused_imports)]
use super::fan::{agent_rewards, fan_models, fan_of, spec_score_all, FanModel};
use super::leaves::{new_child, new_links};
#[allow(unused_imports)]
use super::leaves::{child_node, fresh_links};
use super::select::{choose_link, Guidance};
#[allow(unused_imports)]
use super::select::joint_choice;
use super::tree::{Kind, Node, Table, Tree, TreeMode};
#[allow(unused_imports)]
use super::tree::{
    same_counts, table_models, ChanceSpotModel, KindModel, LinkModel, NodeModel, TableModel,
    TreeModel,
};
use crate::encoder::StateEncoder;
use crate::fault::Fault;
use crate::game::{Actor, Game, Rng, CHANCE_CHAIN_LIMIT};
use crate::num::Scalar;
use crate::policies::tree::expectimax::fan::scored;
#[allow(unused_imports)]
use crate::policies::tree::expectimax::fan::spec_scored;
use crate::policy::{ChanceMode, MAX_ENUMERATED_OUTCOMES};
use crate::reward::Reward;
use crate::rng::weighted_index;
#[allow(unused_imports)]
use crate::rng::{weighted_pick, SplitMix64};
use crate::util::filled;
#[allow(unused_imports)]
use crate::util::{spec_filled, viewed};

verus! {

broadcast use vstd::std_specs::hash::group_hash_axioms;

/// What a search consults and never changes.
pub struct Ctx<'a, N, G, E, W> {
    pub game: &'a G,
    pub enc: &'a E,
    pub reward: &'a W,
    pub guidance: Guidance<N>,
    /// Logarithms of counts, for UCT.
    pub logs: &'a [N],
    pub chance: ChanceMode,
    pub gamma: N,
    pub max_depth: i32,
}

/// Where a simulation ended.
#[derive(Clone, Copy, PartialEq, Eq, Debug, Structural)]
pub enum Reached {
    Eval,
    Terminal,
    DepthCapped,
    Fan,
}

/// What an expansion added.
#[derive(Clone, Copy, PartialEq, Eq, Debug, Structural)]
pub enum Expanded {
    Leaf(usize),
    Chance(usize),
    Fan(usize),
}

/// A tree with node `ni` replaced.
pub open spec fn with_node<S, F, N>(
    m: TreeModel<S, F, N>,
    ni: int,
    node: NodeModel<S, F, N>,
) -> TreeModel<S, F, N> {
    TreeModel { arena: m.arena.update(ni, node), ..m }
}

/// The slot that a visit to a chance node falls on, and the generator after it.
pub open spec fn slot_drawn<N: Scalar>(
    spot: ChanceSpotModel<N>,
    chance: ChanceMode,
    rng: SplitMix64,
) -> (Result<usize, Fault>, SplitMix64) {
    if chance is Committed {
        if spot.committed.len() == 0 {
            (Err(Fault::Tree), rng)
        } else {
            let (slot, after) = <SplitMix64 as Rng<N>>::spec_below(
                rng,
                spot.committed.len() as usize,
            );
            (Ok(slot), after)
        }
    } else if spot.fan_weights.len() == 0 {
        spot.dist.drawn(rng)
    } else {
        let (unit, after) = <SplitMix64 as Rng<N>>::spec_unit(rng);
        (Ok(weighted_pick(spot.fan_weights, unit) as usize), after)
    }
}

fn pick_chance_slot<S, F, N: Scalar>(t: &mut Tree<S, F, N>, ni: usize, chance: ChanceMode) -> (r:
    Result<usize, Fault>)
    requires
        ni < old(t)@.arena.len(),
        old(t)@.arena[ni as int].kind is Chance,
    ensures
        (r, final(t)@.rng) == slot_drawn(
            old(t)@.arena[ni as int].kind->Chance_0,
            chance,
            old(t)@.rng,
        ),
        final(t)@ == (TreeModel { rng: final(t)@.rng, ..old(t)@ }),
{
    assert(t@.arena[ni as int] == t.arena@[ni as int]@);
    match &t.arena[ni].kind {
        Kind::Chance(spot) => {
            if matches!(chance, ChanceMode::Committed { .. }) {
                if spot.committed.len() == 0 {
                    return Err(Fault::Tree);
                }
                let n = spot.committed.len();
                Ok(<SplitMix64 as Rng<N>>::below(&mut t.rng, n))
            } else if spot.fan_weights.len() == 0 {
                spot.dist.draw(&mut t.rng)
            } else {
                Ok(weighted_index(&mut t.rng, &spot.fan_weights))
            }
        },
        _ => Err(Fault::Tree),
    }
}

/// The child at a chance slot, if it is there.
pub open spec fn chance_child<S, F, N>(node: NodeModel<S, F, N>, slot: usize) -> Result<
    Option<usize>,
    Fault,
> {
    if node.links.len() == 0 {
        match node.kind {
            KindModel::Chance(spot) => Ok(
                if spot.resampled.contains_key(slot) {
                    Some(spot.resampled[slot])
                } else {
                    None
                },
            ),
            _ => Err(Fault::Tree),
        }
    } else if slot < node.links.len() {
        Ok(node.links[slot as int].child)
    } else {
        Err(Fault::Tree)
    }
}

pub(crate) fn find_chance_child<S, F, N>(node: &Node<S, F, N>, slot: usize) -> (r: Result<
    Option<usize>,
    Fault,
>)
    ensures
        r == chance_child(node@, slot),
{
    if node.links.len() == 0 {
        match &node.kind {
            Kind::Chance(spot) => match spot.resampled.get(&slot) {
                Some(c) => Ok(Some(*c)),
                None => Ok(None),
            },
            _ => Err(Fault::Tree),
        }
    } else if slot < node.links.len() {
        assert(node@.links[slot as int] == node.links@[slot as int]@);
        Ok(node.links[slot].child)
    } else {
        Err(Fault::Tree)
    }
}

/// The outcome that a chance slot stands for.
pub open spec fn slot_outcome<N>(spot: ChanceSpotModel<N>, slot: usize) -> Result<usize, Fault> {
    if spot.committed.len() == 0 {
        Ok(slot)
    } else if slot < spot.committed.len() {
        Ok(spot.committed[slot as int])
    } else {
        Err(Fault::Tree)
    }
}

/// A chance node with `idx` at its `slot`.
pub open spec fn slot_linked<S, F, N>(
    node: NodeModel<S, F, N>,
    spot: ChanceSpotModel<N>,
    slot: usize,
    idx: usize,
) -> Result<NodeModel<S, F, N>, Fault> {
    if node.links.len() == 0 {
        Ok(
            NodeModel {
                kind: KindModel::Chance(
                    ChanceSpotModel { resampled: spot.resampled.insert(slot, idx), ..spot },
                ),
                ..node
            },
        )
    } else if slot < node.links.len() {
        Ok(
            NodeModel {
                links: node.links.update(
                    slot as int,
                    LinkModel { child: Some(idx), ..node.links[slot as int] },
                ),
                ..node
            },
        )
    } else {
        Err(Fault::Tree)
    }
}

/// The tree with the outcome at `slot` of chance node `cni` added, and its index.
pub open spec fn materialized<
    N: Scalar,
    G: Game<N>,
    E: StateEncoder<State = G::State>,
    W: Reward<N, Event = G::Event>,
>(
    ctx: Ctx<N, G, E, W>,
    m: TreeModel<G::State, E::Feature, N>,
    cni: int,
    slot: usize,
) -> Result<(usize, TreeModel<G::State, E::Feature, N>), Fault> {
    let node = m.arena[cni];
    match node.kind {
        KindModel::Chance(spot) => {
            if ctx.game.spec_actor(node.state) != Actor::Chance || node.depth == i32::MAX {
                Err(Fault::Tree)
            } else {
                match slot_outcome(spot, slot) {
                    Err(f) => Err(f),
                    Ok(outcome) => {
                        let t = ctx.game.spec_apply_chance_node(node.state, outcome);
                        match agent_rewards(*ctx.reward, t.events, m.n_agents) {
                            Err(f) => Err(f),
                            Ok(chance_in) => {
                                let (child, rng) = child_node(
                                    *ctx.game,
                                    *ctx.enc,
                                    m.mode,
                                    t.next_state,
                                    node.actor,
                                    node.depth,
                                    t.terminal,
                                    ctx.chance,
                                    m.rng,
                                );
                                let idx = m.arena.len() as usize;
                                match (child, slot_linked(node, spot, slot, idx)) {
                                    (Err(f), _) => Err(f),
                                    (_, Err(f)) => Err(f),
                                    (Ok(child), Ok(linked)) => Ok(
                                        (
                                            idx,
                                            TreeModel {
                                                arena: m.arena.update(cni, linked).push(
                                                    NodeModel { chance_in, ..child },
                                                ),
                                                rng,
                                                ..m
                                            },
                                        ),
                                    ),
                                }
                            },
                        }
                    },
                }
            }
        },
        _ => Err(Fault::Tree),
    }
}

fn materialize_outcome<
    N: Scalar,
    G: Game<N>,
    E: StateEncoder<State = G::State>,
    W: Reward<N, Event = G::Event>,
>(
    t: &mut Tree<G::State, E::Feature, N>,
    ctx: &Ctx<N, G, E, W>,
    cni: usize,
    slot: usize,
) -> (r: Result<usize, Fault>)
    requires
        cni < old(t)@.arena.len(),
    ensures
        match r {
            Ok(idx) => materialized(*ctx, old(t)@, cni as int, slot) == Ok::<_, Fault>(
                (idx, final(t)@),
            ) && idx == old(t)@.arena.len() && final(t)@.arena.len() == idx + 1 && same_counts(
                old(t)@,
                final(t)@,
            ),
            Err(f) => materialized(*ctx, old(t)@, cni as int, slot) == Err::<
                (usize, TreeModel<G::State, E::Feature, N>),
                _,
            >(f),
        },
{
    let ghost node = t@.arena[cni as int];
    assert(node == t.arena@[cni as int]@);
    let n_agents = t.n_agents;
    let mode = t.mode;
    let depth = t.arena[cni].depth;
    let mover = t.arena[cni].actor;
    let outcome = match &t.arena[cni].kind {
        Kind::Chance(spot) => {
            if !matches!(ctx.game.actor(&t.arena[cni].state), Actor::Chance) || depth == i32::MAX {
                return Err(Fault::Tree);
            }
            if spot.committed.len() == 0 {
                slot
            } else if slot < spot.committed.len() {
                spot.committed[slot]
            } else {
                return Err(Fault::Tree);
            }
        },
        _ => return Err(Fault::Tree),
    };
    let ghost spot = node.kind->Chance_0;
    let next = ctx.game.apply_chance_node(&t.arena[cni].state, outcome);
    let chance_in = match per_agent_chance_rewards(ctx.reward, &next.events, n_agents) {
        Ok(chance_in) => chance_in,
        Err(f) => return Err(f),
    };
    let mut child = match new_child(
        ctx.game,
        ctx.enc,
        mode,
        next.next_state,
        mover,
        depth,
        next.terminal,
        ctx.chance,
        &mut t.rng,
    ) {
        Ok(child) => child,
        Err(f) => return Err(f),
    };
    let ghost bare = child@;
    let ghost rewards = chance_in@;
    child.chance_in = chance_in;
    assert(child@ =~= NodeModel { chance_in: rewards, ..bare });
    let idx = t.arena.len();
    let ghost held = t@;
    assert(held.arena[cni as int] == node);
    if t.arena[cni].links.len() == 0 {
        match &mut t.arena[cni].kind {
            Kind::Chance(spot) => {
                spot.resampled.insert(slot, idx);
            },
            _ => {},
        }
    } else if slot < t.arena[cni].links.len() {
        t.arena[cni].links[slot].child = Some(idx);
    } else {
        return Err(Fault::Tree);
    }
    let ghost linked = slot_linked(node, spot, slot, idx)->Ok_0;
    assert(t.arena@[cni as int]@ =~= linked) by {
        assert(t.arena@[cni as int]@.links =~= linked.links);
    }
    assert(t@.arena =~= held.arena.update(cni as int, linked));
    let ghost before = t@.arena;
    let ghost model = child@;
    t.arena.push(child);
    assert(t@.arena =~= before.push(model));
    Ok(idx)
}

/// Outcome `i` of a chance state as the seed of a fan.
pub open spec fn fan_seed<N: Scalar, G: Game<N>, W: Reward<N, Event = G::Event>>(
    game: G,
    reward: W,
    n: usize,
    state: G::State,
    i: usize,
    prob: N,
) -> Result<FanModel<G::State, N>, Fault> {
    let t = game.spec_apply_chance_node(state, i);
    match agent_rewards(reward, t.events, n) {
        Err(f) => Err(f),
        Ok(rewards) => Ok(
            FanModel { state: t.next_state, prob, rewards, terminal: t.terminal, hops: 0 },
        ),
    }
}

/// The outcomes of a chance state from the `i`-th on, in their order, behind `acc`.
pub open spec fn fan_seeds<N: Scalar, G: Game<N>, W: Reward<N, Event = G::Event>>(
    game: G,
    reward: W,
    n: usize,
    state: G::State,
    probs: Seq<N>,
    i: nat,
    acc: Seq<FanModel<G::State, N>>,
) -> Result<Seq<FanModel<G::State, N>>, Fault>
    decreases probs.len() - i,
{
    if i >= probs.len() {
        Ok(acc)
    } else {
        match fan_seed(game, reward, n, state, i as usize, probs[i as int]) {
            Err(f) => Err(f),
            Ok(seed) => fan_seeds(
                game,
                reward,
                n,
                state,
                probs,
                i + 1,
                acc.push(seed),
            ),
        }
    }
}

#[verifier::loop_isolation(false)]
fn build_seeds<N: Scalar, G: Game<N>, W: Reward<N, Event = G::Event>>(
    game: &G,
    reward: &W,
    n: usize,
    state: &G::State,
    probs: &[N],
) -> (r: Result<Vec<FanState<G::State, N>>, Fault>)
    requires
        game.spec_actor(*state) == Actor::Chance,
    ensures
        match r {
            Ok(seeds) => fan_seeds(
                *game,
                *reward,
                n,
                *state,
                probs@,
                0,
                Seq::empty(),
            ) == Ok::<_, Fault>(fan_models(seeds@)) && seeds@.len() == probs@.len(),
            Err(f) => fan_seeds(
                *game,
                *reward,
                n,
                *state,
                probs@,
                0,
                Seq::empty(),
            ) == Err::<Seq<FanModel<G::State, N>>, _>(f),
        },
{
    let mut seeds: Vec<FanState<G::State, N>> = Vec::new();
    let mut i: usize = 0;
    assert(fan_models(seeds@) =~= Seq::empty());
    while i < probs.len()
        invariant
            i <= probs@.len(),
            seeds@.len() == i,
            fan_seeds(*game, *reward, n, *state, probs@, i as nat, fan_models(seeds@)) == fan_seeds(
                *game,
                *reward,
                n,
                *state,
                probs@,
                0,
                Seq::empty(),
            ),
        decreases probs@.len() - i,
    {
        let t = game.apply_chance_node(state, i);
        let rewards = match per_agent_chance_rewards(reward, &t.events, n) {
            Ok(rewards) => rewards,
            Err(f) => return Err(f),
        };
        let seed = FanState {
            state: t.next_state,
            prob: probs[i],
            rewards,
            terminal: t.terminal,
            hops: 0,
        };
        let ghost listed = fan_models(seeds@);
        let ghost model = seed@;
        seeds.push(seed);
        assert(fan_models(seeds@) =~= listed.push(model));
        i = i + 1;
    }
    Ok(seeds)
}

/// The tree with the fan's leaves from `slot` on added below chance node `cni`.
pub open spec fn fan_attached<
    N: Scalar,
    G: Game<N>,
    E: StateEncoder<State = G::State>,
    W: Reward<N, Event = G::Event>,
>(
    ctx: Ctx<N, G, E, W>,
    cni: int,
    leaves: Seq<FanModel<G::State, N>>,
    slot: nat,
    m: TreeModel<G::State, E::Feature, N>,
) -> Result<TreeModel<G::State, E::Feature, N>, Fault>
    decreases leaves.len() - slot,
{
    if slot >= leaves.len() {
        Ok(m)
    } else {
        let leaf = leaves[slot as int];
        let node = m.arena[cni];
        let (child, rng) = child_node(
            *ctx.game,
            *ctx.enc,
            m.mode,
            leaf.state,
            node.actor,
            node.depth,
            leaf.terminal,
            ctx.chance,
            m.rng,
        );
        match child {
            Err(f) => Err(f),
            Ok(child) => {
                let idx = m.arena.len() as usize;
                let linked = NodeModel {
                    links: node.links.update(
                        slot as int,
                        LinkModel { child: Some(idx), ..node.links[slot as int] },
                    ),
                    ..node
                };
                fan_attached(
                    ctx,
                    cni,
                    leaves,
                    slot + 1,
                    TreeModel {
                        arena: m.arena.update(cni, linked).push(
                            NodeModel { chance_in: leaf.rewards, ..child },
                        ),
                        rng,
                        ..m
                    },
                )
            },
        }
    }
}

/// The weights of a fan.
pub open spec fn fan_probs<S, N>(leaves: Seq<FanModel<S, N>>) -> Seq<N> {
    leaves.map_values(|l: FanModel<S, N>| l.prob)
}

/// The tree with every outcome of chance node `cni` added, its chance chains flattened.
pub open spec fn fanned<
    N: Scalar,
    G: Game<N>,
    E: StateEncoder<State = G::State>,
    W: Reward<N, Event = G::Event>,
>(
    ctx: Ctx<N, G, E, W>,
    m: TreeModel<G::State, E::Feature, N>,
    cni: int,
) -> Result<TreeModel<G::State, E::Feature, N>, Fault> {
    let node = m.arena[cni];
    match node.kind {
        KindModel::Chance(spot) => {
            if ctx.game.spec_actor(node.state) != Actor::Chance || node.depth == i32::MAX {
                Err(Fault::Tree)
            } else if spot.dist.count() > MAX_ENUMERATED_OUTCOMES {
                Err(Fault::FanLimit)
            } else if !spot.dist.sound() {
                Err(Fault::WeightTotal)
            } else {
                let probs = spot.dist.probs();
                match fan_seeds(
                    *ctx.game,
                    *ctx.reward,
                    m.n_agents,
                    node.state,
                    probs,
                    0,
                    Seq::empty(),
                ) {
                    Err(f) => Err(f),
                    Ok(seeds) => match fan_of(*ctx.game, *ctx.reward, m.n_agents, seeds) {
                        Err(f) => Err(f),
                        Ok((leaves, chained)) => {
                            let widened = NodeModel {
                                links: fresh_links(leaves.len()),
                                kind: KindModel::Chance(
                                    ChanceSpotModel {
                                        fan_weights: if chained {
                                            fan_probs(leaves)
                                        } else {
                                            spot.fan_weights
                                        },
                                        ..spot
                                    },
                                ),
                                ..node
                            };
                            fan_attached(ctx, cni, leaves, 0, with_node(m, cni, widened))
                        },
                    },
                }
            }
        },
        _ => Err(Fault::Tree),
    }
}

fn weights_of<S, N: Scalar>(leaves: &Vec<FanState<S, N>>) -> (r: Vec<N>)
    ensures
        r@ == fan_probs(fan_models(leaves@)),
{
    let mut r: Vec<N> = Vec::new();
    let mut i: usize = 0;
    while i < leaves.len()
        invariant
            i <= leaves@.len(),
            r@.len() == i,
            forall|k: int| 0 <= k < i ==> #[trigger] r@[k] == leaves@[k].prob,
        decreases leaves@.len() - i,
    {
        r.push(leaves[i].prob);
        i = i + 1;
    }
    assert(r@ =~= fan_probs(fan_models(leaves@)));
    r
}

fn attach_fan<
    N: Scalar,
    G: Game<N>,
    E: StateEncoder<State = G::State>,
    W: Reward<N, Event = G::Event>,
>(
    t: &mut Tree<G::State, E::Feature, N>,
    ctx: &Ctx<N, G, E, W>,
    cni: usize,
    leaves: Vec<FanState<G::State, N>>,
) -> (r: Result<(), Fault>)
    requires
        cni < old(t)@.arena.len(),
        old(t)@.arena[cni as int].links.len() == leaves@.len(),
        old(t)@.arena[cni as int].depth < i32::MAX,
    ensures
        match r {
            Ok(_) => fan_attached(*ctx, cni as int, fan_models(leaves@), 0, old(t)@) == Ok::<
                _,
                Fault,
            >(final(t)@) && final(t)@.arena.len() >= old(t)@.arena.len() && same_counts(
                old(t)@,
                final(t)@,
            ),
            Err(f) => fan_attached(*ctx, cni as int, fan_models(leaves@), 0, old(t)@) == Err::<
                TreeModel<G::State, E::Feature, N>,
                _,
            >(f),
        },
{
    let ghost all = leaves@;
    let ghost models = fan_models(leaves@);
    let n = leaves.len();
    let mode = t.mode;
    let mut slot: usize = 0;
    for leaf in it: leaves
        invariant
            it.seq() == all,
            slot == it.index(),
            all.len() == n,
            models == fan_models(all),
            mode == t.mode,
            cni < t@.arena.len(),
            t@.arena.len() >= old(t)@.arena.len(),
            same_counts(old(t)@, t@),
            t@.arena[cni as int].links.len() == n,
            t@.arena[cni as int].depth < i32::MAX,
            fan_attached(*ctx, cni as int, models, slot as nat, t@) == fan_attached(
                *ctx,
                cni as int,
                models,
                0,
                old(t)@,
            ),
    {
        assert(leaf == all[slot as int]);
        assert(models[slot as int] == leaf@);
        let ghost node = t@.arena[cni as int];
        assert(node == t.arena@[cni as int]@);
        let mover = t.arena[cni].actor;
        let depth = t.arena[cni].depth;
        let ghost shown = leaf@;
        let mut child = match new_child(
            ctx.game,
            ctx.enc,
            mode,
            leaf.state,
            mover,
            depth,
            leaf.terminal,
            ctx.chance,
            &mut t.rng,
        ) {
            Ok(child) => child,
            Err(f) => return Err(f),
        };
        let ghost bare = child@;
        child.chance_in = leaf.rewards;
        assert(child@ =~= NodeModel { chance_in: shown.rewards, ..bare });
        let idx = t.arena.len();
        let ghost held = t@;
        t.arena[cni].links[slot].child = Some(idx);
        let ghost linked = NodeModel {
            links: node.links.update(
                slot as int,
                LinkModel { child: Some(idx), ..node.links[slot as int] },
            ),
            ..node
        };
        assert(t.arena@[cni as int]@ =~= linked) by {
            assert(t.arena@[cni as int]@.links =~= linked.links);
        }
        assert(t@.arena =~= held.arena.update(cni as int, linked));
        let ghost before = t@.arena;
        let ghost model = child@;
        t.arena.push(child);
        assert(t@.arena =~= before.push(model));
        slot = slot + 1;
    }
    Ok(())
}

fn materialize_explicit_fan<
    N: Scalar,
    G: Game<N>,
    E: StateEncoder<State = G::State>,
    W: Reward<N, Event = G::Event>,
>(
    t: &mut Tree<G::State, E::Feature, N>,
    ctx: &Ctx<N, G, E, W>,
    cni: usize,
) -> (r: Result<(), Fault>)
    requires
        cni < old(t)@.arena.len(),
    ensures
        match r {
            Ok(_) => fanned(*ctx, old(t)@, cni as int) == Ok::<_, Fault>(final(t)@)
                && final(t)@.arena.len() >= old(t)@.arena.len() && same_counts(
                old(t)@,
                final(t)@,
            ),
            Err(f) => fanned(*ctx, old(t)@, cni as int) == Err::<
                TreeModel<G::State, E::Feature, N>,
                _,
            >(f),
        },
{
    let ghost node = t@.arena[cni as int];
    assert(node == t.arena@[cni as int]@);
    let n_agents = t.n_agents;
    let probs = match &t.arena[cni].kind {
        Kind::Chance(spot) => {
            if !matches!(ctx.game.actor(&t.arena[cni].state), Actor::Chance) || t.arena[cni].depth
                == i32::MAX {
                return Err(Fault::Tree);
            }
            if spot.dist.count() > MAX_ENUMERATED_OUTCOMES {
                return Err(Fault::FanLimit);
            }
            match spot.dist.iter_probs() {
                Ok(probs) => probs,
                Err(f) => return Err(f),
            }
        },
        _ => return Err(Fault::Tree),
    };
    let ghost spot = node.kind->Chance_0;
    let seeds = match build_seeds(ctx.game, ctx.reward, n_agents, &t.arena[cni].state, &probs) {
        Ok(seeds) => seeds,
        Err(f) => return Err(f),
    };
    let (leaves, chained) = match flatten_chance_fan(ctx.game, ctx.reward, n_agents, seeds) {
        Ok(made) => made,
        Err(f) => return Err(f),
    };
    let ghost models = fan_models(leaves@);
    let ghost held = t@;
    let links = new_links(leaves.len());
    t.arena[cni].links = links;
    let ghost mut weights = spot.fan_weights;
    if chained {
        let listed = weights_of(&leaves);
        proof {
            weights = listed@;
        }
        match &mut t.arena[cni].kind {
            Kind::Chance(spot) => {
                spot.fan_weights = listed;
            },
            _ => {},
        }
    }
    let ghost widened = NodeModel {
        links: fresh_links(models.len()),
        kind: KindModel::Chance(ChanceSpotModel { fan_weights: weights, ..spot }),
        ..node
    };
    assert(t.arena@[cni as int]@ =~= widened);
    assert(t@ =~= with_node(held, cni as int, widened)) by {
        assert(t@.arena =~= held.arena.update(cni as int, widened));
    }
    attach_fan(t, ctx, cni, leaves)
}

/// The joint move that link `rem` of the first `i` tables stands for, the last varying fastest.
pub open spec fn link_move<N>(
    tables: Seq<TableModel<N>>,
    i: nat,
    rem: nat,
    joint: Seq<usize>,
) -> Result<Seq<usize>, Fault>
    decreases i,
{
    if i == 0 {
        Ok(joint)
    } else {
        let t = tables[i - 1];
        if t.arms.len() == 0 {
            Err(Fault::Tree)
        } else if t.agent >= joint.len() {
            Err(Fault::AgentRange)
        } else {
            link_move(
                tables,
                (i - 1) as nat,
                rem / t.arms.len(),
                joint.update(
                    t.agent as int,
                    t.arms[(rem % t.arms.len()) as int].action,
                ),
            )
        }
    }
}

#[verifier::loop_isolation(false)]
fn edge_joint<N: Scalar>(tables: &Vec<Table<N>>, js: usize, num_agents: usize) -> (r: Result<
    Vec<usize>,
    Fault,
>)
    ensures
        viewed(r) == link_move(
            table_models(tables@),
            tables@.len(),
            js as nat,
            spec_filled(0usize, num_agents as nat),
        ),
{
    let ghost models = table_models(tables@);
    let ghost goal = link_move(
        models,
        tables@.len(),
        js as nat,
        spec_filled(0usize, num_agents as nat),
    );
    let mut joint: Vec<usize> = filled(0usize, num_agents);
    let mut rem: usize = js;
    let mut i: usize = tables.len();
    while i > 0
        invariant
            i <= tables@.len(),
            link_move(models, i as nat, rem as nat, joint@) == goal,
        decreases i,
    {
        i = i - 1;
        let t = &tables[i];
        assert(models[i as int] == t@);
        let l = t.arms.len();
        if l == 0 {
            return Err(Fault::Tree);
        }
        if t.agent >= joint.len() {
            return Err(Fault::AgentRange);
        }
        let action = t.arms[rem % l].action;
        rem = rem / l;
        joint.set(t.agent, action);
    }
    Ok(joint)
}

/// The rewards that a link keeps: its mover's in a two-agent tree, everyone's otherwise.
pub open spec fn link_rewards<N: Scalar, W: Reward<N>>(
    reward: W,
    events: Seq<Option<W::Event>>,
    mode: TreeMode,
    mover: usize,
    n: usize,
) -> Result<Seq<N>, Fault> {
    if mode == TreeMode::SeqNegamax {
        match spec_scored(reward, events, mover) {
            Ok(r) => Ok(seq![r]),
            Err(f) => Err(f),
        }
    } else {
        spec_score_all(reward, events, n)
    }
}

fn edge_rewards<N: Scalar, W: Reward<N>>(
    reward: &W,
    events: &[Option<W::Event>],
    mode: TreeMode,
    mover: usize,
    n: usize,
) -> (r: Result<Vec<N>, Fault>)
    ensures
        viewed(r) == link_rewards(*reward, events@, mode, mover, n),
{
    if matches!(mode, TreeMode::SeqNegamax) {
        match scored(reward, events, mover) {
            Ok(one) => {
                let mut r: Vec<N> = Vec::new();
                r.push(one);
                assert(r@ =~= seq![one]);
                Ok(r)
            },
            Err(f) => Err(f),
        }
    } else {
        score_all(reward, events, n)
    }
}

/// The tree with link `js` of node `ni` taken for the first time, and what that added.
pub open spec fn spec_expand<
    N: Scalar,
    G: Game<N>,
    E: StateEncoder<State = G::State>,
    W: Reward<N, Event = G::Event>,
>(
    ctx: Ctx<N, G, E, W>,
    m: TreeModel<G::State, E::Feature, N>,
    ni: int,
    js: usize,
) -> Result<(Expanded, TreeModel<G::State, E::Feature, N>), Fault> {
    let node = m.arena[ni];
    if js >= node.links.len() || node.depth == i32::MAX {
        Err(Fault::Tree)
    } else {
        match link_move(
            node.tables,
            node.tables.len(),
            js as nat,
            spec_filled(0usize, ctx.game.spec_num_agents() as nat),
        ) {
            Err(f) => Err(f),
            Ok(joint) => {
                let t = ctx.game.spec_step(node.state, joint);
                match link_rewards(*ctx.reward, t.events, m.mode, node.actor, m.n_agents) {
                    Err(f) => Err(f),
                    Ok(rewards) => {
                        let (child, rng) = child_node(
                            *ctx.game,
                            *ctx.enc,
                            m.mode,
                            t.next_state,
                            node.actor,
                            node.depth,
                            t.terminal,
                            ctx.chance,
                            m.rng,
                        );
                        match child {
                            Err(f) => Err(f),
                            Ok(child) => {
                                let idx = m.arena.len() as usize;
                                let linked = NodeModel {
                                    links: node.links.update(
                                        js as int,
                                        LinkModel { child: Some(idx), rewards },
                                    ),
                                    ..node
                                };
                                let next = TreeModel {
                                    arena: m.arena.update(ni, linked).push(child),
                                    rng,
                                    ..m
                                };
                                if child.kind is Chance {
                                    if ctx.chance == ChanceMode::ExpandAll {
                                        match fanned(ctx, next, idx as int) {
                                            Err(f) => Err(f),
                                            Ok(done) => Ok((Expanded::Fan(idx), done)),
                                        }
                                    } else {
                                        Ok((Expanded::Chance(idx), next))
                                    }
                                } else {
                                    Ok((Expanded::Leaf(idx), next))
                                }
                            },
                        }
                    },
                }
            },
        }
    }
}

/// The index of what was added.
pub open spec fn added_index(e: Expanded) -> usize {
    match e {
        Expanded::Leaf(i) => i,
        Expanded::Chance(i) => i,
        Expanded::Fan(i) => i,
    }
}

fn expand<
    N: Scalar,
    G: Game<N>,
    E: StateEncoder<State = G::State>,
    W: Reward<N, Event = G::Event>,
>(
    t: &mut Tree<G::State, E::Feature, N>,
    ctx: &Ctx<N, G, E, W>,
    ni: usize,
    js: usize,
) -> (r: Result<Expanded, Fault>)
    requires
        ni < old(t)@.arena.len(),
    ensures
        match r {
            Ok(e) => spec_expand(*ctx, old(t)@, ni as int, js) == Ok::<_, Fault>((e, final(t)@))
                && added_index(e) == old(t)@.arena.len() && added_index(e) < final(t)@.arena.len()
                && same_counts(old(t)@, final(t)@),
            Err(f) => spec_expand(*ctx, old(t)@, ni as int, js) == Err::<
                (Expanded, TreeModel<G::State, E::Feature, N>),
                _,
            >(f),
        },
{
    let ghost node = t@.arena[ni as int];
    assert(node == t.arena@[ni as int]@);
    let mode = t.mode;
    let n_agents = t.n_agents;
    let mover = t.arena[ni].actor;
    let depth = t.arena[ni].depth;
    if js >= t.arena[ni].links.len() || depth == i32::MAX {
        return Err(Fault::Tree);
    }
    let joint = match edge_joint(&t.arena[ni].tables, js, ctx.game.num_agents()) {
        Ok(joint) => joint,
        Err(f) => return Err(f),
    };
    let next = ctx.game.step(&t.arena[ni].state, &joint);
    let rewards = match edge_rewards(ctx.reward, &next.events, mode, mover, n_agents) {
        Ok(rewards) => rewards,
        Err(f) => return Err(f),
    };
    let child = match new_child(
        ctx.game,
        ctx.enc,
        mode,
        next.next_state,
        mover,
        depth,
        next.terminal,
        ctx.chance,
        &mut t.rng,
    ) {
        Ok(child) => child,
        Err(f) => return Err(f),
    };
    let is_chance = matches!(&child.kind, Kind::Chance(_));
    let idx = t.arena.len();
    let ghost held = t@;
    let ghost shown_rewards = rewards@;
    t.arena[ni].links[js].child = Some(idx);
    t.arena[ni].links[js].rewards = rewards;
    let ghost linked = NodeModel {
        links: node.links.update(
            js as int,
            LinkModel { child: Some(idx), rewards: shown_rewards },
        ),
        ..node
    };
    assert(t.arena@[ni as int]@ =~= linked) by {
        assert(t.arena@[ni as int]@.links =~= linked.links);
    }
    assert(t@.arena =~= held.arena.update(ni as int, linked));
    let ghost before = t@.arena;
    let ghost model = child@;
    t.arena.push(child);
    assert(t@.arena =~= before.push(model));
    if is_chance {
        if matches!(ctx.chance, ChanceMode::ExpandAll) {
            match materialize_explicit_fan(t, ctx, idx) {
                Ok(_) => Ok(Expanded::Fan(idx)),
                Err(f) => Err(f),
            }
        } else {
            Ok(Expanded::Chance(idx))
        }
    } else {
        Ok(Expanded::Leaf(idx))
    }
}

/// Whether a node's priors are set.
pub open spec fn evaluated<S, F, N>(node: NodeModel<S, F, N>) -> bool {
    node.tables.len() > 0 && node.tables[0].evaluated
}

/// A tree whose simulation ends at `leaf`.
pub open spec fn ended<S, F, N>(m: TreeModel<S, F, N>, leaf: usize) -> TreeModel<S, F, N> {
    TreeModel { leaf, ..m }
}

/// How a simulation that ends at a fresh node ends.
pub open spec fn end_at<S, F, N>(m: TreeModel<S, F, N>, leaf: usize) -> Reached {
    if m.arena[leaf as int].terminal {
        Reached::Terminal
    } else {
        Reached::Eval
    }
}

/// A tree with one more choice on its path.
pub open spec fn stepped<S, F, N>(m: TreeModel<S, F, N>, ni: usize, slot: usize) -> TreeModel<
    S,
    F,
    N,
> {
    TreeModel { path: m.path.push((ni, slot)), ..m }
}

/// Where a simulation that stands at `ni` ends, and the tree then. `hops` chance nodes lie right
/// behind it; the tree had `len` nodes when the simulation began.
pub open spec fn descended<
    N: Scalar,
    G: Game<N>,
    E: StateEncoder<State = G::State>,
    W: Reward<N, Event = G::Event>,
>(
    ctx: Ctx<N, G, E, W>,
    m: TreeModel<G::State, E::Feature, N>,
    ni: usize,
    hops: nat,
    len: nat,
) -> Result<(Reached, TreeModel<G::State, E::Feature, N>), Fault>
    decreases
            (if ni < len {
                len - ni
            } else {
                0
            }),
            CHANCE_CHAIN_LIMIT + 1 - hops,
{
    if ni >= m.arena.len() {
        Err(Fault::Tree)
    } else {
        let node = m.arena[ni as int];
        match node.kind {
            KindModel::Chance(spot) => {
                if hops >= CHANCE_CHAIN_LIMIT {
                    Err(Fault::ChainLimit)
                } else {
                    let (drawn, rng) = slot_drawn(spot, ctx.chance, m.rng);
                    match drawn {
                        Err(f) => Err(f),
                        Ok(slot) => {
                            let next = stepped(TreeModel { rng, ..m }, ni, slot);
                            match chance_child(node, slot) {
                                Err(f) => Err(f),
                                Ok(Some(c)) => if ni < c {
                                    descended(ctx, next, c, hops + 1, len)
                                } else {
                                    Err(Fault::Tree)
                                },
                                Ok(None) => match materialized(ctx, next, ni as int, slot) {
                                    Err(f) => Err(f),
                                    Ok((c, grown)) => if grown.arena[c as int].kind is Chance {
                                        if ni < c {
                                            descended(ctx, grown, c, hops + 1, len)
                                        } else {
                                            Err(Fault::Tree)
                                        }
                                    } else {
                                        Ok((end_at(grown, c), ended(grown, c)))
                                    },
                                },
                            }
                        },
                    }
                }
            },
            _ => {
                let seen = TreeModel {
                    max_depth_seen: if m.max_depth_seen < node.depth {
                        node.depth
                    } else {
                        m.max_depth_seen
                    },
                    ..m
                };
                if ni >= len {
                    Err(Fault::Tree)
                } else if node.terminal {
                    Ok((Reached::Terminal, ended(seen, ni)))
                } else if ctx.guidance is Puct && !evaluated(node) {
                    Ok((Reached::Eval, ended(seen, ni)))
                } else if node.depth >= ctx.max_depth {
                    Ok((Reached::DepthCapped, ended(seen, ni)))
                } else {
                    match joint_choice(node.tables, ctx.guidance, ctx.logs@, 0, 0) {
                        Err(f) => Err(f),
                        Ok(js) => {
                            let next = stepped(seen, ni, js as usize);
                            if js >= node.links.len() {
                                Err(Fault::Tree)
                            } else {
                                match node.links[js as int].child {
                                    Some(c) => if ni < c {
                                        descended(ctx, next, c, 0, len)
                                    } else {
                                        Err(Fault::Tree)
                                    },
                                    None => match spec_expand(ctx, next, ni as int, js as usize) {
                                        Err(f) => Err(f),
                                        Ok((Expanded::Leaf(c), grown)) => Ok(
                                            (end_at(grown, c), ended(grown, c)),
                                        ),
                                        Ok((Expanded::Fan(c), grown)) => Ok(
                                            (Reached::Fan, ended(grown, c)),
                                        ),
                                        Ok((Expanded::Chance(c), grown)) => if ni < c {
                                            descended(ctx, grown, c, 0, len)
                                        } else {
                                            Err(Fault::Tree)
                                        },
                                    },
                                }
                            }
                        },
                    }
                }
            },
        }
    }
}

/// Where the next simulation ends, and the tree then.
pub open spec fn spec_select_expand<
    N: Scalar,
    G: Game<N>,
    E: StateEncoder<State = G::State>,
    W: Reward<N, Event = G::Event>,
>(
    ctx: Ctx<N, G, E, W>,
    m: TreeModel<G::State, E::Feature, N>,
) -> Result<(Reached, TreeModel<G::State, E::Feature, N>), Fault> {
    descended(ctx, TreeModel { path: Seq::empty(), ..m }, 0, 0, m.arena.len())
}

/// Runs a simulation down to a node that has to be evaluated, or that ends it.
#[verifier::loop_isolation(false)]
#[verifier::rlimit(40)]
pub fn select_expand<
    N: Scalar,
    G: Game<N>,
    E: StateEncoder<State = G::State>,
    W: Reward<N, Event = G::Event>,
>(
    t: &mut Tree<G::State, E::Feature, N>,
    ctx: &Ctx<N, G, E, W>,
) -> (r: Result<Reached, Fault>)
    ensures
        match r {
            Ok(reached) => spec_select_expand(*ctx, old(t)@) == Ok::<_, Fault>((reached, final(t)@))
                && final(t)@.leaf < final(t)@.arena.len() && same_counts(old(t)@, final(t)@),
            Err(f) => spec_select_expand(*ctx, old(t)@) == Err::<
                (Reached, TreeModel<G::State, E::Feature, N>),
                _,
            >(f),
        },
{
    let len = t.arena.len();
    let ghost goal = spec_select_expand(*ctx, old(t)@);
    t.path = Vec::new();
    assert(t@.path =~= Seq::empty());
    let mut ni: usize = 0;
    let mut hops: usize = 0;
    loop
        invariant
            hops <= CHANCE_CHAIN_LIMIT,
            same_counts(old(t)@, t@),
            descended(*ctx, t@, ni, hops as nat, len as nat) == goal,
        decreases
            (if ni < len {
                len - ni
            } else {
                0
            }),
            CHANCE_CHAIN_LIMIT + 1 - hops,
    {
        if ni >= t.arena.len() {
            return Err(Fault::Tree);
        }
        assert(t@.arena[ni as int] == t.arena@[ni as int]@);
        let ghost node = t@.arena[ni as int];
        if matches!(&t.arena[ni].kind, Kind::Chance(_)) {
            if hops >= CHANCE_CHAIN_LIMIT {
                return Err(Fault::ChainLimit);
            }
            let slot = match pick_chance_slot(t, ni, ctx.chance) {
                Ok(slot) => slot,
                Err(f) => return Err(f),
            };
            assert(t@.arena[ni as int] == t.arena@[ni as int]@);
            let found = find_chance_child(&t.arena[ni], slot);
            t.path.push((ni, slot));
            match found {
                Err(f) => return Err(f),
                Ok(Some(c)) => {
                    if ni >= c {
                        return Err(Fault::Tree);
                    }
                    ni = c;
                    hops = hops + 1;
                },
                Ok(None) => {
                    let c = match materialize_outcome(t, ctx, ni, slot) {
                        Ok(c) => c,
                        Err(f) => return Err(f),
                    };
                    assert(t@.arena[c as int] == t.arena@[c as int]@);
                    if matches!(&t.arena[c].kind, Kind::Chance(_)) {
                        ni = c;
                        hops = hops + 1;
                    } else {
                        t.leaf = c;
                        return Ok(
                            if t.arena[c].terminal {
                                Reached::Terminal
                            } else {
                                Reached::Eval
                            },
                        );
                    }
                },
            }
        } else {
            if t.max_depth_seen < t.arena[ni].depth {
                t.max_depth_seen = t.arena[ni].depth;
            }
            if ni >= len {
                return Err(Fault::Tree);
            }
            if t.arena[ni].terminal {
                t.leaf = ni;
                return Ok(Reached::Terminal);
            }
            let settled = t.arena[ni].tables.len() > 0 && t.arena[ni].tables[0].evaluated;
            assert(settled == evaluated(node)) by {
                if node.tables.len() > 0 {
                    assert(node.tables[0] == t.arena@[ni as int].tables@[0]@);
                }
            }
            if matches!(ctx.guidance, Guidance::Puct { .. }) && !settled {
                t.leaf = ni;
                return Ok(Reached::Eval);
            }
            if t.arena[ni].depth >= ctx.max_depth {
                t.leaf = ni;
                return Ok(Reached::DepthCapped);
            }
            let js = match choose_link(&t.arena[ni].tables, &ctx.guidance, ctx.logs) {
                Ok(js) => js,
                Err(f) => return Err(f),
            };
            t.path.push((ni, js));
            if js >= t.arena[ni].links.len() {
                return Err(Fault::Tree);
            }
            assert(node.links[js as int] == t.arena@[ni as int].links@[js as int]@);
            match t.arena[ni].links[js].child {
                Some(c) => {
                    if ni >= c {
                        return Err(Fault::Tree);
                    }
                    ni = c;
                    hops = 0;
                },
                None => {
                    match expand(t, ctx, ni, js) {
                        Err(f) => return Err(f),
                        Ok(Expanded::Leaf(c)) => {
                            assert(t@.arena[c as int] == t.arena@[c as int]@);
                            t.leaf = c;
                            return Ok(
                                if t.arena[c].terminal {
                                    Reached::Terminal
                                } else {
                                    Reached::Eval
                                },
                            );
                        },
                        Ok(Expanded::Fan(c)) => {
                            t.leaf = c;
                            return Ok(Reached::Fan);
                        },
                        Ok(Expanded::Chance(c)) => {
                            ni = c;
                            hops = 0;
                        },
                    }
                },
            }
        }
    }
}

} // verus!
