//! Nodes as they enter the tree.

use std::collections::HashMap;

use vstd::prelude::*;

use super::tree::{Arm, ChanceSpot, Kind, Link, Node, Table, TreeMode};
#[allow(unused_imports)]
use super::tree::{
    link_models, row_models, table_models, ChanceSpotModel, KindModel, LinkModel, NodeModel,
    TableModel,
};
use crate::encoder::StateEncoder;
use crate::fault::Fault;
use crate::game::{Actor, ChanceDist, Game, Rng};
#[allow(unused_imports)]
use crate::game::ChanceModel;
use crate::num::Scalar;
use crate::policy::{ChanceMode, MAX_ENUMERATED_OUTCOMES, MAX_JOINT_SLOTS};
use crate::util::filled;
#[allow(unused_imports)]
use crate::util::spec_filled;

verus! {

/// An arm that has not been taken.
pub open spec fn fresh_arm<N: Scalar>(action: usize) -> Arm<N> {
    Arm { action, visits: 0, value_sum: N::spec_zero(), prior: N::spec_zero() }
}

/// A table of arms that have not been taken.
pub open spec fn fresh_table<N: Scalar>(agent: usize, legal: Seq<usize>) -> TableModel<N> {
    TableModel {
        agent,
        arms: legal.map_values(|a: usize| fresh_arm::<N>(a)),
        total_visits: 0,
        evaluated: false,
    }
}

fn new_table<N: Scalar>(agent: usize, legal: &[usize]) -> (r: Table<N>)
    ensures
        r@ == fresh_table::<N>(agent, legal@),
{
    let mut arms: Vec<Arm<N>> = Vec::new();
    let mut i: usize = 0;
    while i < legal.len()
        invariant
            i <= legal@.len(),
            arms@.len() == i,
            forall|k: int| 0 <= k < i ==> #[trigger] arms@[k] == fresh_arm::<N>(legal@[k]),
        decreases legal.len() - i,
    {
        arms.push(
            Arm { action: legal[i], visits: 0, value_sum: N::zero(), prior: N::zero() },
        );
        i = i + 1;
    }
    assert(arms@ =~= fresh_table::<N>(agent, legal@).arms);
    Table { agent, arms, total_visits: 0, evaluated: false }
}

/// Links that have not been taken.
pub open spec fn fresh_links<N>(n: nat) -> Seq<LinkModel<N>> {
    Seq::new(n, |i: int| LinkModel { child: None, rewards: Seq::empty() })
}

pub(crate) fn new_links<N>(n: usize) -> (r: Vec<Link<N>>)
    ensures
        link_models(r@) == fresh_links::<N>(n as nat),
{
    let mut r: Vec<Link<N>> = Vec::new();
    let mut i: usize = 0;
    while i < n
        invariant
            i <= n,
            r@.len() == i,
            forall|k: int|
                0 <= k < i ==> (#[trigger] r@[k])@ == (LinkModel::<N> {
                    child: None,
                    rewards: Seq::empty(),
                }),
        decreases n - i,
    {
        r.push(Link { child: None, rewards: Vec::new() });
        i = i + 1;
    }
    assert(link_models(r@) =~= fresh_links::<N>(n as nat));
    r
}

/// Everyone's row.
pub open spec fn all_rows<E: StateEncoder>(enc: E, state: E::State, n: nat) -> Seq<
    (usize, Seq<E::Feature>),
> {
    Seq::new(n, |ag: int| (ag as usize, enc.spec_encode(state, ag as usize)))
}

fn encode_all<E: StateEncoder>(enc: &E, state: &E::State, n: usize) -> (r: Vec<
    (usize, Vec<E::Feature>),
>)
    ensures
        row_models(r@) == all_rows(*enc, *state, n as nat),
{
    let mut r: Vec<(usize, Vec<E::Feature>)> = Vec::new();
    let mut ag: usize = 0;
    while ag < n
        invariant
            ag <= n,
            r@.len() == ag,
            forall|k: int|
                0 <= k < ag ==> (#[trigger] r@[k]).0 == k && r@[k].1@ == enc.spec_encode(
                    *state,
                    k as usize,
                ),
        decreases n - ag,
    {
        let row = enc.encode(state, ag);
        r.push((ag, row));
        ag = ag + 1;
    }
    assert(row_models(r@) =~= all_rows(*enc, *state, n as nat));
    r
}

/// The end of the game: nothing to choose, nothing to evaluate.
pub open spec fn terminal_node<S, F, N: Scalar>(state: S, mover: usize, depth: i32) -> NodeModel<
    S,
    F,
    N,
> {
    NodeModel {
        state,
        actor: mover,
        depth,
        terminal: true,
        kind: KindModel::Decision,
        tables: Seq::empty(),
        links: Seq::empty(),
        values: Seq::empty(),
        rows: Seq::empty(),
        chance_in: Seq::empty(),
    }
}

fn new_terminal<S, F, N: Scalar>(state: S, mover: usize, depth: i32) -> (r: Node<S, F, N>)
    ensures
        r@ == terminal_node::<S, F, N>(state, mover, depth),
{
    let r = Node {
        state,
        actor: mover,
        depth,
        terminal: true,
        kind: Kind::Decision,
        tables: Vec::new(),
        links: Vec::new(),
        values: Vec::new(),
        rows: Vec::new(),
        chance_in: Vec::new(),
    };
    assert(r@ =~= terminal_node::<S, F, N>(state, mover, depth));
    r
}

/// A sequential decision of `actor`: its mover's value and row in a two-agent tree, everyone's
/// otherwise.
pub open spec fn decision_node<N: Scalar, G: Game<N>, E: StateEncoder<State = G::State>>(
    game: G,
    enc: E,
    state: G::State,
    actor: usize,
    depth: i32,
    mode: TreeMode,
) -> NodeModel<G::State, E::Feature, N> {
    let legal = game.spec_legal_actions(state, actor);
    let n = game.spec_num_agents() as nat;
    NodeModel {
        state,
        actor,
        depth,
        terminal: false,
        kind: KindModel::Decision,
        tables: seq![fresh_table(actor, legal)],
        links: fresh_links(legal.len()),
        values: if mode == TreeMode::SeqMaxN {
            spec_filled(N::spec_zero(), n)
        } else {
            seq![N::spec_zero()]
        },
        rows: if mode == TreeMode::SeqMaxN {
            all_rows(enc, state, n)
        } else {
            seq![(actor, enc.spec_encode(state, actor))]
        },
        chance_in: Seq::empty(),
    }
}

pub(crate) fn new_decision<N: Scalar, G: Game<N>, E: StateEncoder<State = G::State>>(
    game: &G,
    enc: &E,
    state: G::State,
    actor: usize,
    depth: i32,
    mode: TreeMode,
) -> (r: Node<G::State, E::Feature, N>)
    ensures
        r@ == decision_node(*game, *enc, state, actor, depth, mode),
{
    let legal = game.legal_actions(&state, actor);
    let n = game.num_agents();
    let ghost goal = decision_node(*game, *enc, state, actor, depth, mode);
    let mut tables: Vec<Table<N>> = Vec::new();
    tables.push(new_table(actor, &legal));
    assert(table_models(tables@) =~= seq![fresh_table::<N>(actor, legal@)]);
    let links = new_links(legal.len());
    let (values, rows) = if matches!(mode, TreeMode::SeqMaxN) {
        (filled(N::zero(), n), encode_all(enc, &state, n))
    } else {
        let mut values: Vec<N> = Vec::new();
        values.push(N::zero());
        assert(values@ =~= seq![N::spec_zero()]);
        let mut rows: Vec<(usize, Vec<E::Feature>)> = Vec::new();
        let row = enc.encode(&state, actor);
        rows.push((actor, row));
        assert(row_models(rows@) =~= seq![(actor, enc.spec_encode(state, actor))]);
        (values, rows)
    };
    let r = Node {
        state,
        actor,
        depth,
        terminal: false,
        kind: Kind::Decision,
        tables,
        links,
        values,
        rows,
        chance_in: Vec::new(),
    };
    assert(r@ =~= goal);
    r
}

/// What an agent can choose at a simultaneous decision. One without a legal action keeps a single
/// placeholder, which the game ignores.
pub open spec fn sim_legal<N: Scalar, G: Game<N>>(game: G, state: G::State, agent: usize) -> Seq<
    usize,
> {
    let legal = game.spec_legal_actions(state, agent);
    if legal.len() == 0 {
        seq![0usize]
    } else {
        legal
    }
}

/// Every agent's table at a simultaneous decision.
pub open spec fn sim_tables<N: Scalar, G: Game<N>>(game: G, state: G::State, n: nat) -> Seq<
    TableModel<N>,
> {
    Seq::new(n, |ag: int| fresh_table(ag as usize, sim_legal(game, state, ag as usize)))
}

/// How many joint choices the tables from the `i`-th on leave, `acc` being those before; nothing
/// where they outgrow the bound.
pub open spec fn joint_width<N>(tables: Seq<TableModel<N>>, i: nat, acc: nat) -> Option<nat>
    decreases tables.len() - i,
{
    if i >= tables.len() {
        Some(acc)
    } else if acc * tables[i as int].arms.len() > MAX_JOINT_SLOTS {
        None
    } else {
        joint_width(tables, i + 1, acc * tables[i as int].arms.len())
    }
}

/// A simultaneous decision.
pub open spec fn sim_node<N: Scalar, G: Game<N>, E: StateEncoder<State = G::State>>(
    game: G,
    enc: E,
    state: G::State,
    depth: i32,
) -> Result<NodeModel<G::State, E::Feature, N>, Fault> {
    let n = game.spec_num_agents() as nat;
    let tables = sim_tables::<N, G>(game, state, n);
    match joint_width(tables, 0, 1) {
        None => Err(Fault::JointLimit),
        Some(width) => Ok(
            NodeModel {
                state,
                actor: 0,
                depth,
                terminal: false,
                kind: KindModel::Simultaneous,
                tables,
                links: fresh_links(width),
                values: spec_filled(N::spec_zero(), n),
                rows: all_rows(enc, state, n),
                chance_in: Seq::empty(),
            },
        ),
    }
}

#[verifier::loop_isolation(false)]
pub(crate) fn new_simultaneous<N: Scalar, G: Game<N>, E: StateEncoder<State = G::State>>(
    game: &G,
    enc: &E,
    state: G::State,
    depth: i32,
) -> (r: Result<Node<G::State, E::Feature, N>, Fault>)
    ensures
        crate::util::viewed(r) == sim_node(*game, *enc, state, depth),
{
    let n = game.num_agents();
    let ghost models = sim_tables::<N, G>(*game, state, n as nat);
    let mut tables: Vec<Table<N>> = Vec::new();
    let mut width: usize = 1;
    let mut ag: usize = 0;
    while ag < n
        invariant
            ag <= n,
            tables@.len() == ag,
            forall|k: int| 0 <= k < ag ==> (#[trigger] tables@[k])@ == models[k],
            1 <= width <= MAX_JOINT_SLOTS,
            joint_width(models, ag as nat, width as nat) == joint_width(models, 0, 1),
        decreases n - ag,
    {
        let mut legal = game.legal_actions(&state, ag);
        if legal.len() == 0 {
            legal.push(0);
            assert(legal@ =~= seq![0usize]);
        }
        assert(legal@ == sim_legal(*game, state, ag));
        let table = new_table::<N>(ag, &legal);
        let l = legal.len();
        assert(models[ag as int] == table@);
        assert(table@.arms.len() == l);
        if l > MAX_JOINT_SLOTS / width {
            proof {
                assert(width * l > MAX_JOINT_SLOTS) by (nonlinear_arith)
                    requires
                        l >= MAX_JOINT_SLOTS as int / width as int + 1,
                        width >= 1,
                ;
            }
            return Err(Fault::JointLimit);
        }
        proof {
            assert(1 <= width * l <= MAX_JOINT_SLOTS) by (nonlinear_arith)
                requires
                    1 <= l <= MAX_JOINT_SLOTS as int / width as int,
                    width >= 1,
            ;
        }
        width = width * l;
        tables.push(table);
        ag = ag + 1;
    }
    assert(table_models(tables@) =~= models);
    let links = new_links(width);
    let rows = encode_all(enc, &state, n);
    let r = Node {
        state,
        actor: 0,
        depth,
        terminal: false,
        kind: Kind::Simultaneous,
        tables,
        links,
        values: filled(N::zero(), n),
        rows,
        chance_in: Vec::new(),
    };
    assert(r@ =~= sim_node(*game, *enc, state, depth)->Ok_0);
    Ok(r)
}

/// `list` with draws from the `j`-th of `k` on.
pub open spec fn commitments<N: Scalar, R: Rng<N>>(
    dist: ChanceModel<N>,
    k: nat,
    j: nat,
    list: Seq<usize>,
    rng: R,
) -> (Result<Seq<usize>, Fault>, R)
    decreases k - j,
{
    if j >= k {
        (Ok(list), rng)
    } else {
        let (drawn, after) = dist.drawn(rng);
        match drawn {
            Err(f) => (Err(f), after),
            Ok(outcome) => commitments(dist, k, j + 1, list.push(outcome), after),
        }
    }
}

#[verifier::loop_isolation(false)]
fn commit<N: Scalar, R: Rng<N>>(dist: &ChanceDist<N>, k: usize, rng: &mut R) -> (r: Result<
    Vec<usize>,
    Fault,
>)
    ensures
        (crate::util::viewed(r), *final(rng)) == commitments(
            dist@,
            k as nat,
            0,
            Seq::empty(),
            *old(rng),
        ),
{
    let mut list: Vec<usize> = Vec::new();
    let mut j: usize = 0;
    assert(list@ =~= Seq::empty());
    while j < k
        invariant
            j <= k,
            commitments(dist@, k as nat, j as nat, list@, *rng) == commitments(
                dist@,
                k as nat,
                0,
                Seq::empty(),
                *old(rng),
            ),
        decreases k - j,
    {
        match dist.draw(rng) {
            Ok(outcome) => list.push(outcome),
            Err(f) => return Err(f),
        }
        j = j + 1;
    }
    Ok(list)
}

/// A chance state on the way from a decision at `depth`, with its outcomes frozen, listed or left
/// open as `chance` says; and the generator after it.
pub open spec fn chance_node<S, F, N: Scalar, R: Rng<N>>(
    dist: ChanceModel<N>,
    state: S,
    mover: usize,
    depth: i32,
    chance: ChanceMode,
    rng: R,
) -> (Result<NodeModel<S, F, N>, Fault>, R) {
    let (committed, after) = match chance {
        ChanceMode::Committed { samples } => commitments(
            dist,
            if samples == 0 {
                1
            } else {
                samples as nat
            },
            0,
            Seq::empty(),
            rng,
        ),
        _ => (Ok(Seq::empty()), rng),
    };
    match committed {
        Err(f) => (Err(f), after),
        Ok(committed) => {
            let width = match chance {
                ChanceMode::Committed { .. } => committed.len(),
                ChanceMode::ExpandAll => dist.count(),
                ChanceMode::AlwaysResample => 0,
            };
            if chance == ChanceMode::ExpandAll && width > MAX_ENUMERATED_OUTCOMES {
                (Err(Fault::FanLimit), after)
            } else {
                (
                    Ok(
                        NodeModel {
                            state,
                            actor: mover,
                            depth,
                            terminal: false,
                            kind: KindModel::Chance(
                                ChanceSpotModel {
                                    dist,
                                    committed,
                                    resampled: Map::empty(),
                                    fan_weights: Seq::empty(),
                                },
                            ),
                            tables: Seq::empty(),
                            links: fresh_links(width),
                            values: Seq::empty(),
                            rows: Seq::empty(),
                            chance_in: Seq::empty(),
                        },
                    ),
                    after,
                )
            }
        },
    }
}

fn new_chance<S, F, N: Scalar, R: Rng<N>>(
    dist: ChanceDist<N>,
    state: S,
    mover: usize,
    depth: i32,
    chance: ChanceMode,
    rng: &mut R,
) -> (r: Result<Node<S, F, N>, Fault>)
    ensures
        (crate::util::viewed(r), *final(rng)) == chance_node::<S, F, N, R>(
            dist@,
            state,
            mover,
            depth,
            chance,
            *old(rng),
        ),
{
    let mut committed: Vec<usize> = Vec::new();
    assert(committed@ =~= Seq::empty());
    let width = match chance {
        ChanceMode::Committed { samples } => {
            let k: usize = if samples == 0 {
                1
            } else {
                samples
            };
            committed =
            match commit(&dist, k, rng) {
                Ok(list) => list,
                Err(f) => return Err(f),
            };
            committed.len()
        },
        ChanceMode::ExpandAll => {
            let count = dist.count();
            if count > MAX_ENUMERATED_OUTCOMES {
                return Err(Fault::FanLimit);
            }
            count
        },
        ChanceMode::AlwaysResample => 0,
    };
    let ghost goal = chance_node::<S, F, N, R>(dist@, state, mover, depth, chance, *old(rng));
    let resampled: HashMap<usize, usize> = HashMap::new();
    let spot = ChanceSpot { dist, committed, resampled, fan_weights: Vec::new() };
    let r = Node {
        state,
        actor: mover,
        depth,
        terminal: false,
        kind: Kind::Chance(spot),
        tables: Vec::new(),
        links: new_links(width),
        values: Vec::new(),
        rows: Vec::new(),
        chance_in: Vec::new(),
    };
    assert(r@ =~= goal.0->Ok_0);
    Ok(r)
}

/// The node for `state`, one edge below a node at `depth` of which `mover` was the actor; and the
/// generator after it.
pub open spec fn child_node<
    N: Scalar,
    G: Game<N>,
    E: StateEncoder<State = G::State>,
    R: Rng<N>,
>(
    game: G,
    enc: E,
    mode: TreeMode,
    state: G::State,
    mover: usize,
    depth: i32,
    terminal: bool,
    chance: ChanceMode,
    rng: R,
) -> (Result<NodeModel<G::State, E::Feature, N>, Fault>, R) {
    let below = (depth + 1) as i32;
    if terminal {
        (Ok(terminal_node(state, mover, below)), rng)
    } else {
        match game.spec_actor(state) {
            Actor::Agent(actor) => if mode == TreeMode::Sim {
                (Err(Fault::MixedDynamics), rng)
            } else {
                (Ok(decision_node(game, enc, state, actor, below, mode)), rng)
            },
            Actor::Simultaneous => if mode != TreeMode::Sim {
                (Err(Fault::MixedDynamics), rng)
            } else {
                (sim_node(game, enc, state, below), rng)
            },
            Actor::Chance => chance_node(
                game.spec_chance_node(state),
                state,
                mover,
                depth,
                chance,
                rng,
            ),
        }
    }
}

pub(crate) fn new_child<
    N: Scalar,
    G: Game<N>,
    E: StateEncoder<State = G::State>,
    R: Rng<N>,
>(
    game: &G,
    enc: &E,
    mode: TreeMode,
    state: G::State,
    mover: usize,
    depth: i32,
    terminal: bool,
    chance: ChanceMode,
    rng: &mut R,
) -> (r: Result<Node<G::State, E::Feature, N>, Fault>)
    requires
        depth < i32::MAX,
    ensures
        (crate::util::viewed(r), *final(rng)) == child_node(
            *game,
            *enc,
            mode,
            state,
            mover,
            depth,
            terminal,
            chance,
            *old(rng),
        ),
{
    let below = depth + 1;
    if terminal {
        return Ok(new_terminal(state, mover, below));
    }
    match game.actor(&state) {
        Actor::Agent(actor) => {
            if matches!(mode, TreeMode::Sim) {
                return Err(Fault::MixedDynamics);
            }
            Ok(new_decision(game, enc, state, actor, below, mode))
        },
        Actor::Simultaneous => {
            if !matches!(mode, TreeMode::Sim) {
                return Err(Fault::MixedDynamics);
            }
            new_simultaneous(game, enc, state, below)
        },
        Actor::Chance => {
            let dist = game.chance_node(&state);
            new_chance(dist, state, mover, depth, chance, rng)
        },
    }
}

} // verus!
