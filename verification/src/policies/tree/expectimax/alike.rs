//! What an expansion depends on: of the encoder, on what it observes alone. Encoders that observe
//! alike and differ in their action views expand alike.

use vstd::prelude::*;

#[allow(unused_imports)]
use super::fan::{spec_chain_fan, spec_scored, Outcome};
#[allow(unused_imports)]
use super::frontier::{
    expanded, frontier_relation, least, spec_expand_round, spec_sort_frontier, spec_voi_scale,
};
#[allow(unused_imports)]
use super::tree::{
    beamed, branched, branchings, co_movers, combined, fresh_node, joined, joint_fan, joint_move,
    leaf_player, lone_move, moved, node_edges, simultaneous, spec_agent_branching, spec_expand_node,
    spec_push_branches, weighed, BranchModel, BranchWeight, Ctx, MoveWeightModel, Opponent,
    SearchModel, SearchStats,
};
#[allow(unused_imports)]
use crate::encoder::StateEncoder;
#[allow(unused_imports)]
use crate::game::{Actor, Game};
#[allow(unused_imports)]
use crate::num::Scalar;
#[allow(unused_imports)]
use crate::order::lemma_sorted_all;
#[allow(unused_imports)]
use crate::policy::MAX_ENUMERATED_OUTCOMES;
#[allow(unused_imports)]
use crate::reward::Reward;

verus! {

/// Contexts that differ at most in the action views of their encoders, whose observations are all
/// `d` long.
pub open spec fn alike<
    N: Scalar,
    G: Game<N>,
    E: StateEncoder<State = G::State>,
    O: StateEncoder<State = G::State, Feature = E::Feature>,
    W: Reward<N, Event = G::Event>,
>(c: Ctx<N, G, E, W>, o: Ctx<N, G, O, W>, d: nat) -> bool {
    &&& *o.game == *c.game
    &&& *o.reward == *c.reward
    &&& o.cfg == c.cfg
    &&& forall|state: G::State, agent: usize| #[trigger]
        c.enc.spec_encode(state, agent) == o.enc.spec_encode(state, agent)
    &&& forall|state: G::State, agent: usize| #[trigger]
        c.enc.spec_encode(state, agent).len() == d
}

/// The game offers these actions to an agent in some state.
pub open spec fn offer<N: Scalar, G: Game<N>>(game: G, agent: usize, legal: Seq<usize>) -> bool {
    exists|state: G::State| legal == #[trigger] game.spec_legal_actions(state, agent)
}

/// The co-movers of an open round are asked about what the game offers them.
pub open spec fn offered<N: Scalar, G: Game<N>, F>(
    game: G,
    m: SearchModel<G::State, F, N>,
) -> bool {
    forall|i: int|
        0 <= i < m.opp_legal.len() ==> offer(
            game,
            (#[trigger] m.opp_legal[i]).0,
            m.opp_legal[i].1,
        )
}

/// Every row that a search asks for is `d` long, and asks about what the game offers.
pub open spec fn sized<N: Scalar, G: Game<N>, F>(
    game: G,
    m: SearchModel<G::State, F, N>,
    d: nat,
) -> bool {
    &&& offered(game, m)
    &&& forall|i: int| 0 <= i < m.opp_obs.len() ==> (#[trigger] m.opp_obs[i]).len() == d
    &&& forall|i: int|
        0 <= i < m.new_leaves.len() ==> (#[trigger] m.new_leaves[i]) < m.arena.len()
            && m.arena[m.new_leaves[i] as int].obs.len() == d
}

proof fn lemma_branched<
    N: Scalar,
    G: Game<N>,
    E: StateEncoder<State = G::State>,
    O: StateEncoder<State = G::State, Feature = E::Feature>,
    W: Reward<N, Event = G::Event>,
>(
    c: Ctx<N, G, E, W>,
    o: Ctx<N, G, O, W>,
    d: nat,
    mw: MoveWeightModel<N>,
    out_terminal: bool,
    depth: i32,
    step_reward: N,
    outcomes: Seq<Outcome<G::State, N>>,
    i: nat,
    m: SearchModel<G::State, E::Feature, N>,
    branches: Seq<BranchModel<N>>,
)
    requires
        alike(c, o, d),
    ensures
        branched(
            c,
            mw,
            out_terminal,
            depth,
            step_reward,
            outcomes,
            i,
            m,
            branches,
        ) == branched(
            o,
            mw,
            out_terminal,
            depth,
            step_reward,
            outcomes,
            i,
            m,
            branches,
        ),
        branched(
            c,
            mw,
            out_terminal,
            depth,
            step_reward,
            outcomes,
            i,
            m,
            branches,
        ) matches Ok((next, _)) ==> m.arena.len() <= next.arena.len() && (sized(*c.game, m, d)
            ==> sized(*c.game, next, d)),
    decreases outcomes.len() - i,
{
    if i < outcomes.len() && m.arena.len() < MAX_ENUMERATED_OUTCOMES {
        let one = outcomes[i as int];
        let terminal = one.terminal || (out_terminal && c.game.spec_legal_actions(
            one.state,
            m.agent,
        ).len() == 0);
        let idx = m.arena.len() as usize;
        let below = (depth + 1) as i32;
        let player = leaf_player(*c.game, c.cfg, one.state, m.agent);
        let row = c.enc.spec_encode(one.state, player);
        assert(row == o.enc.spec_encode(one.state, player));
        assert(row.len() == d);
        let next = if terminal {
            SearchModel {
                arena: m.arena.push(fresh_node(one.state, Seq::empty(), below, true)),
                ..m
            }
        } else {
            SearchModel {
                arena: m.arena.push(fresh_node(one.state, row, below, false)),
                new_leaves: m.new_leaves.push(idx),
                ..m
            }
        };
        let mass = mw.fixed.spec_times(one.prob);
        let branch = BranchModel {
            weight: if mw.deferred.len() == 0 {
                mass
            } else {
                N::spec_zero()
            },
            deferred: mw.deferred,
            scale: if mw.deferred.len() == 0 {
                N::spec_one()
            } else {
                mass
            },
            reward: step_reward.spec_plus(one.reward),
            child: idx,
        };
        if sized(*c.game, m, d) {
            assert forall|k: int| 0 <= k < next.new_leaves.len() implies (
            #[trigger] next.new_leaves[k]) < next.arena.len()
                && next.arena[next.new_leaves[k] as int].obs.len() == d by {
                if k < m.new_leaves.len() {
                    assert(next.new_leaves[k] == m.new_leaves[k]);
                    assert(next.arena[m.new_leaves[k] as int] == m.arena[m.new_leaves[k] as int]);
                }
            }
            assert(sized(*c.game, next, d));
        }
        lemma_branched(
            c,
            o,
            d,
            mw,
            out_terminal,
            depth,
            step_reward,
            outcomes,
            i + 1,
            next,
            branches.push(branch),
        );
    }
}

proof fn lemma_push_branches<
    N: Scalar,
    G: Game<N>,
    E: StateEncoder<State = G::State>,
    O: StateEncoder<State = G::State, Feature = E::Feature>,
    W: Reward<N, Event = G::Event>,
>(
    c: Ctx<N, G, E, W>,
    o: Ctx<N, G, O, W>,
    d: nat,
    m: SearchModel<G::State, E::Feature, N>,
    state: G::State,
    joint: Seq<usize>,
    mw: MoveWeightModel<N>,
    out_terminal: bool,
    depth: i32,
    branches: Seq<BranchModel<N>>,
)
    requires
        alike(c, o, d),
    ensures
        spec_push_branches(
            c,
            m,
            state,
            joint,
            mw,
            out_terminal,
            depth,
            branches,
        ) == spec_push_branches(
            o,
            m,
            state,
            joint,
            mw,
            out_terminal,
            depth,
            branches,
        ),
        spec_push_branches(
            c,
            m,
            state,
            joint,
            mw,
            out_terminal,
            depth,
            branches,
        ) matches Ok((next, _)) ==> m.arena.len() <= next.arena.len() && (sized(*c.game, m, d)
            ==> sized(*c.game, next, d)),
{
    let t = c.game.spec_step(state, joint);
    if let Ok(step_reward) = spec_scored(*c.reward, t.events, m.agent) {
        let (outcomes, rng) = spec_chain_fan(
            *c.game,
            *c.reward,
            c.cfg.chance,
            m.agent,
            t.next_state,
            t.terminal,
            m.rng,
        );
        if let Ok(outcomes) = outcomes {
            let drawn = SearchModel { rng, ..m };
            assert(sized(*c.game, m, d) ==> sized(*c.game, drawn, d));
            lemma_branched(
                c,
                o,
                d,
                mw,
                out_terminal,
                depth,
                step_reward,
                outcomes,
                0,
                drawn,
                branches,
            );
        }
    }
}

proof fn lemma_agent_branching<
    N: Scalar,
    G: Game<N>,
    E: StateEncoder<State = G::State>,
    O: StateEncoder<State = G::State, Feature = E::Feature>,
    W: Reward<N, Event = G::Event>,
>(
    c: Ctx<N, G, E, W>,
    o: Ctx<N, G, O, W>,
    d: nat,
    m: SearchModel<G::State, E::Feature, N>,
    state: G::State,
    mover: usize,
)
    requires
        alike(c, o, d),
    ensures
        spec_agent_branching(
            c,
            m,
            state,
            mover,
        ) == spec_agent_branching(
            o,
            m,
            state,
            mover,
        ),
        spec_agent_branching(
            c,
            m,
            state,
            mover,
        ).1.arena == m.arena,
        sized(*c.game, m, d) ==> sized(*c.game, spec_agent_branching(
            c,
            m,
            state,
            mover,
        ).1, d),
{
    let row = c.enc.spec_encode(state, mover);
    assert(row == o.enc.spec_encode(state, mover));
    assert(row.len() == d);
    let next = spec_agent_branching(c, m, state, mover).1;
    if sized(*c.game, m, d) {
        assert forall|i: int| 0 <= i < next.opp_legal.len() implies offer(
            *c.game,
            (#[trigger] next.opp_legal[i]).0,
            next.opp_legal[i].1,
        ) by {
            if i < m.opp_legal.len() {
                assert(next.opp_legal[i] == m.opp_legal[i]);
            } else {
                assert(next.opp_legal[i].1 == c.game.spec_legal_actions(
                    state,
                    next.opp_legal[i].0,
                ));
            }
        }
    }
}

proof fn lemma_moved<
    N: Scalar,
    G: Game<N>,
    E: StateEncoder<State = G::State>,
    O: StateEncoder<State = G::State, Feature = E::Feature>,
    W: Reward<N, Event = G::Event>,
>(
    c: Ctx<N, G, E, W>,
    o: Ctx<N, G, O, W>,
    d: nat,
    state: G::State,
    mover: usize,
    legal: Seq<usize>,
    depth: i32,
    i: nat,
    m: SearchModel<G::State, E::Feature, N>,
    edges: Seq<Seq<BranchModel<N>>>,
)
    requires
        alike(c, o, d),
    ensures
        moved(
            c,
            state,
            mover,
            legal,
            depth,
            i,
            m,
            edges,
        ) == moved(
            o,
            state,
            mover,
            legal,
            depth,
            i,
            m,
            edges,
        ),
        moved(
            c,
            state,
            mover,
            legal,
            depth,
            i,
            m,
            edges,
        ) matches Ok((next, _)) ==> m.arena.len() <= next.arena.len() && (sized(*c.game, m, d)
            ==> sized(*c.game, next, d)),
    decreases legal.len() - i,
{
    if i < legal.len() {
        let joint = lone_move(c.game.spec_num_agents(), mover, legal[i as int]);
        let mw = MoveWeightModel { fixed: N::spec_one(), deferred: Seq::empty() };
        lemma_push_branches(c, o, d, m, state, joint, mw, false, depth, Seq::empty());
        if let Ok((next, branches)) = spec_push_branches(
            c,
            m,
            state,
            joint,
            mw,
            false,
            depth,
            Seq::empty(),
        ) {
            lemma_moved(c, o, d, state, mover, legal, depth, i + 1, next, edges.push(branches));
        }
    }
}

proof fn lemma_weighed<
    N: Scalar,
    G: Game<N>,
    E: StateEncoder<State = G::State>,
    O: StateEncoder<State = G::State, Feature = E::Feature>,
    W: Reward<N, Event = G::Event>,
>(
    c: Ctx<N, G, E, W>,
    o: Ctx<N, G, O, W>,
    d: nat,
    state: G::State,
    mover: usize,
    options: Seq<(usize, BranchWeight<N>)>,
    depth: i32,
    i: nat,
    m: SearchModel<G::State, E::Feature, N>,
    branches: Seq<BranchModel<N>>,
)
    requires
        alike(c, o, d),
    ensures
        weighed(
            c,
            state,
            mover,
            options,
            depth,
            i,
            m,
            branches,
        ) == weighed(
            o,
            state,
            mover,
            options,
            depth,
            i,
            m,
            branches,
        ),
        weighed(
            c,
            state,
            mover,
            options,
            depth,
            i,
            m,
            branches,
        ) matches Ok((next, _)) ==> m.arena.len() <= next.arena.len() && (sized(*c.game, m, d)
            ==> sized(*c.game, next, d)),
    decreases options.len() - i,
{
    if i < options.len() {
        let joint = lone_move(c.game.spec_num_agents(), mover, options[i as int].0);
        let mw = MoveWeightModel::lone(options[i as int].1);
        lemma_push_branches(c, o, d, m, state, joint, mw, false, depth, branches);
        if let Ok((next, more)) = spec_push_branches(
            c,
            m,
            state,
            joint,
            mw,
            false,
            depth,
            branches,
        ) {
            lemma_weighed(c, o, d, state, mover, options, depth, i + 1, next, more);
        }
    }
}

proof fn lemma_branchings<
    N: Scalar,
    G: Game<N>,
    E: StateEncoder<State = G::State>,
    O: StateEncoder<State = G::State, Feature = E::Feature>,
    W: Reward<N, Event = G::Event>,
>(
    c: Ctx<N, G, E, W>,
    o: Ctx<N, G, O, W>,
    d: nat,
    state: G::State,
    movers: Seq<usize>,
    i: nat,
    m: SearchModel<G::State, E::Feature, N>,
    options: Seq<Seq<(usize, BranchWeight<N>)>>,
)
    requires
        alike(c, o, d),
    ensures
        branchings(
            c,
            state,
            movers,
            i,
            m,
            options,
        ) == branchings(
            o,
            state,
            movers,
            i,
            m,
            options,
        ),
        branchings(
            c,
            state,
            movers,
            i,
            m,
            options,
        ).1.arena == m.arena,
        sized(*c.game, m, d) ==> sized(*c.game, branchings(
            c,
            state,
            movers,
            i,
            m,
            options,
        ).1, d),
    decreases movers.len() - i,
{
    if i < movers.len() {
        lemma_agent_branching(c, o, d, m, state, movers[i as int]);
        let (more, next) = spec_agent_branching(c, m, state, movers[i as int]);
        lemma_branchings(c, o, d, state, movers, i + 1, next, options.push(more));
    }
}

proof fn lemma_combined<
    N: Scalar,
    G: Game<N>,
    E: StateEncoder<State = G::State>,
    O: StateEncoder<State = G::State, Feature = E::Feature>,
    W: Reward<N, Event = G::Event>,
>(
    c: Ctx<N, G, E, W>,
    o: Ctx<N, G, O, W>,
    d: nat,
    state: G::State,
    options: Seq<Seq<(usize, BranchWeight<N>)>>,
    movers: Seq<usize>,
    action: usize,
    combos: nat,
    depth: i32,
    n: nat,
    m: SearchModel<G::State, E::Feature, N>,
    branches: Seq<BranchModel<N>>,
)
    requires
        alike(c, o, d),
    ensures
        combined(
            c,
            state,
            options,
            movers,
            action,
            combos,
            depth,
            n,
            m,
            branches,
        ) == combined(
            o,
            state,
            options,
            movers,
            action,
            combos,
            depth,
            n,
            m,
            branches,
        ),
        combined(
            c,
            state,
            options,
            movers,
            action,
            combos,
            depth,
            n,
            m,
            branches,
        ) matches Ok((next, _)) ==> m.arena.len() <= next.arena.len() && (sized(*c.game, m, d)
            ==> sized(*c.game, next, d)),
    decreases combos - n,
{
    if n < combos {
        let (joint, mw) = joint_move(
            options,
            movers,
            options.len(),
            n,
            lone_move(c.game.spec_num_agents(), m.agent, action),
            MoveWeightModel { fixed: N::spec_one(), deferred: Seq::empty() },
        );
        lemma_push_branches(c, o, d, m, state, joint, mw, true, depth, branches);
        if let Ok((next, more)) = spec_push_branches(
            c,
            m,
            state,
            joint,
            mw,
            true,
            depth,
            branches,
        ) {
            lemma_combined(
                c,
                o,
                d,
                state,
                options,
                movers,
                action,
                combos,
                depth,
                n + 1,
                next,
                more,
            );
        }
    }
}

proof fn lemma_joined<
    N: Scalar,
    G: Game<N>,
    E: StateEncoder<State = G::State>,
    O: StateEncoder<State = G::State, Feature = E::Feature>,
    W: Reward<N, Event = G::Event>,
>(
    c: Ctx<N, G, E, W>,
    o: Ctx<N, G, O, W>,
    d: nat,
    state: G::State,
    options: Seq<Seq<(usize, BranchWeight<N>)>>,
    movers: Seq<usize>,
    legal: Seq<usize>,
    combos: nat,
    depth: i32,
    i: nat,
    m: SearchModel<G::State, E::Feature, N>,
    edges: Seq<Seq<BranchModel<N>>>,
)
    requires
        alike(c, o, d),
    ensures
        joined(
            c,
            state,
            options,
            movers,
            legal,
            combos,
            depth,
            i,
            m,
            edges,
        ) == joined(
            o,
            state,
            options,
            movers,
            legal,
            combos,
            depth,
            i,
            m,
            edges,
        ),
        joined(
            c,
            state,
            options,
            movers,
            legal,
            combos,
            depth,
            i,
            m,
            edges,
        ) matches Ok((next, _)) ==> m.arena.len() <= next.arena.len() && (sized(*c.game, m, d)
            ==> sized(*c.game, next, d)),
    decreases legal.len() - i,
{
    if i < legal.len() {
        let action = legal[i as int];
        lemma_combined(
            c,
            o,
            d,
            state,
            options,
            movers,
            action,
            combos,
            depth,
            0,
            m,
            Seq::empty(),
        );
        if let Ok((next, branches)) = combined(
            c,
            state,
            options,
            movers,
            action,
            combos,
            depth,
            0,
            m,
            Seq::empty(),
        ) {
            lemma_joined(
                c,
                o,
                d,
                state,
                options,
                movers,
                legal,
                combos,
                depth,
                i + 1,
                next,
                edges.push(branches),
            );
        }
    }
}

proof fn lemma_simultaneous<
    N: Scalar,
    G: Game<N>,
    E: StateEncoder<State = G::State>,
    O: StateEncoder<State = G::State, Feature = E::Feature>,
    W: Reward<N, Event = G::Event>,
>(
    c: Ctx<N, G, E, W>,
    o: Ctx<N, G, O, W>,
    d: nat,
    m: SearchModel<G::State, E::Feature, N>,
    state: G::State,
    depth: i32,
)
    requires
        alike(c, o, d),
    ensures
        simultaneous(c, m, state, depth) == simultaneous(o, m, state, depth),
        simultaneous(c, m, state, depth) matches Ok((next, _)) ==> m.arena.len() <= next.arena.len() && (sized(*c.game, m, d)
            ==> sized(*c.game, next, d)),
{
    let movers = co_movers(c.game.spec_num_agents() as nat, m.agent);
    lemma_branchings(c, o, d, state, movers, 0, m, Seq::empty());
    let (options, next) = branchings(c, state, movers, 0, m, Seq::empty());
    if let Some(combos) = joint_fan(options, 0, 1) {
        let legal = c.game.spec_legal_actions(state, m.agent);
        lemma_joined(c, o, d, state, options, movers, legal, combos, depth, 0, next, Seq::empty());
    }
}

proof fn lemma_node_edges<
    N: Scalar,
    G: Game<N>,
    E: StateEncoder<State = G::State>,
    O: StateEncoder<State = G::State, Feature = E::Feature>,
    W: Reward<N, Event = G::Event>,
>(
    c: Ctx<N, G, E, W>,
    o: Ctx<N, G, O, W>,
    d: nat,
    m: SearchModel<G::State, E::Feature, N>,
    ni: int,
)
    requires
        alike(c, o, d),
    ensures
        node_edges(c, m, ni) == node_edges(o, m, ni),
        node_edges(c, m, ni) matches Ok((next, _, _, _)) ==> m.arena.len() <= next.arena.len() && (sized(*c.game, m, d)
            ==> sized(*c.game, next, d)),
{
    let node = m.arena[ni];
    let state = node.state;
    let depth = node.depth;
    match c.game.spec_actor(state) {
        Actor::Chance => {},
        Actor::Simultaneous => lemma_simultaneous(c, o, d, m, state, depth),
        Actor::Agent(mover) => {
            let legal = c.game.spec_legal_actions(state, mover);
            let kept = match c.cfg.opponent {
                Opponent::Adversarial { move_cap } => beamed(legal, node.q_row, depth, move_cap),
                _ => Ok(legal),
            };
            if let Ok(kept) = kept {
                let moves = if kept.len() == 0 {
                    seq![0usize]
                } else {
                    kept
                };
                lemma_moved(c, o, d, state, mover, kept, depth, 0, m, Seq::empty());
                lemma_moved(c, o, d, state, mover, moves, depth, 0, m, Seq::empty());
            }
            lemma_agent_branching(c, o, d, m, state, mover);
            let (options, routed) = spec_agent_branching(c, m, state, mover);
            lemma_weighed(c, o, d, state, mover, options, depth, 0, routed, Seq::empty());
        },
    }
}

proof fn lemma_expand_node<
    N: Scalar,
    G: Game<N>,
    E: StateEncoder<State = G::State>,
    O: StateEncoder<State = G::State, Feature = E::Feature>,
    W: Reward<N, Event = G::Event>,
>(
    c: Ctx<N, G, E, W>,
    o: Ctx<N, G, O, W>,
    d: nat,
    m: SearchModel<G::State, E::Feature, N>,
    ni: int,
)
    requires
        alike(c, o, d),
        0 <= ni < m.arena.len(),
    ensures
        spec_expand_node(c, m, ni) == spec_expand_node(o, m, ni),
        spec_expand_node(c, m, ni) matches Ok(next) ==> m.arena.len() <= next.arena.len() && (sized(*c.game, m, d)
            ==> sized(*c.game, next, d)),
{
    lemma_node_edges(c, o, d, m, ni);
    if let Ok((mid, edges, max_node, min_node)) = node_edges(c, m, ni) {
        if let Ok(next) = spec_expand_node(c, m, ni) {
            if sized(*c.game, m, d) {
                assert forall|k: int| 0 <= k < next.new_leaves.len() implies (
                #[trigger] next.new_leaves[k]) < next.arena.len()
                    && next.arena[next.new_leaves[k] as int].obs.len() == d by {
                    assert(mid.new_leaves[k] < mid.arena.len());
                }
            }
        }
    }
}

proof fn lemma_expanded<
    N: Scalar,
    G: Game<N>,
    E: StateEncoder<State = G::State>,
    O: StateEncoder<State = G::State, Feature = E::Feature>,
    W: Reward<N, Event = G::Event>,
>(
    c: Ctx<N, G, E, W>,
    o: Ctx<N, G, O, W>,
    d: nat,
    batch: Seq<usize>,
    i: nat,
    m: SearchModel<G::State, E::Feature, N>,
)
    requires
        alike(c, o, d),
        forall|k: int| 0 <= k < batch.len() ==> #[trigger] batch[k] < m.arena.len(),
    ensures
        expanded(c, batch, i, m) == expanded(o, batch, i, m),
        expanded(c, batch, i, m) matches Ok(next) ==> m.arena.len() <= next.arena.len() && (sized(*c.game, m, d)
            ==> sized(*c.game, next, d)),
    decreases batch.len() - i,
{
    if i < batch.len() {
        let ni = batch[i as int] as int;
        lemma_expand_node(c, o, d, m, ni);
        if let Ok(next) = spec_expand_node(c, m, ni) {
            let depth = (next.arena[ni].depth + 1) as i32;
            let stats = SearchStats {
                expansions: (next.stats.expansions + 1) as usize,
                max_depth: if next.stats.max_depth < depth {
                    depth
                } else {
                    next.stats.max_depth
                },
                ..next.stats
            };
            let counted = SearchModel { stats, ..next };
            assert(sized(*c.game, next, d) ==> sized(*c.game, counted, d));
            lemma_expanded(c, o, d, batch, i + 1, counted);
        }
    }
}

/// Encoders that observe alike open a round alike, with rows of the observations' length.
pub proof fn lemma_expand_round<
    N: Scalar,
    G: Game<N>,
    E: StateEncoder<State = G::State>,
    O: StateEncoder<State = G::State, Feature = E::Feature>,
    W: Reward<N, Event = G::Event>,
>(
    c: Ctx<N, G, E, W>,
    o: Ctx<N, G, O, W>,
    d: nat,
    m: SearchModel<G::State, E::Feature, N>,
    first: bool,
)
    requires
        alike(c, o, d),
        m.wf(c.cfg.expansion_budget),
    ensures
        spec_expand_round(c, m, first) == spec_expand_round(o, m, first),
        spec_expand_round(c, m, first) matches Ok(next) ==> sized(*c.game, next, d),
{
    reveal(spec_expand_round);
    let order = if first {
        Ok(m.frontier)
    } else {
        spec_sort_frontier(m.arena, m.frontier, c.cfg)
    };
    if let Ok(frontier) = order {
        let take = least(
            least(c.cfg.top_k, (c.cfg.expansion_budget - m.stats.expansions) as usize),
            frontier.len() as usize,
        );
        let start = SearchModel {
            frontier: frontier.skip(take as int),
            batch: frontier.take(take as int),
            opp_obs: Seq::empty(),
            opp_legal: Seq::empty(),
            new_leaves: Seq::empty(),
            ..m
        };
        assert(sized(*c.game, start, d));
        let p = |x: usize| x < m.arena.len();
        assert forall|k: int| 0 <= k < m.frontier.len() implies p(#[trigger] m.frontier[k]) by {}
        if !first {
            lemma_sorted_all(
                frontier_relation(m.arena, c.cfg, spec_voi_scale(m.arena, m.frontier)),
                m.frontier,
                p,
            );
        }
        assert forall|k: int| 0 <= k < start.batch.len() implies #[trigger] start.batch[k]
            < m.arena.len() by {
            assert(p(frontier[k]));
        }
        lemma_expanded(c, o, d, start.batch, 0, start);
        if let Ok(next) = expanded(c, start.batch, 0, start) {
            assert(sized(*c.game, next, d));
            if let Ok(open) = spec_expand_round(c, m, first) {
                assert(open.new_leaves == next.new_leaves && open.arena == next.arena);
            }
        }
    }
}

} // verus!
