//! What the others' answers come to: a lone co-mover's options as one edge, everyone's joint choices
//! beside each action of the searcher, and whose decision a node is.

use vstd::prelude::*;

#[allow(unused_imports)]
use super::fan::Outcome;
#[allow(unused_imports)]
use super::odds::fair;
#[allow(unused_imports)]
use super::plies::{
    branches_to, edge_of, follows, law_actions_have_their_edges,
    law_moves_branch_to_what_they_come_to, options_weigh, settled_outcome,
};
#[allow(unused_imports)]
use super::tree::{
    beamed, combined, joined, joint_move, lone_move, node_edges, spec_expand_node,
    spec_push_branches, weighed, BranchModel, BranchWeight, Ctx, MoveWeightModel, NodeModel,
    SearchModel,
};
#[allow(unused_imports)]
use super::worth::weights;
#[allow(unused_imports)]
use crate::encoder::StateEncoder;
#[allow(unused_imports)]
use crate::game::{Actor, Game};
#[allow(unused_imports)]
use crate::num::{law_sum, ring, spec_sum, Scalar};
#[allow(unused_imports)]
use crate::reward::{spec_edge_reward, Reward};

verus! {

proof fn lemma_follows_stays<
    N: Scalar,
    G: Game<N>,
    E: StateEncoder<State = G::State>,
    W: Reward<N, Event = G::Event>,
>(
    ctx: Ctx<N, G, E, W>,
    agent: usize,
    state: G::State,
    joint: Seq<usize>,
    mw: MoveWeightModel<N>,
    out_terminal: bool,
    depth: i32,
    a: Seq<NodeModel<G::State, E::Feature, N>>,
    b: Seq<NodeModel<G::State, E::Feature, N>>,
    branch: BranchModel<N>,
)
    requires
        follows(ctx, agent, state, joint, mw, out_terminal, depth, a, branch),
        a.len() <= b.len(),
        forall|n: int| 0 <= n < a.len() ==> #[trigger] b[n] == a[n],
    ensures
        follows(ctx, agent, state, joint, mw, out_terminal, depth, b, branch),
{
    let t = ctx.game.spec_step(state, joint);
    let pay = spec_edge_reward(*ctx.reward, t.events, agent);
    let o = choose|o: Outcome<G::State, N>|
        #[trigger] settled_outcome(
            *ctx.game,
            *ctx.reward,
            ctx.cfg.chance,
            agent,
            t.next_state,
            t.terminal,
            o,
        ) && branches_to(ctx, agent, mw, out_terminal, depth, pay, o, a, branch);
    assert(b[branch.child as int] == a[branch.child as int]);
    assert(branches_to(ctx, agent, mw, out_terminal, depth, pay, o, b, branch));
}

/// `b` is what option `i` of a lone co-mover may come to.
pub open spec fn answers<
    N: Scalar,
    G: Game<N>,
    E: StateEncoder<State = G::State>,
    W: Reward<N, Event = G::Event>,
>(
    ctx: Ctx<N, G, E, W>,
    agent: usize,
    state: G::State,
    mover: usize,
    options: Seq<(usize, BranchWeight<N>)>,
    depth: i32,
    arena: Seq<NodeModel<G::State, E::Feature, N>>,
    b: BranchModel<N>,
    i: int,
) -> bool {
    &&& 0 <= i < options.len()
    &&& follows(
        ctx,
        agent,
        state,
        lone_move(ctx.game.spec_num_agents(), mover, options[i].0),
        MoveWeightModel::lone(options[i].1),
        false,
        depth,
        arena,
        b,
    )
}

/// `b` is what one of the options of a lone co-mover may come to.
pub open spec fn answered<
    N: Scalar,
    G: Game<N>,
    E: StateEncoder<State = G::State>,
    W: Reward<N, Event = G::Event>,
>(
    ctx: Ctx<N, G, E, W>,
    agent: usize,
    state: G::State,
    mover: usize,
    options: Seq<(usize, BranchWeight<N>)>,
    depth: i32,
    arena: Seq<NodeModel<G::State, E::Feature, N>>,
    b: BranchModel<N>,
) -> bool {
    exists|i: int| #[trigger] answers(ctx, agent, state, mover, options, depth, arena, b, i)
}

proof fn lemma_weighed<
    N: Scalar,
    G: Game<N>,
    E: StateEncoder<State = G::State>,
    W: Reward<N, Event = G::Event>,
>(
    ctx: Ctx<N, G, E, W>,
    state: G::State,
    mover: usize,
    options: Seq<(usize, BranchWeight<N>)>,
    depth: i32,
    i: nat,
    m: SearchModel<G::State, E::Feature, N>,
    branches: Seq<BranchModel<N>>,
)
    requires
        depth < i32::MAX,
        i <= options.len(),
        forall|b: int|
            0 <= b < branches.len() ==> answered(
                ctx,
                m.agent,
                state,
                mover,
                options,
                depth,
                m.arena,
                #[trigger] branches[b],
            ),
        ring::<N>() && fair::<N, G>(*ctx.game, ctx.cfg.chance) && (forall|j: int|
            0 <= j < options.len() ==> (#[trigger] options[j]).1 is Fixed) ==> spec_sum(
            weights(branches),
        ) == spec_sum(options_weigh(options.take(i as int))),
    ensures
        weighed(ctx, state, mover, options, depth, i, m, branches) matches Ok((next, out)) ==> {
            &&& next.agent == m.agent
            &&& forall|b: int|
                0 <= b < out.len() ==> answered(
                    ctx,
                    m.agent,
                    state,
                    mover,
                    options,
                    depth,
                    next.arena,
                    #[trigger] out[b],
                )
            &&& ring::<N>() && fair::<N, G>(*ctx.game, ctx.cfg.chance) && (forall|j: int|
                0 <= j < options.len() ==> (#[trigger] options[j]).1 is Fixed) ==> spec_sum(
                weights(out),
            ) == spec_sum(options_weigh(options))
        },
    decreases options.len() - i,
{
    if i < options.len() {
        let (action, bw) = options[i as int];
        let joint = lone_move(ctx.game.spec_num_agents(), mover, action);
        let mw = MoveWeightModel::lone(bw);
        law_moves_branch_to_what_they_come_to(ctx, m, state, joint, mw, false, depth, branches);
        if let Ok((next, more)) = spec_push_branches(
            ctx,
            m,
            state,
            joint,
            mw,
            false,
            depth,
            branches,
        ) {
            assert forall|b: int| 0 <= b < more.len() implies answered(
                ctx,
                m.agent,
                state,
                mover,
                options,
                depth,
                next.arena,
                #[trigger] more[b],
            ) by {
                if b < branches.len() {
                    assert(more[b] == branches[b]);
                    assert(answered(
                        ctx,
                        m.agent,
                        state,
                        mover,
                        options,
                        depth,
                        m.arena,
                        branches[b],
                    ));
                    let k = choose|k: int| #[trigger]
                        answers(
                            ctx,
                            m.agent,
                            state,
                            mover,
                            options,
                            depth,
                            m.arena,
                            branches[b],
                            k,
                        );
                    lemma_follows_stays(
                        ctx,
                        m.agent,
                        state,
                        lone_move(ctx.game.spec_num_agents(), mover, options[k].0),
                        MoveWeightModel::lone(options[k].1),
                        false,
                        depth,
                        m.arena,
                        next.arena,
                        branches[b],
                    );
                    assert(answers(
                        ctx,
                        m.agent,
                        state,
                        mover,
                        options,
                        depth,
                        next.arena,
                        more[b],
                        k,
                    ));
                } else {
                    assert(answers(
                        ctx,
                        m.agent,
                        state,
                        mover,
                        options,
                        depth,
                        next.arena,
                        more[b],
                        i as int,
                    ));
                }
            }
            let known = options_weigh(options.take(i as int));
            if ring::<N>() && fair::<N, G>(*ctx.game, ctx.cfg.chance) && (forall|j: int|
                0 <= j < options.len() ==> (#[trigger] options[j]).1 is Fixed) {
                assert(options[i as int].1 is Fixed);
                law_sum(known, mw.fixed);
                assert(options_weigh(options.take((i + 1) as int)) =~= known.push(mw.fixed));
            }
            lemma_weighed(ctx, state, mover, options, depth, i + 1, next, more);
        }
    } else {
        assert(options.take(i as int) =~= options);
    }
}

/// The one edge of a co-mover that is not minimized over: each branch is what one of its options may
/// come to, with that option's weight; and where the options' weights are known, the branches weigh
/// together what they weigh.
pub proof fn law_answers_are_weighed_options<
    N: Scalar,
    G: Game<N>,
    E: StateEncoder<State = G::State>,
    W: Reward<N, Event = G::Event>,
>(
    ctx: Ctx<N, G, E, W>,
    state: G::State,
    mover: usize,
    options: Seq<(usize, BranchWeight<N>)>,
    depth: i32,
    m: SearchModel<G::State, E::Feature, N>,
)
    requires
        depth < i32::MAX,
    ensures
        weighed(ctx, state, mover, options, depth, 0, m, Seq::empty()) matches Ok((next, out)) ==> {
            &&& forall|b: int|
                0 <= b < out.len() ==> answered(
                    ctx,
                    m.agent,
                    state,
                    mover,
                    options,
                    depth,
                    next.arena,
                    #[trigger] out[b],
                )
            &&& ring::<N>() && fair::<N, G>(*ctx.game, ctx.cfg.chance) && (forall|j: int|
                0 <= j < options.len() ==> (#[trigger] options[j]).1 is Fixed) ==> spec_sum(
                weights(out),
            ) == spec_sum(options_weigh(options))
        },
{
    assert(weights(Seq::<BranchModel<N>>::empty()) =~= options_weigh(options.take(0)));
    lemma_weighed(ctx, state, mover, options, depth, 0, m, Seq::empty());
}

/// The joint move that number `c` stands for beside the searcher's action, and what it weighs.
pub open spec fn joint_answer<N: Scalar>(
    agents: usize,
    agent: usize,
    options: Seq<Seq<(usize, BranchWeight<N>)>>,
    movers: Seq<usize>,
    action: usize,
    c: nat,
) -> (Seq<usize>, MoveWeightModel<N>) {
    joint_move(
        options,
        movers,
        options.len(),
        c,
        lone_move(agents, agent, action),
        MoveWeightModel { fixed: N::spec_one(), deferred: Seq::empty() },
    )
}

/// `b` is what joint choice `c` of the co-movers beside the searcher's action may come to.
pub open spec fn meets<
    N: Scalar,
    G: Game<N>,
    E: StateEncoder<State = G::State>,
    W: Reward<N, Event = G::Event>,
>(
    ctx: Ctx<N, G, E, W>,
    agent: usize,
    state: G::State,
    options: Seq<Seq<(usize, BranchWeight<N>)>>,
    movers: Seq<usize>,
    action: usize,
    combos: nat,
    depth: i32,
    arena: Seq<NodeModel<G::State, E::Feature, N>>,
    b: BranchModel<N>,
    c: nat,
) -> bool {
    let (joint, mw) = joint_answer(
        ctx.game.spec_num_agents(),
        agent,
        options,
        movers,
        action,
        c,
    );
    c < combos && follows(ctx, agent, state, joint, mw, true, depth, arena, b)
}

/// `b` is what some joint choice of the co-movers beside the searcher's action may come to.
pub open spec fn met<
    N: Scalar,
    G: Game<N>,
    E: StateEncoder<State = G::State>,
    W: Reward<N, Event = G::Event>,
>(
    ctx: Ctx<N, G, E, W>,
    agent: usize,
    state: G::State,
    options: Seq<Seq<(usize, BranchWeight<N>)>>,
    movers: Seq<usize>,
    action: usize,
    combos: nat,
    depth: i32,
    arena: Seq<NodeModel<G::State, E::Feature, N>>,
    b: BranchModel<N>,
) -> bool {
    exists|c: nat| #[trigger]
        meets(ctx, agent, state, options, movers, action, combos, depth, arena, b, c)
}

proof fn lemma_met_stays<
    N: Scalar,
    G: Game<N>,
    E: StateEncoder<State = G::State>,
    W: Reward<N, Event = G::Event>,
>(
    ctx: Ctx<N, G, E, W>,
    agent: usize,
    state: G::State,
    options: Seq<Seq<(usize, BranchWeight<N>)>>,
    movers: Seq<usize>,
    action: usize,
    combos: nat,
    depth: i32,
    a: Seq<NodeModel<G::State, E::Feature, N>>,
    b: Seq<NodeModel<G::State, E::Feature, N>>,
    branch: BranchModel<N>,
)
    requires
        met(ctx, agent, state, options, movers, action, combos, depth, a, branch),
        a.len() <= b.len(),
        forall|n: int| 0 <= n < a.len() ==> #[trigger] b[n] == a[n],
    ensures
        met(ctx, agent, state, options, movers, action, combos, depth, b, branch),
{
    let c = choose|c: nat| #[trigger]
        meets(ctx, agent, state, options, movers, action, combos, depth, a, branch, c);
    let (joint, mw) = joint_answer(
        ctx.game.spec_num_agents(),
        agent,
        options,
        movers,
        action,
        c,
    );
    lemma_follows_stays(ctx, agent, state, joint, mw, true, depth, a, b, branch);
    assert(meets(ctx, agent, state, options, movers, action, combos, depth, b, branch, c));
}

proof fn lemma_combined<
    N: Scalar,
    G: Game<N>,
    E: StateEncoder<State = G::State>,
    W: Reward<N, Event = G::Event>,
>(
    ctx: Ctx<N, G, E, W>,
    state: G::State,
    options: Seq<Seq<(usize, BranchWeight<N>)>>,
    movers: Seq<usize>,
    action: usize,
    combos: nat,
    depth: i32,
    c: nat,
    m: SearchModel<G::State, E::Feature, N>,
    branches: Seq<BranchModel<N>>,
)
    requires
        depth < i32::MAX,
        c <= combos,
        forall|b: int|
            0 <= b < branches.len() ==> met(
                ctx,
                m.agent,
                state,
                options,
                movers,
                action,
                combos,
                depth,
                m.arena,
                #[trigger] branches[b],
            ),
    ensures
        combined(ctx, state, options, movers, action, combos, depth, c, m, branches) matches Ok(
            (next, out),
        ) ==> {
            &&& next.agent == m.agent
            &&& m.arena.len() <= next.arena.len()
            &&& forall|n: int| 0 <= n < m.arena.len() ==> #[trigger] next.arena[n] == m.arena[n]
            &&& forall|b: int|
                0 <= b < out.len() ==> met(
                    ctx,
                    m.agent,
                    state,
                    options,
                    movers,
                    action,
                    combos,
                    depth,
                    next.arena,
                    #[trigger] out[b],
                )
        },
    decreases combos - c,
{
    if c < combos {
        let (joint, mw) = joint_answer(
            ctx.game.spec_num_agents(),
            m.agent,
            options,
            movers,
            action,
            c,
        );
        law_moves_branch_to_what_they_come_to(ctx, m, state, joint, mw, true, depth, branches);
        if let Ok((next, more)) = spec_push_branches(
            ctx,
            m,
            state,
            joint,
            mw,
            true,
            depth,
            branches,
        ) {
            assert forall|b: int| 0 <= b < more.len() implies met(
                ctx,
                m.agent,
                state,
                options,
                movers,
                action,
                combos,
                depth,
                next.arena,
                #[trigger] more[b],
            ) by {
                if b < branches.len() {
                    assert(more[b] == branches[b]);
                    lemma_met_stays(
                        ctx,
                        m.agent,
                        state,
                        options,
                        movers,
                        action,
                        combos,
                        depth,
                        m.arena,
                        next.arena,
                        branches[b],
                    );
                } else {
                    assert(meets(
                        ctx,
                        m.agent,
                        state,
                        options,
                        movers,
                        action,
                        combos,
                        depth,
                        next.arena,
                        more[b],
                        c,
                    ));
                }
            }
            lemma_combined(
                ctx,
                state,
                options,
                movers,
                action,
                combos,
                depth,
                c + 1,
                next,
                more,
            );
            if let Ok((end, out)) = combined(
                ctx,
                state,
                options,
                movers,
                action,
                combos,
                depth,
                c,
                m,
                branches,
            ) {
                assert forall|n: int| 0 <= n < m.arena.len() implies #[trigger] end.arena[n]
                    == m.arena[n] by {
                    assert(next.arena[n] == m.arena[n]);
                }
            }
        }
    }
}

/// Where all act at once, the searcher has an edge for each of its actions, in their order: each branch
/// is what some joint choice of the co-movers beside that action may come to, with the weight of that
/// choice.
pub proof fn law_joint_edges_meet_every_answer<
    N: Scalar,
    G: Game<N>,
    E: StateEncoder<State = G::State>,
    W: Reward<N, Event = G::Event>,
>(
    ctx: Ctx<N, G, E, W>,
    state: G::State,
    options: Seq<Seq<(usize, BranchWeight<N>)>>,
    movers: Seq<usize>,
    legal: Seq<usize>,
    combos: nat,
    depth: i32,
    i: nat,
    m: SearchModel<G::State, E::Feature, N>,
    edges: Seq<Seq<BranchModel<N>>>,
    j: int,
)
    requires
        depth < i32::MAX,
        i == edges.len() <= legal.len(),
        0 <= j < legal.len(),
        j < i ==> forall|b: int|
            0 <= b < edges[j].len() ==> met(
                ctx,
                m.agent,
                state,
                options,
                movers,
                legal[j],
                combos,
                depth,
                m.arena,
                #[trigger] edges[j][b],
            ),
    ensures
        joined(ctx, state, options, movers, legal, combos, depth, i, m, edges) matches Ok(
            (next, out),
        ) ==> {
            &&& out.len() == legal.len()
            &&& forall|b: int|
                0 <= b < out[j].len() ==> met(
                    ctx,
                    m.agent,
                    state,
                    options,
                    movers,
                    legal[j],
                    combos,
                    depth,
                    next.arena,
                    #[trigger] out[j][b],
                )
        },
    decreases legal.len() - i,
{
    if i < legal.len() {
        let none = Seq::<BranchModel<N>>::empty();
        lemma_combined(
            ctx,
            state,
            options,
            movers,
            legal[i as int],
            combos,
            depth,
            0,
            m,
            none,
        );
        if let Ok((next, branches)) = combined(
            ctx,
            state,
            options,
            movers,
            legal[i as int],
            combos,
            depth,
            0,
            m,
            none,
        ) {
            let more = edges.push(branches);
            if j < i {
                assert forall|b: int| 0 <= b < more[j].len() implies met(
                    ctx,
                    m.agent,
                    state,
                    options,
                    movers,
                    legal[j],
                    combos,
                    depth,
                    next.arena,
                    #[trigger] more[j][b],
                ) by {
                    assert(more[j][b] == edges[j][b]);
                    lemma_met_stays(
                        ctx,
                        m.agent,
                        state,
                        options,
                        movers,
                        legal[j],
                        combos,
                        depth,
                        m.arena,
                        next.arena,
                        edges[j][b],
                    );
                }
            }
            law_joint_edges_meet_every_answer(
                ctx,
                state,
                options,
                movers,
                legal,
                combos,
                depth,
                i + 1,
                next,
                more,
                j,
            );
        }
    }
}

/// Whose decision a node is. The searcher maximizes over its own moves, an edge for each where none is
/// beamed away, and where all act at once; an adversary's moves are minimized over; any other
/// co-mover's are one edge, over which nobody chooses.
pub proof fn law_nodes_belong_to_their_movers<
    N: Scalar,
    G: Game<N>,
    E: StateEncoder<State = G::State>,
    W: Reward<N, Event = G::Event>,
>(
    ctx: Ctx<N, G, E, W>,
    m: SearchModel<G::State, E::Feature, N>,
    ni: int,
    j: int,
)
    requires
        0 <= ni < m.arena.len(),
        m.arena[ni].depth < i32::MAX,
    ensures
        node_edges(ctx, m, ni) matches Ok((next, edges, max_node, min_node)) ==> {
            let node = m.arena[ni];
            let hostile = ctx.cfg.opponent is Adversarial;
            match ctx.game.spec_actor(node.state) {
                Actor::Chance => false,
                Actor::Simultaneous => max_node && !min_node && !hostile,
                Actor::Agent(mover) => {
                    let legal = ctx.game.spec_legal_actions(node.state, mover);
                    &&& max_node == (mover == m.agent)
                    &&& min_node == (mover != m.agent && hostile)
                    &&& mover != m.agent && !hostile ==> edges.len() == 1
                    &&& mover == m.agent && !hostile ==> edges.len() == legal.len() && (0 <= j
                        < legal.len() ==> edge_of(
                        ctx,
                        m.agent,
                        node.state,
                        lone_move(ctx.game.spec_num_agents(), mover, legal[j]),
                        node.depth,
                        next.arena,
                        edges[j],
                    ))
                },
            }
        },
{
    let node = m.arena[ni];
    if let Actor::Agent(mover) = ctx.game.spec_actor(node.state) {
        let legal = ctx.game.spec_legal_actions(node.state, mover);
        if mover == m.agent && !(ctx.cfg.opponent is Adversarial) {
            if 0 <= j < legal.len() {
                law_actions_have_their_edges(ctx, node.state, mover, legal, node.depth, m, j);
            } else if legal.len() > 0 {
                law_actions_have_their_edges(ctx, node.state, mover, legal, node.depth, m, 0);
            }
        }
    }
}

/// An expanded node holds the edges of its decision and whose it is; what it is otherwise, and every
/// node beside it, stays.
pub proof fn law_expanded_nodes_hold_their_edges<
    N: Scalar,
    G: Game<N>,
    E: StateEncoder<State = G::State>,
    W: Reward<N, Event = G::Event>,
>(
    ctx: Ctx<N, G, E, W>,
    m: SearchModel<G::State, E::Feature, N>,
    ni: int,
    other: int,
)
    requires
        0 <= ni < m.arena.len(),
        !m.arena[ni].min_node,
        other != ni,
    ensures
        spec_expand_node(ctx, m, ni) matches Ok(b) ==> {
            &&& node_edges(ctx, m, ni) matches Ok((next, edges, max_node, min_node)) && (ni
                < next.arena.len() && next.arena[ni] == m.arena[ni] ==> {
                &&& b.arena.len() == next.arena.len()
                &&& b.arena[ni] == (NodeModel {
                    edges: Some(edges),
                    max_node,
                    min_node,
                    ..m.arena[ni]
                })
                &&& 0 <= other < next.arena.len() ==> b.arena[other] == next.arena[other]
            })
        },
{
}

} // verus!
