//! What a ply of an expectimax search leads to: every action to the states that the game takes it to,
//! with what is earned on the way.

use vstd::prelude::*;

#[allow(unused_imports)]
use super::fan::{
    child, committed, enumerated, fan, sampled, spec_chain_fan, total_rank, unfolded, Outcome,
    Pending,
};
#[allow(unused_imports)]
use super::odds::{fair, law_outcomes_add_up, odds};
#[allow(unused_imports)]
use super::tree::{
    branched, leaf_player, lone_move, moved, spec_agent_branching, spec_push_branches, BranchModel,
    BranchWeight, Ctx, MoveWeightModel, NodeModel, SearchModel,
};
#[allow(unused_imports)]
use super::worth::weights;
#[allow(unused_imports)]
use crate::encoder::StateEncoder;
#[allow(unused_imports)]
use crate::game::{Actor, Game, Rng};
#[allow(unused_imports)]
use crate::means::{counts, law_splits, law_sum_of_the_same, splits};
#[allow(unused_imports)]
use crate::num::{law_ring, law_sum, law_sum_runs, law_sum_scales, ring, spec_sum, Scalar};
#[allow(unused_imports)]
use crate::policy::ChanceMode;
#[allow(unused_imports)]
use crate::reward::{spec_edge_reward, Reward};

verus! {

/// Where a chain of chance outcomes leads from `start`.
pub open spec fn reached<N: Scalar, G: Game<N>>(
    game: G,
    start: G::State,
    links: Seq<usize>,
) -> G::State
    decreases links.len(),
{
    if links.len() == 0 {
        start
    } else {
        game.spec_apply_chance_node(
            reached(game, start, links.drop_last()),
            links.last(),
        ).next_state
    }
}

/// Whether the last outcome of a chain ends the game.
pub open spec fn ended<N: Scalar, G: Game<N>>(
    game: G,
    start: G::State,
    terminal: bool,
    links: Seq<usize>,
) -> bool {
    if links.len() == 0 {
        terminal
    } else {
        game.spec_apply_chance_node(
            reached(game, start, links.drop_last()),
            links.last(),
        ).terminal
    }
}

/// What the last outcome of a chain pays `agent`.
pub open spec fn link_pay<N: Scalar, G: Game<N>, W: Reward<N, Event = G::Event>>(
    game: G,
    reward: W,
    agent: usize,
    start: G::State,
    links: Seq<usize>,
) -> N {
    spec_edge_reward(
        reward,
        game.spec_apply_chance_node(
            reached(game, start, links.drop_last()),
            links.last(),
        ).events,
        agent,
    )
}

/// What the outcomes of a chain pay `agent`, one by one.
pub open spec fn chain_pays<N: Scalar, G: Game<N>, W: Reward<N, Event = G::Event>>(
    game: G,
    reward: W,
    agent: usize,
    start: G::State,
    links: Seq<usize>,
) -> Seq<N> {
    Seq::new(links.len(), |i: int| link_pay(game, reward, agent, start, links.take(i + 1)))
}

/// How likely a chain is: outcome by outcome, what its chance node says of it, or an even share where
/// outcomes are sampled.
pub open spec fn chain_odds<N: Scalar, G: Game<N>>(
    game: G,
    chance: ChanceMode,
    start: G::State,
    links: Seq<usize>,
) -> N
    decreases links.len(),
{
    if links.len() == 0 {
        N::spec_one()
    } else {
        let before = chain_odds(game, chance, start, links.drop_last());
        match chance {
            ChanceMode::Committed { samples } => before.spec_over(
                N::spec_count(committed(samples) as u64),
            ),
            _ => before.spec_times(
                game.spec_chance_node(
                    reached(game, start, links.drop_last()),
                ).probs()[links.last() as int],
            ),
        }
    }
}

/// What a chain of chance outcomes comes to.
pub open spec fn comes_to<N: Scalar, G: Game<N>, W: Reward<N, Event = G::Event>>(
    game: G,
    reward: W,
    chance: ChanceMode,
    agent: usize,
    start: G::State,
    terminal: bool,
    links: Seq<usize>,
    o: Outcome<G::State, N>,
) -> bool {
    &&& o.state == reached(game, start, links)
    &&& o.terminal == ended(game, start, terminal, links)
    &&& o.reward == spec_sum(chain_pays(game, reward, agent, start, links))
    &&& o.prob == chain_odds(game, chance, start, links)
}

/// Some chain of chance outcomes comes to this.
pub open spec fn chained<N: Scalar, G: Game<N>, W: Reward<N, Event = G::Event>>(
    game: G,
    reward: W,
    chance: ChanceMode,
    agent: usize,
    start: G::State,
    terminal: bool,
    o: Outcome<G::State, N>,
) -> bool {
    exists|links: Seq<usize>|
        #[trigger] comes_to(game, reward, chance, agent, start, terminal, links, o)
}

/// What is on the way, as an outcome.
pub open spec fn as_outcome<S, N>(w: Pending<S, N>) -> Outcome<S, N> {
    Outcome { state: w.state, prob: w.prob, reward: w.reward, terminal: w.terminal }
}

proof fn lemma_link<N: Scalar, G: Game<N>, W: Reward<N, Event = G::Event>>(
    game: G,
    reward: W,
    chance: ChanceMode,
    agent: usize,
    start: G::State,
    terminal: bool,
    w: Pending<G::State, N>,
    outcome: usize,
    prob: N,
)
    requires
        chained(game, reward, chance, agent, start, terminal, as_outcome(w)),
        chance matches ChanceMode::Committed { samples } ==> prob == w.prob.spec_over(
            N::spec_count(committed(samples) as u64),
        ),
        !(chance is Committed) ==> prob == w.prob.spec_times(
            game.spec_chance_node(w.state).probs()[outcome as int],
        ),
    ensures
        child(game, reward, agent, w, outcome, prob) matches Ok(c) ==> chained(
            game,
            reward,
            chance,
            agent,
            start,
            terminal,
            as_outcome(c),
        ),
{
    if let Ok(c) = child(game, reward, agent, w, outcome, prob) {
        let links = choose|links: Seq<usize>|
            #[trigger] comes_to(game, reward, chance, agent, start, terminal, links, as_outcome(w));
        let more = links.push(outcome);
        assert(more.drop_last() =~= links);
        let pays = chain_pays(game, reward, agent, start, links);
        let last = link_pay(game, reward, agent, start, more);
        assert(more.take(more.len() as int) =~= more);
        let longer = chain_pays(game, reward, agent, start, more);
        assert forall|i: int| 0 <= i < links.len() implies #[trigger] longer[i] == pays[i] by {
            assert(more.take(i + 1) =~= links.take(i + 1));
        }
        assert(longer =~= pays.push(last));
        law_sum(pays, last);
        assert(comes_to(game, reward, chance, agent, start, terminal, more, as_outcome(c)));
    }
}

/// Everything on the way came by some chain.
pub open spec fn all_chained<N: Scalar, G: Game<N>, W: Reward<N, Event = G::Event>>(
    game: G,
    reward: W,
    chance: ChanceMode,
    agent: usize,
    start: G::State,
    terminal: bool,
    work: Seq<Pending<G::State, N>>,
) -> bool {
    forall|i: int|
        0 <= i < work.len() ==> chained(
            game,
            reward,
            chance,
            agent,
            start,
            terminal,
            as_outcome(#[trigger] work[i]),
        )
}

proof fn lemma_sampled_chained<N: Scalar, G: Game<N>, W: Reward<N, Event = G::Event>, R: Rng<N>>(
    game: G,
    reward: W,
    samples: usize,
    agent: usize,
    start: G::State,
    terminal: bool,
    w: Pending<G::State, N>,
    j: nat,
    work: Seq<Pending<G::State, N>>,
    rng: R,
)
    requires
        chained(
            game,
            reward,
            ChanceMode::Committed { samples },
            agent,
            start,
            terminal,
            as_outcome(w),
        ),
        all_chained(game, reward, ChanceMode::Committed { samples }, agent, start, terminal, work),
    ensures
        sampled(game, reward, agent, w, committed(samples), j, work, rng).0 matches Ok(more)
            ==> all_chained(
            game,
            reward,
            ChanceMode::Committed { samples },
            agent,
            start,
            terminal,
            more,
        ),
    decreases committed(samples) - j,
{
    let chance = ChanceMode::Committed { samples };
    let k = committed(samples);
    if j < k {
        let (drawn, after) = game.spec_chance_node(w.state).drawn(rng);
        if let Ok(outcome) = drawn {
            let prob = w.prob.spec_over(N::spec_count(k as u64));
            lemma_link(game, reward, chance, agent, start, terminal, w, outcome, prob);
            if let Ok(c) = child(game, reward, agent, w, outcome, prob) {
                lemma_sampled_chained(
                    game,
                    reward,
                    samples,
                    agent,
                    start,
                    terminal,
                    w,
                    j + 1,
                    work.push(c),
                    after,
                );
            }
        }
    }
}

proof fn lemma_enumerated_chained<N: Scalar, G: Game<N>, W: Reward<N, Event = G::Event>>(
    game: G,
    reward: W,
    agent: usize,
    start: G::State,
    terminal: bool,
    w: Pending<G::State, N>,
    j: nat,
    work: Seq<Pending<G::State, N>>,
)
    requires
        chained(game, reward, ChanceMode::ExpandAll, agent, start, terminal, as_outcome(w)),
        all_chained(game, reward, ChanceMode::ExpandAll, agent, start, terminal, work),
        game.spec_chance_node(w.state).probs().len() <= usize::MAX,
    ensures
        enumerated(
            game,
            reward,
            agent,
            w,
            game.spec_chance_node(w.state).probs(),
            j,
            work,
        ) matches Ok(more) ==> all_chained(
            game,
            reward,
            ChanceMode::ExpandAll,
            agent,
            start,
            terminal,
            more,
        ),
    decreases game.spec_chance_node(w.state).probs().len() - j,
{
    let chance = ChanceMode::ExpandAll;
    let probs = game.spec_chance_node(w.state).probs();
    if j < probs.len() {
        let prob = w.prob.spec_times(probs[j as int]);
        lemma_link(game, reward, chance, agent, start, terminal, w, j as usize, prob);
        if let Ok(c) = child(game, reward, agent, w, j as usize, prob) {
            lemma_enumerated_chained(
                game,
                reward,
                agent,
                start,
                terminal,
                w,
                j + 1,
                work.push(c),
            );
        }
    }
}

/// An outcome of a chain that ends in a decision or with the game.
pub open spec fn settled_outcome<N: Scalar, G: Game<N>, W: Reward<N, Event = G::Event>>(
    game: G,
    reward: W,
    chance: ChanceMode,
    agent: usize,
    start: G::State,
    terminal: bool,
    o: Outcome<G::State, N>,
) -> bool {
    &&& chained(game, reward, chance, agent, start, terminal, o)
    &&& o.terminal || game.spec_actor(o.state) != Actor::Chance
}

proof fn lemma_fan_chained<N: Scalar, G: Game<N>, W: Reward<N, Event = G::Event>, R: Rng<N>>(
    game: G,
    reward: W,
    chance: ChanceMode,
    agent: usize,
    start: G::State,
    terminal: bool,
    resolved: Seq<Outcome<G::State, N>>,
    work: Seq<Pending<G::State, N>>,
    rng: R,
)
    requires
        all_chained(game, reward, chance, agent, start, terminal, work),
        forall|i: int|
            0 <= i < resolved.len() ==> settled_outcome(
                game,
                reward,
                chance,
                agent,
                start,
                terminal,
                #[trigger] resolved[i],
            ),
    ensures
        fan(game, reward, chance, agent, resolved, work, rng).0 matches Ok(out) ==> forall|i: int|
            0 <= i < out.len() ==> settled_outcome(
                game,
                reward,
                chance,
                agent,
                start,
                terminal,
                #[trigger] out[i],
            ),
    decreases total_rank(work),
{
    if work.len() > 0 {
        let w = work.last();
        let rest = work.drop_last();
        let n = work.len() - 1;
        assert(chained(game, reward, chance, agent, start, terminal, as_outcome(work[n])));
        assert forall|i: int| 0 <= i < rest.len() implies chained(
            game,
            reward,
            chance,
            agent,
            start,
            terminal,
            as_outcome(#[trigger] rest[i]),
        ) by {
            assert(rest[i] == work[i]);
        }
        if w.terminal || game.spec_actor(w.state) != Actor::Chance {
            super::fan::lemma_rank_positive(w.hops as nat);
            let more = resolved.push(as_outcome(w));
            lemma_fan_chained(game, reward, chance, agent, start, terminal, more, rest, rng);
        } else if w.hops < crate::game::CHANCE_CHAIN_LIMIT {
            let (next, after) = unfolded(game, reward, chance, agent, w, resolved.len(), rest, rng);
            super::fan::lemma_unfolded(game, reward, chance, agent, w, resolved.len(), rest, rng);
            if let Ok(more) = next {
                match chance {
                    ChanceMode::Committed { samples } => {
                        lemma_sampled_chained(
                            game,
                            reward,
                            samples,
                            agent,
                            start,
                            terminal,
                            w,
                            0,
                            rest,
                            rng,
                        );
                    },
                    ChanceMode::ExpandAll => {
                        lemma_enumerated_chained(
                            game,
                            reward,
                            agent,
                            start,
                            terminal,
                            w,
                            0,
                            rest,
                        );
                    },
                    ChanceMode::AlwaysResample => {},
                }
                lemma_fan_chained(
                    game,
                    reward,
                    chance,
                    agent,
                    start,
                    terminal,
                    resolved,
                    more,
                    after,
                );
            }
        }
    }
}

/// Every outcome of a transition comes by some chain of chance outcomes: it is the state that the
/// chain leads to, pays what its links pay together, is as likely as they are together, and is a
/// decision or the game's end.
pub proof fn law_outcomes_come_by_chains<
    N: Scalar,
    G: Game<N>,
    W: Reward<N, Event = G::Event>,
    R: Rng<N>,
>(
    game: G,
    reward: W,
    chance: ChanceMode,
    agent: usize,
    state: G::State,
    terminal: bool,
    rng: R,
)
    ensures
        spec_chain_fan(game, reward, chance, agent, state, terminal, rng).0 matches Ok(out)
            ==> forall|i: int|
            0 <= i < out.len() ==> settled_outcome(
                game,
                reward,
                chance,
                agent,
                state,
                terminal,
                #[trigger] out[i],
            ),
{
    let start = Pending {
        state,
        prob: N::spec_one(),
        reward: N::spec_zero(),
        terminal,
        hops: 0,
    };
    let none = Seq::<usize>::empty();
    let pays = chain_pays(game, reward, agent, state, none);
    assert(pays =~= Seq::empty());
    law_sum(pays, N::spec_zero());
    assert(comes_to(game, reward, chance, agent, state, terminal, none, as_outcome(start)));
    assert(seq![start][0] == start);
    lemma_fan_chained(
        game,
        reward,
        chance,
        agent,
        state,
        terminal,
        Seq::empty(),
        seq![start],
        rng,
    );
}

/// `b` is the branch of outcome `o` of a move that pays `pay`, and leads to a node that holds it.
pub open spec fn branches_to<
    N: Scalar,
    G: Game<N>,
    E: StateEncoder<State = G::State>,
    W: Reward<N, Event = G::Event>,
>(
    ctx: Ctx<N, G, E, W>,
    agent: usize,
    mw: MoveWeightModel<N>,
    out_terminal: bool,
    depth: i32,
    pay: N,
    o: Outcome<G::State, N>,
    arena: Seq<NodeModel<G::State, E::Feature, N>>,
    b: BranchModel<N>,
) -> bool {
    let node = arena[b.child as int];
    let stuck = out_terminal && ctx.game.spec_legal_actions(o.state, agent).len() == 0;
    &&& b.child < arena.len()
    &&& node.state == o.state
    &&& node.terminal == (o.terminal || stuck)
    &&& node.depth == depth + 1
    &&& !node.terminal ==> node.obs == ctx.enc.spec_encode(
        o.state,
        leaf_player(*ctx.game, ctx.cfg, o.state, agent),
    )
    &&& b.reward == pay.spec_plus(o.reward)
    &&& b.deferred == mw.deferred
    &&& mw.deferred.len() == 0 ==> b.weight == mw.fixed.spec_times(o.prob)
    &&& mw.deferred.len() > 0 ==> b.scale == mw.fixed.spec_times(o.prob)
}

proof fn lemma_branched<
    N: Scalar,
    G: Game<N>,
    E: StateEncoder<State = G::State>,
    W: Reward<N, Event = G::Event>,
>(
    ctx: Ctx<N, G, E, W>,
    mw: MoveWeightModel<N>,
    out_terminal: bool,
    depth: i32,
    pay: N,
    outcomes: Seq<Outcome<G::State, N>>,
    i: nat,
    m: SearchModel<G::State, E::Feature, N>,
    branches: Seq<BranchModel<N>>,
    first: nat,
    j: int,
)
    requires
        i <= outcomes.len(),
        branches.len() == first + i,
        depth < i32::MAX,
        0 <= j < outcomes.len(),
        j < i ==> branches_to(
            ctx,
            m.agent,
            mw,
            out_terminal,
            depth,
            pay,
            outcomes[j],
            m.arena,
            branches[first + j],
        ),
    ensures
        branched(ctx, mw, out_terminal, depth, pay, outcomes, i, m, branches) matches Ok((next, out))
            ==> {
            &&& next.agent == m.agent
            &&& out.len() == first + outcomes.len()
            &&& branches_to(
                ctx,
                m.agent,
                mw,
                out_terminal,
                depth,
                pay,
                outcomes[j],
                next.arena,
                out[first + j],
            )
        },
    decreases outcomes.len() - i,
{
    if i < outcomes.len() && m.arena.len() < crate::policy::MAX_ENUMERATED_OUTCOMES {
        let o = outcomes[i as int];
        let terminal = o.terminal || (out_terminal && ctx.game.spec_legal_actions(
            o.state,
            m.agent,
        ).len() == 0);
        let idx = m.arena.len() as usize;
        let below = (depth + 1) as i32;
        let next = if terminal {
            SearchModel {
                arena: m.arena.push(
                    super::tree::fresh_node(o.state, Seq::empty(), below, true),
                ),
                ..m
            }
        } else {
            SearchModel {
                arena: m.arena.push(
                    super::tree::fresh_node(
                        o.state,
                        ctx.enc.spec_encode(
                            o.state,
                            leaf_player(*ctx.game, ctx.cfg, o.state, m.agent),
                        ),
                        below,
                        false,
                    ),
                ),
                new_leaves: m.new_leaves.push(idx),
                ..m
            }
        };
        let mass = mw.fixed.spec_times(o.prob);
        let branch = BranchModel {
            weight: if mw.deferred.len() == 0 {
                mass
            } else {
                N::spec_zero()
            },
            deferred: mw.deferred,
            scale: if mw.deferred.len() == 0 {
                N::spec_one()
            } else {
                mass
            },
            reward: pay.spec_plus(o.reward),
            child: idx,
        };
        if j < i {
            let c = branches[first + j].child as int;
            assert(next.arena[c] == m.arena[c]);
        }
        lemma_branched(
            ctx,
            mw,
            out_terminal,
            depth,
            pay,
            outcomes,
            i + 1,
            next,
            branches.push(branch),
            first,
            j,
        );
    }
}

proof fn lemma_branched_keeps<
    N: Scalar,
    G: Game<N>,
    E: StateEncoder<State = G::State>,
    W: Reward<N, Event = G::Event>,
>(
    ctx: Ctx<N, G, E, W>,
    mw: MoveWeightModel<N>,
    out_terminal: bool,
    depth: i32,
    pay: N,
    outcomes: Seq<Outcome<G::State, N>>,
    i: nat,
    m: SearchModel<G::State, E::Feature, N>,
    branches: Seq<BranchModel<N>>,
)
    requires
        i <= outcomes.len(),
    ensures
        branched(ctx, mw, out_terminal, depth, pay, outcomes, i, m, branches) matches Ok((next, out))
            ==> {
            &&& next.agent == m.agent
            &&& out.len() == branches.len() + (outcomes.len() - i)
            &&& m.arena.len() <= next.arena.len()
            &&& forall|n: int|
                0 <= n < m.arena.len() ==> #[trigger] next.arena[n] == m.arena[n]
            &&& forall|b: int| 0 <= b < branches.len() ==> #[trigger] out[b] == branches[b]
        },
    decreases outcomes.len() - i,
{
    if i < outcomes.len() && m.arena.len() < crate::policy::MAX_ENUMERATED_OUTCOMES {
        let o = outcomes[i as int];
        let terminal = o.terminal || (out_terminal && ctx.game.spec_legal_actions(
            o.state,
            m.agent,
        ).len() == 0);
        let idx = m.arena.len() as usize;
        let below = (depth + 1) as i32;
        let next = if terminal {
            SearchModel {
                arena: m.arena.push(
                    super::tree::fresh_node(o.state, Seq::empty(), below, true),
                ),
                ..m
            }
        } else {
            SearchModel {
                arena: m.arena.push(
                    super::tree::fresh_node(
                        o.state,
                        ctx.enc.spec_encode(
                            o.state,
                            leaf_player(*ctx.game, ctx.cfg, o.state, m.agent),
                        ),
                        below,
                        false,
                    ),
                ),
                new_leaves: m.new_leaves.push(idx),
                ..m
            }
        };
        let mass = mw.fixed.spec_times(o.prob);
        let branch = BranchModel {
            weight: if mw.deferred.len() == 0 {
                mass
            } else {
                N::spec_zero()
            },
            deferred: mw.deferred,
            scale: if mw.deferred.len() == 0 {
                N::spec_one()
            } else {
                mass
            },
            reward: pay.spec_plus(o.reward),
            child: idx,
        };
        lemma_branched_keeps(
            ctx,
            mw,
            out_terminal,
            depth,
            pay,
            outcomes,
            i + 1,
            next,
            branches.push(branch),
        );
        if let Ok((end, out)) = branched(
            ctx,
            mw,
            out_terminal,
            depth,
            pay,
            outcomes,
            i,
            m,
            branches,
        ) {
            assert forall|n: int| 0 <= n < m.arena.len() implies #[trigger] end.arena[n]
                == m.arena[n] by {
                assert(next.arena[n] == m.arena[n]);
            }
            assert forall|b: int| 0 <= b < branches.len() implies #[trigger] out[b]
                == branches[b] by {
                assert(branches.push(branch)[b] == branches[b]);
            }
        }
    }
}

/// `b` is what the joint move may come to: a state that the game can be in after it, what the move
/// and the chance behind it pay the searcher, and how likely that is.
pub open spec fn follows<
    N: Scalar,
    G: Game<N>,
    E: StateEncoder<State = G::State>,
    W: Reward<N, Event = G::Event>,
>(
    ctx: Ctx<N, G, E, W>,
    agent: usize,
    state: G::State,
    joint: Seq<usize>,
    mw: MoveWeightModel<N>,
    out_terminal: bool,
    depth: i32,
    arena: Seq<NodeModel<G::State, E::Feature, N>>,
    b: BranchModel<N>,
) -> bool {
    let t = ctx.game.spec_step(state, joint);
    let pay = spec_edge_reward(*ctx.reward, t.events, agent);
    exists|o: Outcome<G::State, N>|
        #[trigger] settled_outcome(
            *ctx.game,
            *ctx.reward,
            ctx.cfg.chance,
            agent,
            t.next_state,
            t.terminal,
            o,
        ) && branches_to(ctx, agent, mw, out_terminal, depth, pay, o, arena, b)
}

/// Every branch of a joint move is what the move may come to. Where nothing is open about the
/// co-movers, the branches weigh together what the move weighs: none of it is lost to chance.
pub proof fn law_moves_branch_to_what_they_come_to<
    N: Scalar,
    G: Game<N>,
    E: StateEncoder<State = G::State>,
    W: Reward<N, Event = G::Event>,
>(
    ctx: Ctx<N, G, E, W>,
    m: SearchModel<G::State, E::Feature, N>,
    state: G::State,
    joint: Seq<usize>,
    mw: MoveWeightModel<N>,
    out_terminal: bool,
    depth: i32,
    branches: Seq<BranchModel<N>>,
)
    requires
        depth < i32::MAX,
    ensures
        spec_push_branches(ctx, m, state, joint, mw, out_terminal, depth, branches) matches Ok(
            (next, out),
        ) ==> {
            &&& next.agent == m.agent
            &&& m.arena.len() <= next.arena.len()
            &&& forall|n: int| 0 <= n < m.arena.len() ==> #[trigger] next.arena[n] == m.arena[n]
            &&& branches.len() <= out.len()
            &&& forall|b: int| 0 <= b < branches.len() ==> #[trigger] out[b] == branches[b]
            &&& forall|b: int|
                branches.len() <= b < out.len() ==> follows(
                    ctx,
                    m.agent,
                    state,
                    joint,
                    mw,
                    out_terminal,
                    depth,
                    next.arena,
                    #[trigger] out[b],
                )
            &&& ring::<N>() && fair::<N, G>(*ctx.game, ctx.cfg.chance) && mw.deferred.len() == 0
                ==> spec_sum(weights(out)) == spec_sum(weights(branches)).spec_plus(mw.fixed)
        },
{
    let t = ctx.game.spec_step(state, joint);
    if let Ok((next, out)) = spec_push_branches(
        ctx,
        m,
        state,
        joint,
        mw,
        out_terminal,
        depth,
        branches,
    ) {
        let pay = spec_edge_reward(*ctx.reward, t.events, m.agent);
        let (found, rng) = spec_chain_fan(
            *ctx.game,
            *ctx.reward,
            ctx.cfg.chance,
            m.agent,
            t.next_state,
            t.terminal,
            m.rng,
        );
        let outcomes = found->Ok_0;
        let start = SearchModel { rng, ..m };
        let first = branches.len();
        law_outcomes_come_by_chains(
            *ctx.game,
            *ctx.reward,
            ctx.cfg.chance,
            m.agent,
            t.next_state,
            t.terminal,
            m.rng,
        );
        lemma_branched_keeps(
            ctx,
            mw,
            out_terminal,
            depth,
            pay,
            outcomes,
            0,
            start,
            branches,
        );
        assert forall|b: int| first <= b < out.len() implies follows(
            ctx,
            m.agent,
            state,
            joint,
            mw,
            out_terminal,
            depth,
            next.arena,
            #[trigger] out[b],
        ) by {
            let j = b - first;
            lemma_branched(
                ctx,
                mw,
                out_terminal,
                depth,
                pay,
                outcomes,
                0,
                start,
                branches,
                first,
                j,
            );
            assert(settled_outcome(
                *ctx.game,
                *ctx.reward,
                ctx.cfg.chance,
                m.agent,
                t.next_state,
                t.terminal,
                outcomes[j],
            ));
        }
        if ring::<N>() && fair::<N, G>(*ctx.game, ctx.cfg.chance) && mw.deferred.len() == 0 {
            law_outcomes_add_up(
                *ctx.game,
                *ctx.reward,
                ctx.cfg.chance,
                m.agent,
                t.next_state,
                t.terminal,
                m.rng,
            );
            let scaled = odds(outcomes).map_values(|p: N| p.spec_times(mw.fixed));
            law_sum_scales(odds(outcomes), mw.fixed);
            law_ring(mw.fixed, mw.fixed, mw.fixed);
            assert(weights(out) =~= weights(branches) + scaled) by {
                assert forall|b: int| 0 <= b < out.len() implies weights(out)[b] == (weights(
                    branches,
                ) + scaled)[b] by {
                    if b < first {
                        assert(out[b] == branches[b]);
                    } else {
                        let j = b - first;
                        lemma_branched(
                            ctx,
                            mw,
                            out_terminal,
                            depth,
                            pay,
                            outcomes,
                            0,
                            start,
                            branches,
                            first,
                            j,
                        );
                        law_ring(mw.fixed, outcomes[j].prob, outcomes[j].prob);
                    }
                }
            }
            law_sum_runs(weights(branches), scaled);
        }
    }
}

/// An edge for a certain move: its branches are what the move may come to, and weigh one together.
pub open spec fn edge_of<
    N: Scalar,
    G: Game<N>,
    E: StateEncoder<State = G::State>,
    W: Reward<N, Event = G::Event>,
>(
    ctx: Ctx<N, G, E, W>,
    agent: usize,
    state: G::State,
    joint: Seq<usize>,
    depth: i32,
    arena: Seq<NodeModel<G::State, E::Feature, N>>,
    edge: Seq<BranchModel<N>>,
) -> bool {
    let sure = MoveWeightModel { fixed: N::spec_one(), deferred: Seq::empty() };
    &&& forall|b: int|
        0 <= b < edge.len() ==> follows(
            ctx,
            agent,
            state,
            joint,
            sure,
            false,
            depth,
            arena,
            #[trigger] edge[b],
        )
    &&& ring::<N>() && fair::<N, G>(*ctx.game, ctx.cfg.chance) ==> spec_sum(weights(edge))
        == N::spec_one()
}

proof fn lemma_edge_stays<
    N: Scalar,
    G: Game<N>,
    E: StateEncoder<State = G::State>,
    W: Reward<N, Event = G::Event>,
>(
    ctx: Ctx<N, G, E, W>,
    agent: usize,
    state: G::State,
    joint: Seq<usize>,
    depth: i32,
    a: Seq<NodeModel<G::State, E::Feature, N>>,
    b: Seq<NodeModel<G::State, E::Feature, N>>,
    edge: Seq<BranchModel<N>>,
)
    requires
        edge_of(ctx, agent, state, joint, depth, a, edge),
        a.len() <= b.len(),
        forall|n: int| 0 <= n < a.len() ==> #[trigger] b[n] == a[n],
    ensures
        edge_of(ctx, agent, state, joint, depth, b, edge),
{
    let sure = MoveWeightModel { fixed: N::spec_one(), deferred: Seq::empty() };
    let t = ctx.game.spec_step(state, joint);
    let pay = spec_edge_reward(*ctx.reward, t.events, agent);
    assert forall|i: int| 0 <= i < edge.len() implies follows(
        ctx,
        agent,
        state,
        joint,
        sure,
        false,
        depth,
        b,
        #[trigger] edge[i],
    ) by {
        assert(follows(ctx, agent, state, joint, sure, false, depth, a, edge[i]));
        let o = choose|o: Outcome<G::State, N>|
            #[trigger] settled_outcome(
                *ctx.game,
                *ctx.reward,
                ctx.cfg.chance,
                agent,
                t.next_state,
                t.terminal,
                o,
            ) && branches_to(ctx, agent, sure, false, depth, pay, o, a, edge[i]);
        assert(b[edge[i].child as int] == a[edge[i].child as int]);
        assert(branches_to(ctx, agent, sure, false, depth, pay, o, b, edge[i]));
    }
}

proof fn lemma_moved<
    N: Scalar,
    G: Game<N>,
    E: StateEncoder<State = G::State>,
    W: Reward<N, Event = G::Event>,
>(
    ctx: Ctx<N, G, E, W>,
    state: G::State,
    mover: usize,
    legal: Seq<usize>,
    depth: i32,
    i: nat,
    m: SearchModel<G::State, E::Feature, N>,
    edges: Seq<Seq<BranchModel<N>>>,
    j: int,
)
    requires
        depth < i32::MAX,
        i == edges.len() <= legal.len(),
        0 <= j < legal.len(),
        j < i ==> edge_of(
            ctx,
            m.agent,
            state,
            lone_move(ctx.game.spec_num_agents(), mover, legal[j]),
            depth,
            m.arena,
            edges[j],
        ),
    ensures
        moved(ctx, state, mover, legal, depth, i, m, edges) matches Ok((next, out)) ==> {
            &&& next.agent == m.agent
            &&& out.len() == legal.len()
            &&& edge_of(
                ctx,
                m.agent,
                state,
                lone_move(ctx.game.spec_num_agents(), mover, legal[j]),
                depth,
                next.arena,
                out[j],
            )
        },
    decreases legal.len() - i,
{
    if i < legal.len() {
        let joint = lone_move(ctx.game.spec_num_agents(), mover, legal[i as int]);
        let sure = MoveWeightModel { fixed: N::spec_one(), deferred: Seq::empty() };
        let none = Seq::<BranchModel<N>>::empty();
        law_moves_branch_to_what_they_come_to(ctx, m, state, joint, sure, false, depth, none);
        if let Ok((next, branches)) = spec_push_branches(
            ctx,
            m,
            state,
            joint,
            sure,
            false,
            depth,
            none,
        ) {
            if ring::<N>() && fair::<N, G>(*ctx.game, ctx.cfg.chance) {
                assert(weights(none) =~= Seq::empty());
                law_sum(Seq::<N>::empty(), N::spec_zero());
                law_ring(N::spec_one(), N::spec_zero(), N::spec_zero());
            }
            assert(edge_of(ctx, m.agent, state, joint, depth, next.arena, branches));
            if j < i {
                lemma_edge_stays(
                    ctx,
                    m.agent,
                    state,
                    lone_move(ctx.game.spec_num_agents(), mover, legal[j]),
                    depth,
                    m.arena,
                    next.arena,
                    edges[j],
                );
            }
            lemma_moved(
                ctx,
                state,
                mover,
                legal,
                depth,
                i + 1,
                next,
                edges.push(branches),
                j,
            );
        }
    }
}

/// A mover that chooses has an edge for each action, in their order: the states that the game takes
/// that action to, each with what the searcher is paid on the way, weighing one together.
pub proof fn law_actions_have_their_edges<
    N: Scalar,
    G: Game<N>,
    E: StateEncoder<State = G::State>,
    W: Reward<N, Event = G::Event>,
>(
    ctx: Ctx<N, G, E, W>,
    state: G::State,
    mover: usize,
    legal: Seq<usize>,
    depth: i32,
    m: SearchModel<G::State, E::Feature, N>,
    j: int,
)
    requires
        depth < i32::MAX,
        0 <= j < legal.len(),
    ensures
        moved(ctx, state, mover, legal, depth, 0, m, Seq::empty()) matches Ok((next, out)) ==> {
            &&& out.len() == legal.len()
            &&& edge_of(
                ctx,
                m.agent,
                state,
                lone_move(ctx.game.spec_num_agents(), mover, legal[j]),
                depth,
                next.arena,
                out[j],
            )
        },
{
    lemma_moved(ctx, state, mover, legal, depth, 0, m, Seq::empty(), j);
}

/// A mover that is not modelled plays each legal action as likely as the others, and its options weigh
/// one together; one that cannot move passes for certain.
pub proof fn law_unmodelled_movers_play_evenly<
    N: Scalar,
    G: Game<N>,
    E: StateEncoder<State = G::State>,
    W: Reward<N, Event = G::Event>,
>(
    ctx: Ctx<N, G, E, W>,
    m: SearchModel<G::State, E::Feature, N>,
    state: G::State,
    mover: usize,
)
    requires
        ring::<N>(),
        !(ctx.cfg.opponent is Distributional),
        counts::<N>(ctx.game.spec_legal_actions(state, mover).len()),
        ctx.game.spec_legal_actions(state, mover).len() > 0 ==> splits(
            N::spec_count(ctx.game.spec_legal_actions(state, mover).len() as u64),
        ),
    ensures
        ({
            let legal = ctx.game.spec_legal_actions(state, mover);
            let (options, next) = spec_agent_branching(ctx, m, state, mover);
            &&& next == m
            &&& spec_sum(options_weigh(options)) == N::spec_one()
            &&& legal.len() > 0 ==> options.len() == legal.len() && forall|i: int, j: int|
                0 <= i < legal.len() && 0 <= j < legal.len() ==> (#[trigger] options[i]).0
                    == legal[i] && options[i].1 == (#[trigger] options[j]).1
            &&& legal.len() == 0 ==> options.len() == 1 && options[0].0 == 0
        }),
{
    let legal = ctx.game.spec_legal_actions(state, mover);
    let (options, next) = spec_agent_branching(ctx, m, state, mover);
    let one = N::spec_one();
    if legal.len() == 0 {
        assert(options_weigh(options) =~= Seq::<N>::empty().push(one));
        law_sum(Seq::<N>::empty(), one);
        law_ring(one, one, one);
    } else {
        let n = N::spec_count(legal.len() as u64);
        law_sum_of_the_same(options_weigh(options), one.spec_over(n), legal.len());
        law_splits(n, one, one);
    }
}

/// A mover that is modelled is asked about: its row and its legal actions come behind those of the
/// movers before it, and the weight of each legal action is read at that action from its belief.
pub proof fn law_modelled_movers_are_asked_about<
    N: Scalar,
    G: Game<N>,
    E: StateEncoder<State = G::State>,
    W: Reward<N, Event = G::Event>,
>(
    ctx: Ctx<N, G, E, W>,
    m: SearchModel<G::State, E::Feature, N>,
    state: G::State,
    mover: usize,
    i: int,
)
    requires
        ctx.cfg.opponent is Distributional,
        0 <= i < ctx.game.spec_legal_actions(state, mover).len(),
        m.opp_obs.len() <= usize::MAX,
    ensures
        ({
            let legal = ctx.game.spec_legal_actions(state, mover);
            let (options, next) = spec_agent_branching(ctx, m, state, mover);
            &&& options.len() == legal.len()
            &&& options[i].0 == legal[i]
            &&& options[i].1 matches BranchWeight::Deferred(oi, si) && oi == m.opp_obs.len() && si
                == legal[i]
            &&& next.opp_obs.len() == m.opp_obs.len() + 1
            &&& next.opp_obs.drop_last() == m.opp_obs
            &&& next.opp_obs.last() == ctx.enc.spec_encode(state, mover)
            &&& next.opp_legal.drop_last() == m.opp_legal
            &&& next.opp_legal.last() == (mover, legal)
            &&& next.arena == m.arena
        }),
{
    let (options, next) = spec_agent_branching(ctx, m, state, mover);
    assert(next.opp_obs.drop_last() =~= m.opp_obs);
    assert(next.opp_legal.drop_last() =~= m.opp_legal);
}

/// What options are known to weigh.
pub open spec fn options_weigh<N: Scalar>(options: Seq<(usize, BranchWeight<N>)>) -> Seq<N> {
    options.map_values(
        |o: (usize, BranchWeight<N>)|
            match o.1 {
                BranchWeight::Fixed(p) => p,
                BranchWeight::Deferred(_, _) => N::spec_zero(),
            },
    )
}

} // verus!
