//! What chance comes to in a search tree: every outcome by its chain, with what it pays and how likely
//! it is; and what an edge leads to.

use vstd::prelude::*;

#[allow(unused_imports)]
use super::fan::{
    agent_rewards, fan_child, fan_children, fan_of, fan_unfolded, flattened, lemma_fan_unfolded,
    stack_rank, FanModel,
};
#[allow(unused_imports)]
use super::grow::{fan_probs, fan_seed, fan_seeds, link_move, spec_expand, Ctx};
#[allow(unused_imports)]
use super::guided::law_rewards_in_a_row_add_up;
#[allow(unused_imports)]
use super::leaves::commitments;
#[allow(unused_imports)]
use super::tree::{TreeMode, TreeModel};
#[allow(unused_imports)]
use crate::encoder::StateEncoder;
#[allow(unused_imports)]
use crate::fault::Fault;
#[allow(unused_imports)]
use crate::game::{silent_events, Actor, ChanceModel, Game, Rng};
#[allow(unused_imports)]
use crate::num::{law_ring, law_sum, law_sum_runs, law_sum_scales, ring, spec_sum, Scalar};
#[allow(unused_imports)]
use crate::policies::tree::expectimax::odds::fair;
#[allow(unused_imports)]
use crate::policies::tree::expectimax::plies::{chain_odds, chain_pays, ended, link_pay, reached};
#[allow(unused_imports)]
use crate::policy::ChanceMode;
#[allow(unused_imports)]
use crate::reward::{spec_edge_reward, Reward};
#[allow(unused_imports)]
use crate::util::spec_filled;

verus! {

/// What rewards pay agent `ag`; nothing where there are none.
pub open spec fn pay_of<N: Scalar>(rewards: Seq<N>, ag: usize) -> N {
    if rewards.len() == 0 {
        N::spec_zero()
    } else {
        rewards[ag as int]
    }
}

/// `w` is what the chain `links` behind `seed` comes to, seen by agent `ag`.
pub open spec fn leads<N: Scalar, G: Game<N>, W: Reward<N, Event = G::Event>>(
    game: G,
    reward: W,
    ag: usize,
    seed: FanModel<G::State, N>,
    links: Seq<usize>,
    w: FanModel<G::State, N>,
) -> bool {
    &&& w.state == reached(game, seed.state, links)
    &&& w.terminal == ended(game, seed.state, seed.terminal, links)
    &&& pay_of(w.rewards, ag) == pay_of(seed.rewards, ag).spec_plus(
        spec_sum(chain_pays(game, reward, ag, seed.state, links)),
    )
    &&& w.prob == seed.prob.spec_times(
        chain_odds(game, ChanceMode::ExpandAll, seed.state, links),
    )
}

/// Some chain behind one of the seeds comes to `w`.
pub open spec fn led<N: Scalar, G: Game<N>, W: Reward<N, Event = G::Event>>(
    game: G,
    reward: W,
    n: usize,
    ag: usize,
    seeds: Seq<FanModel<G::State, N>>,
    w: FanModel<G::State, N>,
) -> bool {
    &&& w.rewards.len() == 0 || w.rewards.len() == n
    &&& exists|s: int, links: Seq<usize>|
        0 <= s < seeds.len() && #[trigger] leads(game, reward, ag, seeds[s], links, w)
}

proof fn lemma_silent_pay<N: Scalar, W: Reward<N>>(
    reward: W,
    events: Seq<Option<W::Event>>,
    n: usize,
    ag: usize,
)
    requires
        ag < n,
        ag < events.len(),
    ensures
        agent_rewards(reward, events, n) matches Ok(r) ==> (r.len() == 0 || r.len() == n) && pay_of(
            r,
            ag,
        ) == spec_edge_reward(reward, events, ag),
{
    if silent_events(events) {
        assert(events[ag as int] is None);
    }
}

proof fn lemma_child<N: Scalar, G: Game<N>, W: Reward<N, Event = G::Event>>(
    game: G,
    reward: W,
    n: usize,
    ag: usize,
    seeds: Seq<FanModel<G::State, N>>,
    w: FanModel<G::State, N>,
    i: usize,
)
    requires
        ring::<N>(),
        ag < n,
        led(game, reward, n, ag, seeds, w),
        i < game.spec_chance_node(w.state).probs().len(),
        ag < game.spec_apply_chance_node(w.state, i).events.len(),
    ensures
        fan_child(
            game,
            reward,
            n,
            w,
            i,
            game.spec_chance_node(w.state).probs()[i as int],
        ) matches Ok(c) ==> led(game, reward, n, ag, seeds, c),
{
    let q = game.spec_chance_node(w.state).probs()[i as int];
    if let Ok(c) = fan_child(game, reward, n, w, i, q) {
        let t = game.spec_apply_chance_node(w.state, i);
        let more_rewards = agent_rewards(reward, t.events, n)->Ok_0;
        lemma_silent_pay(reward, t.events, n, ag);
        let (s, links) = choose|s: int, links: Seq<usize>|
            0 <= s < seeds.len() && #[trigger] leads(game, reward, ag, seeds[s], links, w);
        let seed = seeds[s];
        let more = links.push(i);
        assert(more.drop_last() =~= links);
        let pays = chain_pays(game, reward, ag, seed.state, links);
        let last = link_pay(game, reward, ag, seed.state, more);
        assert(more.take(more.len() as int) =~= more);
        let longer = chain_pays(game, reward, ag, seed.state, more);
        assert forall|k: int| 0 <= k < links.len() implies #[trigger] longer[k] == pays[k] by {
            assert(more.take(k + 1) =~= links.take(k + 1));
        }
        assert(longer =~= pays.push(last));
        law_sum(pays, last);
        let a = pay_of(seed.rewards, ag);
        let b = spec_sum(pays);
        law_ring(a, b, last);
        let zero = N::spec_zero();
        let p = pay_of(w.rewards, ag);
        law_ring(p, zero, zero);
        assert(pay_of(c.rewards, ag) == p.spec_plus(last)) by {
            if w.rewards.len() > 0 || more_rewards.len() > 0 {
                law_rewards_in_a_row_add_up(w.rewards, more_rewards, n as nat, ag as int);
            }
        }
        let o = chain_odds(game, ChanceMode::ExpandAll, seed.state, links);
        law_ring(seed.prob, o, q);
        assert(leads(game, reward, ag, seed, more, c));
    }
}

/// Every chance outcome has a slot for each of `n` agents.
pub open spec fn slotted<N: Scalar, G: Game<N>>(game: G, n: usize) -> bool {
    forall|s: G::State, i: usize|
        (#[trigger] game.spec_apply_chance_node(s, i)).events.len() >= n
}

/// Everything on the stack was led to.
pub open spec fn all_led<N: Scalar, G: Game<N>, W: Reward<N, Event = G::Event>>(
    game: G,
    reward: W,
    n: usize,
    ag: usize,
    seeds: Seq<FanModel<G::State, N>>,
    stack: Seq<FanModel<G::State, N>>,
) -> bool {
    forall|i: int| 0 <= i < stack.len() ==> led(game, reward, n, ag, seeds, #[trigger] stack[i])
}

proof fn lemma_children<N: Scalar, G: Game<N>, W: Reward<N, Event = G::Event>>(
    game: G,
    reward: W,
    n: usize,
    ag: usize,
    seeds: Seq<FanModel<G::State, N>>,
    w: FanModel<G::State, N>,
    i: nat,
    stack: Seq<FanModel<G::State, N>>,
)
    requires
        ring::<N>(),
        ag < n,
        slotted::<N, G>(game, n),
        game.spec_chance_node(w.state).probs().len() <= usize::MAX,
        led(game, reward, n, ag, seeds, w),
        all_led(game, reward, n, ag, seeds, stack),
    ensures
        fan_children(
            game,
            reward,
            n,
            w,
            game.spec_chance_node(w.state).probs(),
            i,
            stack,
        ) matches Ok(out) ==> all_led(game, reward, n, ag, seeds, out),
    decreases game.spec_chance_node(w.state).probs().len() - i,
{
    let probs = game.spec_chance_node(w.state).probs();
    if i < probs.len() {
        lemma_child(game, reward, n, ag, seeds, w, i as usize);
        if let Ok(c) = fan_child(game, reward, n, w, i as usize, probs[i as int]) {
            lemma_children(game, reward, n, ag, seeds, w, i + 1, stack.push(c));
        }
    }
}

proof fn lemma_flattened<N: Scalar, G: Game<N>, W: Reward<N, Event = G::Event>>(
    game: G,
    reward: W,
    n: usize,
    ag: usize,
    seeds: Seq<FanModel<G::State, N>>,
    leaves: Seq<FanModel<G::State, N>>,
    stack: Seq<FanModel<G::State, N>>,
    chained: bool,
)
    requires
        ring::<N>(),
        ag < n,
        slotted::<N, G>(game, n),
        all_led(game, reward, n, ag, seeds, leaves),
        all_led(game, reward, n, ag, seeds, stack),
        forall|i: int|
            0 <= i < leaves.len() ==> (#[trigger] leaves[i]).terminal || game.spec_actor(
                leaves[i].state,
            ) != Actor::Chance,
    ensures
        flattened(game, reward, n, leaves, stack, chained) matches Ok((out, _)) ==> all_led(
            game,
            reward,
            n,
            ag,
            seeds,
            out,
        ) && forall|i: int|
            0 <= i < out.len() ==> (#[trigger] out[i]).terminal || game.spec_actor(out[i].state)
                != Actor::Chance,
    decreases stack_rank(stack),
{
    if stack.len() > 0 {
        let w = stack.last();
        let rest = stack.drop_last();
        let top = stack.len() - 1;
        assert(led(game, reward, n, ag, seeds, stack[top]));
        assert forall|i: int| 0 <= i < rest.len() implies led(
            game,
            reward,
            n,
            ag,
            seeds,
            #[trigger] rest[i],
        ) by {
            assert(rest[i] == stack[i]);
        }
        if w.terminal || game.spec_actor(w.state) != Actor::Chance {
            crate::policies::tree::expectimax::fan::lemma_rank_positive(w.hops as nat);
            lemma_flattened(game, reward, n, ag, seeds, leaves.push(w), rest, chained);
        } else if w.hops < crate::game::CHANCE_CHAIN_LIMIT {
            lemma_fan_unfolded(game, reward, n, w, leaves.len(), rest);
            if let Ok(more) = fan_unfolded(game, reward, n, w, leaves.len(), rest) {
                lemma_children(game, reward, n, ag, seeds, w, 0, rest);
                lemma_flattened(game, reward, n, ag, seeds, leaves, more, true);
            }
        }
    }
}

/// Every outcome of a fan comes by a chain of chance outcomes behind one of its seeds: it is the state
/// that the chain leads to, pays each agent what the seed and the links pay it together, is as likely
/// as they are together, and is a decision or the game's end.
pub proof fn law_fans_come_by_chains<N: Scalar, G: Game<N>, W: Reward<N, Event = G::Event>>(
    game: G,
    reward: W,
    n: usize,
    ag: usize,
    seeds: Seq<FanModel<G::State, N>>,
)
    requires
        ring::<N>(),
        ag < n,
        slotted::<N, G>(game, n),
        forall|i: int|
            0 <= i < seeds.len() ==> (#[trigger] seeds[i]).rewards.len() == 0
                || seeds[i].rewards.len() == n,
    ensures
        fan_of(game, reward, n, seeds) matches Ok((out, _)) ==> forall|i: int|
            0 <= i < out.len() ==> led(game, reward, n, ag, seeds, #[trigger] out[i]) && (
            out[i].terminal || game.spec_actor(out[i].state) != Actor::Chance),
{
    let stack = seeds.reverse();
    let none = Seq::<usize>::empty();
    assert forall|i: int| 0 <= i < stack.len() implies led(
        game,
        reward,
        n,
        ag,
        seeds,
        #[trigger] stack[i],
    ) by {
        let s = seeds.len() - 1 - i;
        let seed = seeds[s];
        assert(stack[i] == seed);
        let pays = chain_pays(game, reward, ag, seed.state, none);
        assert(pays =~= Seq::empty());
        law_sum(pays, N::spec_zero());
        law_ring(pay_of(seed.rewards, ag), N::spec_zero(), N::spec_zero());
        law_ring(seed.prob, seed.prob, seed.prob);
        assert(leads(game, reward, ag, seeds[s], none, stack[i]));
    }
    lemma_flattened(game, reward, n, ag, seeds, Seq::empty(), stack, false);
}

proof fn lemma_children_mass<N: Scalar, G: Game<N>, W: Reward<N, Event = G::Event>>(
    game: G,
    reward: W,
    n: usize,
    w: FanModel<G::State, N>,
    probs: Seq<N>,
    i: nat,
    rest: Seq<FanModel<G::State, N>>,
    stack: Seq<FanModel<G::State, N>>,
)
    requires
        ring::<N>(),
        spec_sum(probs) == N::spec_one(),
        i <= probs.len(),
        fan_probs(stack) == fan_probs(rest) + probs.take(i as int).map_values(
            |p: N| p.spec_times(w.prob),
        ),
    ensures
        fan_children(game, reward, n, w, probs, i, stack) matches Ok(out) ==> spec_sum(
            fan_probs(out),
        ) == spec_sum(fan_probs(rest)).spec_plus(w.prob),
    decreases probs.len() - i,
{
    let f = |p: N| p.spec_times(w.prob);
    if i < probs.len() {
        let p = probs[i as int];
        law_ring(w.prob, p, p);
        if let Ok(c) = fan_child(game, reward, n, w, i as usize, p) {
            let so_far = probs.take(i as int).map_values(f);
            assert(fan_probs(stack.push(c)) =~= fan_probs(stack).push(w.prob.spec_times(p)));
            assert(probs.take((i + 1) as int) =~= probs.take(i as int).push(p));
            assert(probs.take((i + 1) as int).map_values(f) =~= so_far.push(p.spec_times(w.prob)));
            assert(fan_probs(stack).push(w.prob.spec_times(p)) =~= fan_probs(rest) + so_far.push(
                p.spec_times(w.prob),
            ));
            lemma_children_mass(game, reward, n, w, probs, i + 1, rest, stack.push(c));
        }
    } else {
        assert(probs.take(i as int) =~= probs);
        law_sum_scales(probs, w.prob);
        law_ring(w.prob, w.prob, w.prob);
        law_sum_runs(fan_probs(rest), probs.map_values(f));
    }
}

proof fn lemma_flattened_mass<N: Scalar, G: Game<N>, W: Reward<N, Event = G::Event>>(
    game: G,
    reward: W,
    n: usize,
    leaves: Seq<FanModel<G::State, N>>,
    stack: Seq<FanModel<G::State, N>>,
    chained: bool,
)
    requires
        ring::<N>(),
        fair::<N, G>(game, ChanceMode::ExpandAll),
    ensures
        flattened(game, reward, n, leaves, stack, chained) matches Ok((out, _)) ==> spec_sum(
            fan_probs(out),
        ) == spec_sum(fan_probs(leaves)).spec_plus(spec_sum(fan_probs(stack))),
    decreases stack_rank(stack),
{
    if stack.len() == 0 {
        assert(fan_probs(stack) =~= Seq::empty());
        law_sum(Seq::<N>::empty(), N::spec_zero());
        law_ring(spec_sum(fan_probs(leaves)), N::spec_zero(), N::spec_zero());
    } else {
        let w = stack.last();
        let rest = stack.drop_last();
        assert(fan_probs(stack) =~= fan_probs(rest).push(w.prob));
        law_sum(fan_probs(rest), w.prob);
        if w.terminal || game.spec_actor(w.state) != Actor::Chance {
            crate::policies::tree::expectimax::fan::lemma_rank_positive(w.hops as nat);
            lemma_flattened_mass(game, reward, n, leaves.push(w), rest, chained);
            assert(fan_probs(leaves.push(w)) =~= fan_probs(leaves).push(w.prob));
            law_sum(fan_probs(leaves), w.prob);
            let (a, b) = (spec_sum(fan_probs(leaves)), spec_sum(fan_probs(rest)));
            law_ring(a, w.prob, b);
            law_ring(w.prob, b, b);
        } else if w.hops < crate::game::CHANCE_CHAIN_LIMIT {
            lemma_fan_unfolded(game, reward, n, w, leaves.len(), rest);
            if let Ok(more) = fan_unfolded(game, reward, n, w, leaves.len(), rest) {
                let probs = game.spec_chance_node(w.state).probs();
                assert(fan_probs(rest) =~= fan_probs(rest) + probs.take(0).map_values(
                    |p: N| p.spec_times(w.prob),
                ));
                lemma_children_mass(game, reward, n, w, probs, 0, rest, rest);
                lemma_flattened_mass(game, reward, n, leaves, more, true);
            }
        }
    }
}

proof fn lemma_seeds<N: Scalar, G: Game<N>, W: Reward<N, Event = G::Event>>(
    game: G,
    reward: W,
    n: usize,
    state: G::State,
    probs: Seq<N>,
    i: nat,
    acc: Seq<FanModel<G::State, N>>,
    j: int,
)
    requires
        i == acc.len() <= probs.len() <= usize::MAX,
        0 <= j < probs.len(),
        j < i ==> fan_seed(game, reward, n, state, j as usize, probs[j]) == Ok::<_, Fault>(acc[j]),
    ensures
        fan_seeds(game, reward, n, state, probs, i, acc) matches Ok(out) ==> out.len()
            == probs.len() && fan_seed(game, reward, n, state, j as usize, probs[j]) == Ok::<
            _,
            Fault,
        >(out[j]),
    decreases probs.len() - i,
{
    if i < probs.len() {
        if let Ok(seed) = fan_seed(game, reward, n, state, i as usize, probs[i as int]) {
            lemma_seeds(game, reward, n, state, probs, i + 1, acc.push(seed), j);
        }
    }
}

/// The outcomes of a chance node, as a fan begins: each is the state that the outcome leads to, as
/// likely as the node says; and the whole fan weighs what they weigh, one where the node's outcomes
/// do: nothing is lost to chains of chance.
pub proof fn law_fans_add_up<N: Scalar, G: Game<N>, W: Reward<N, Event = G::Event>>(
    game: G,
    reward: W,
    n: usize,
    state: G::State,
    probs: Seq<N>,
    j: int,
)
    requires
        ring::<N>(),
        fair::<N, G>(game, ChanceMode::ExpandAll),
        spec_sum(probs) == N::spec_one(),
        probs.len() <= usize::MAX,
        0 <= j < probs.len(),
    ensures
        fan_seeds(game, reward, n, state, probs, 0, Seq::empty()) matches Ok(seeds) ==> {
            let t = game.spec_apply_chance_node(state, j as usize);
            &&& seeds.len() == probs.len()
            &&& seeds[j].state == t.next_state
            &&& seeds[j].terminal == t.terminal
            &&& seeds[j].prob == probs[j]
            &&& fan_of(game, reward, n, seeds) matches Ok((out, _)) ==> spec_sum(fan_probs(out))
                == N::spec_one()
        },
{
    lemma_seeds(game, reward, n, state, probs, 0, Seq::empty(), j);
    if let Ok(seeds) = fan_seeds(game, reward, n, state, probs, 0, Seq::empty()) {
        let stack = seeds.reverse();
        let none = Seq::<FanModel<G::State, N>>::empty();
        lemma_flattened_mass(game, reward, n, none, stack, false);
        assert(fan_probs(none) =~= Seq::empty());
        law_sum(Seq::<N>::empty(), N::spec_zero());
        assert(fan_probs(seeds) =~= probs) by {
            assert forall|k: int| 0 <= k < probs.len() implies fan_probs(seeds)[k] == probs[k] by {
                lemma_seeds(game, reward, n, state, probs, 0, Seq::empty(), k);
            }
        }
        lemma_sum_backwards(probs);
        assert(fan_probs(stack) =~= probs.reverse());
        law_ring(spec_sum(probs), N::spec_zero(), N::spec_zero());
    }
}

/// A sum does not depend on which end it starts from.
proof fn lemma_sum_backwards<N: Scalar>(xs: Seq<N>)
    requires
        ring::<N>(),
    ensures
        spec_sum(xs.reverse()) == spec_sum(xs),
    decreases xs.len(),
{
    if xs.len() > 0 {
        let short = xs.drop_last();
        let x = xs.last();
        lemma_sum_backwards(short);
        assert(xs.reverse() =~= seq![x] + short.reverse());
        crate::num::law_sum_first(x, short.reverse());
        assert(xs =~= short.push(x));
        law_sum(short, x);
        law_ring(x, spec_sum(short), x);
    } else {
        assert(xs.reverse() =~= xs);
    }
}

/// A chance node that commits draws as many outcomes as it is told to, one after the other, and each is
/// one of its own.
pub proof fn law_commitments_are_draws<N: Scalar, R: Rng<N>>(
    dist: ChanceModel<N>,
    k: nat,
    j: nat,
    list: Seq<usize>,
    rng: R,
)
    requires
        j <= k,
        0 < dist.count() <= usize::MAX,
    ensures
        commitments(dist, k, j, list, rng).0 matches Ok(out) ==> {
            &&& out.len() == list.len() + (k - j)
            &&& out.take(list.len() as int) == list
            &&& forall|i: int|
                list.len() <= i < out.len() ==> #[trigger] out[i] < dist.count()
            &&& j < k ==> out[list.len() as int] == dist.pick(rng.spec_unit().0)
        },
    decreases k - j,
{
    if j < k {
        let (drawn, after) = dist.drawn(rng);
        if let Ok(outcome) = drawn {
            crate::game::law_pick_in_range(dist, rng.spec_unit().0);
            let more = list.push(outcome);
            law_commitments_are_draws(dist, k, j + 1, more, after);
            if let Ok(out) = commitments(dist, k, j, list, rng).0 {
                let n = list.len() as int;
                assert(out.take(n + 1)[n] == outcome);
                assert(out.take(n) =~= out.take(n + 1).take(n));
                assert(more.take(n) =~= list);
            }
        }
    } else {
        assert(list.take(list.len() as int) =~= list);
    }
}

/// Taking an edge for the first time adds the node that the game takes the move to, one ply deeper
/// where it is no chance node, and keeps on the link what the move pays: its mover in a two-agent
/// tree, everyone otherwise. No other node changes.
pub proof fn law_edges_lead_where_the_game_goes<
    N: Scalar,
    G: Game<N>,
    E: StateEncoder<State = G::State>,
    W: Reward<N, Event = G::Event>,
>(
    ctx: Ctx<N, G, E, W>,
    m: TreeModel<G::State, E::Feature, N>,
    ni: int,
    js: usize,
    ag: int,
    other: int,
)
    requires
        0 <= ni < m.arena.len() < usize::MAX,
        0 <= other < m.arena.len(),
        other != ni,
        0 <= ag < m.n_agents,
    ensures
        spec_expand(ctx, m, ni, js) matches Ok((e, next)) ==> !(e is Fan) ==> {
            let node = m.arena[ni];
            let joint = link_move(
                node.tables,
                node.tables.len(),
                js as nat,
                spec_filled(0usize, ctx.game.spec_num_agents() as nat),
            );
            let t = ctx.game.spec_step(node.state, joint->Ok_0);
            let idx = m.arena.len();
            let child = next.arena[idx as int];
            let link = next.arena[ni].links[js as int];
            &&& joint is Ok
            &&& next.arena.len() == idx + 1
            &&& next.arena[other] == m.arena[other]
            &&& next.arena[ni].tables == node.tables
            &&& next.arena[ni].state == node.state
            &&& link.child == Some(idx as usize)
            &&& m.mode == TreeMode::SeqNegamax ==> link.rewards == seq![
                spec_edge_reward(*ctx.reward, t.events, node.actor),
            ]
            &&& m.mode != TreeMode::SeqNegamax ==> link.rewards.len() == m.n_agents
                && link.rewards[ag] == spec_edge_reward(*ctx.reward, t.events, ag as usize)
            &&& child.state == t.next_state
            &&& child.terminal == t.terminal
            &&& !(child.kind is Chance) ==> child.depth == node.depth + 1
            &&& child.kind is Chance ==> child.depth == node.depth && !t.terminal
                && ctx.game.spec_actor(t.next_state) == Actor::Chance
            &&& !t.terminal ==> (ctx.game.spec_actor(t.next_state) matches Actor::Agent(x)
                ==> child.actor == x)
            &&& child.chance_in.len() == 0
        },
{
    let node = m.arena[ni];
    if let Ok((e, next)) = spec_expand(ctx, m, ni, js) {
        if !(e is Fan) {
            let idx = m.arena.len() as int;
            assert(next.arena[other] == m.arena[other]);
        }
    }
}

} // verus!
