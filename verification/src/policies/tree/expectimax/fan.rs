//! A transition's chance chain flattened to its outcomes.

use vstd::prelude::*;

use crate::fault::Fault;
use crate::game::{Actor, Game, Rng, CHANCE_CHAIN_LIMIT};
use crate::num::Scalar;
use crate::policy::{ChanceMode, MAX_ENUMERATED_OUTCOMES};
use crate::reward::{edge_reward, Reward};
#[allow(unused_imports)]
use crate::reward::spec_edge_reward;

verus! {

/// One way a chain can end: the state, its probability, and the rewards met on the chain.
pub struct Outcome<S, N> {
    pub state: S,
    pub prob: N,
    pub reward: N,
    pub terminal: bool,
}

/// A state on the way, `hops` chance edges down the chain.
pub struct Pending<S, N> {
    pub state: S,
    pub prob: N,
    pub reward: N,
    pub terminal: bool,
    pub hops: usize,
}

/// An edge's reward for `agent`; a fault where the edge has no slot for it.
pub open spec fn spec_scored<N: Scalar, W: Reward<N>>(
    reward: W,
    events: Seq<Option<W::Event>>,
    agent: usize,
) -> Result<N, Fault> {
    if agent < events.len() {
        Ok(spec_edge_reward(reward, events, agent))
    } else {
        Err(Fault::EventArity)
    }
}

/// Scores an edge for `agent`.
pub fn scored<N: Scalar, W: Reward<N>>(
    reward: &W,
    events: &[Option<W::Event>],
    agent: usize,
) -> (r: Result<N, Fault>)
    ensures
        r == spec_scored(*reward, events@, agent),
{
    if agent < events.len() {
        Ok(edge_reward(reward, events, agent))
    } else {
        Err(Fault::EventArity)
    }
}

/// What outcome `outcome` of the chance state `w` leads to.
pub open spec fn child<N: Scalar, G: Game<N>, W: Reward<N, Event = G::Event>>(
    game: G,
    reward: W,
    agent: usize,
    w: Pending<G::State, N>,
    outcome: usize,
    prob: N,
) -> Result<Pending<G::State, N>, Fault> {
    let t = game.spec_apply_chance_node(w.state, outcome);
    match spec_scored(reward, t.events, agent) {
        Ok(er) => Ok(
            Pending {
                state: t.next_state,
                prob,
                reward: w.reward.spec_plus(er),
                terminal: t.terminal,
                hops: (w.hops + 1) as usize,
            },
        ),
        Err(f) => Err(f),
    }
}

fn reach<N: Scalar, G: Game<N>, W: Reward<N, Event = G::Event>>(
    game: &G,
    reward: &W,
    agent: usize,
    w: &Pending<G::State, N>,
    outcome: usize,
    prob: N,
) -> (r: Result<Pending<G::State, N>, Fault>)
    requires
        game.spec_actor(w.state) == Actor::Chance,
        w.hops < CHANCE_CHAIN_LIMIT,
    ensures
        r == child(*game, *reward, agent, *w, outcome, prob),
{
    let t = game.apply_chance_node(&w.state, outcome);
    match scored(reward, &t.events, agent) {
        Ok(er) => Ok(
            Pending {
                state: t.next_state,
                prob,
                reward: w.reward.plus(er),
                terminal: t.terminal,
                hops: w.hops + 1,
            },
        ),
        Err(f) => Err(f),
    }
}

/// `work` with the children of `w` from the `j`-th of `k` draws on, each as likely as the others.
pub open spec fn sampled<N: Scalar, G: Game<N>, W: Reward<N, Event = G::Event>, R: Rng<N>>(
    game: G,
    reward: W,
    agent: usize,
    w: Pending<G::State, N>,
    k: usize,
    j: nat,
    work: Seq<Pending<G::State, N>>,
    rng: R,
) -> (Result<Seq<Pending<G::State, N>>, Fault>, R)
    decreases k - j,
{
    if j >= k {
        (Ok(work), rng)
    } else {
        let (drawn, after) = game.spec_chance_node(w.state).drawn(rng);
        match drawn {
            Err(f) => (Err(f), after),
            Ok(outcome) => match child(
                game,
                reward,
                agent,
                w,
                outcome,
                w.prob.spec_over(N::spec_count(k as u64)),
            ) {
                Err(f) => (Err(f), after),
                Ok(c) => sampled(game, reward, agent, w, k, j + 1, work.push(c), after),
            },
        }
    }
}

/// `work` with the children of `w` from outcome `j` on, each as likely as `probs` says.
pub open spec fn enumerated<N: Scalar, G: Game<N>, W: Reward<N, Event = G::Event>>(
    game: G,
    reward: W,
    agent: usize,
    w: Pending<G::State, N>,
    probs: Seq<N>,
    j: nat,
    work: Seq<Pending<G::State, N>>,
) -> Result<Seq<Pending<G::State, N>>, Fault>
    decreases probs.len() - j,
{
    if j >= probs.len() {
        Ok(work)
    } else {
        match child(game, reward, agent, w, j as usize, w.prob.spec_times(probs[j as int])) {
            Err(f) => Err(f),
            Ok(c) => enumerated(game, reward, agent, w, probs, j + 1, work.push(c)),
        }
    }
}

/// How much a state `hops` down a chain can still unfold, at most.
pub open spec fn rank(hops: nat) -> nat
    decreases CHANCE_CHAIN_LIMIT - hops,
{
    if hops >= CHANCE_CHAIN_LIMIT {
        1
    } else {
        1 + MAX_ENUMERATED_OUTCOMES as nat * rank(hops + 1)
    }
}

/// How much all of `work` can still unfold.
pub open spec fn total_rank<S, N>(work: Seq<Pending<S, N>>) -> nat
    decreases work.len(),
{
    if work.len() == 0 {
        0
    } else {
        total_rank(work.drop_last()) + rank(work.last().hops as nat)
    }
}

/// Nothing unfolds to less than itself.
pub proof fn lemma_rank_positive(hops: nat)
    ensures
        rank(hops) > 0,
{
    assert(0 <= MAX_ENUMERATED_OUTCOMES as nat * rank(hops + 1)) by (nonlinear_arith);
}

proof fn lemma_sampled<N: Scalar, G: Game<N>, W: Reward<N, Event = G::Event>, R: Rng<N>>(
    game: G,
    reward: W,
    agent: usize,
    w: Pending<G::State, N>,
    k: usize,
    j: nat,
    work: Seq<Pending<G::State, N>>,
    rng: R,
)
    requires
        w.hops < CHANCE_CHAIN_LIMIT,
        j <= k,
    ensures
        sampled(game, reward, agent, w, k, j, work, rng).0 matches Ok(out) ==> {
            &&& out.len() == work.len() + (k - j)
            &&& total_rank(out) == total_rank(work) + (k - j) * rank(w.hops as nat + 1)
        },
    decreases k - j,
{
    let unit = rank(w.hops as nat + 1);
    if j < k {
        let (drawn, after) = game.spec_chance_node(w.state).drawn(rng);
        if let Ok(outcome) = drawn {
            let made = child(
                game,
                reward,
                agent,
                w,
                outcome,
                w.prob.spec_over(N::spec_count(k as u64)),
            );
            if let Ok(c) = made {
                lemma_sampled(game, reward, agent, w, k, j + 1, work.push(c), after);
                assert(work.push(c).drop_last() =~= work);
                assert((k - j) * unit == (k - j - 1) * unit + unit) by (nonlinear_arith);
            }
        }
    } else {
        assert((k - j) * unit == 0) by (nonlinear_arith)
            requires
                k - j == 0,
        ;
    }
}

proof fn lemma_enumerated<N: Scalar, G: Game<N>, W: Reward<N, Event = G::Event>>(
    game: G,
    reward: W,
    agent: usize,
    w: Pending<G::State, N>,
    probs: Seq<N>,
    j: nat,
    work: Seq<Pending<G::State, N>>,
)
    requires
        w.hops < CHANCE_CHAIN_LIMIT,
        j <= probs.len(),
    ensures
        enumerated(game, reward, agent, w, probs, j, work) matches Ok(out) ==> {
            &&& out.len() == work.len() + (probs.len() - j)
            &&& total_rank(out) == total_rank(work) + (probs.len() - j) * rank(w.hops as nat + 1)
        },
    decreases probs.len() - j,
{
    let unit = rank(w.hops as nat + 1);
    let n = probs.len();
    if j < n {
        let made = child(
            game,
            reward,
            agent,
            w,
            j as usize,
            w.prob.spec_times(probs[j as int]),
        );
        if let Ok(c) = made {
            lemma_enumerated(game, reward, agent, w, probs, j + 1, work.push(c));
            assert(work.push(c).drop_last() =~= work);
            assert((n - j) * unit == (n - j - 1) * unit + unit) by (nonlinear_arith);
        }
    } else {
        assert((n - j) * unit == 0) by (nonlinear_arith)
            requires
                n - j == 0,
        ;
    }
}

/// What a chance state unfolds to ranks below it.
pub proof fn lemma_unfold(k: nat, hops: nat)
    requires
        k <= MAX_ENUMERATED_OUTCOMES,
        hops < CHANCE_CHAIN_LIMIT,
    ensures
        k * rank(hops + 1) < rank(hops),
{
    let unit = rank(hops + 1);
    assert(k * unit <= MAX_ENUMERATED_OUTCOMES as nat * unit) by (nonlinear_arith)
        requires
            k <= MAX_ENUMERATED_OUTCOMES,
    ;
}

/// How many outcomes a sampling mode commits to.
pub open spec fn committed(samples: usize) -> usize {
    if samples == 0 {
        1
    } else {
        samples
    }
}

/// The children of a chance state that `chance` asks for, on top of `rest`.
pub open spec fn unfolded<N: Scalar, G: Game<N>, W: Reward<N, Event = G::Event>, R: Rng<N>>(
    game: G,
    reward: W,
    chance: ChanceMode,
    agent: usize,
    w: Pending<G::State, N>,
    resolved: nat,
    rest: Seq<Pending<G::State, N>>,
    rng: R,
) -> (Result<Seq<Pending<G::State, N>>, Fault>, R) {
    let dist = game.spec_chance_node(w.state);
    match chance {
        ChanceMode::Committed { samples } => {
            if resolved + rest.len() + committed(samples) > MAX_ENUMERATED_OUTCOMES {
                (Err(Fault::FanLimit), rng)
            } else {
                sampled(game, reward, agent, w, committed(samples), 0, rest, rng)
            }
        },
        ChanceMode::ExpandAll => {
            if resolved + rest.len() + dist.count() > MAX_ENUMERATED_OUTCOMES {
                (Err(Fault::FanLimit), rng)
            } else if !dist.sound() {
                (Err(Fault::WeightTotal), rng)
            } else {
                (enumerated(game, reward, agent, w, dist.probs(), 0, rest), rng)
            }
        },
        ChanceMode::AlwaysResample => (Err(Fault::ChanceMode), rng),
    }
}

/// Unfolding a chance state leaves less to unfold.
pub proof fn lemma_unfolded<N: Scalar, G: Game<N>, W: Reward<N, Event = G::Event>, R: Rng<N>>(
    game: G,
    reward: W,
    chance: ChanceMode,
    agent: usize,
    w: Pending<G::State, N>,
    resolved: nat,
    rest: Seq<Pending<G::State, N>>,
    rng: R,
)
    requires
        w.hops < CHANCE_CHAIN_LIMIT,
    ensures
        unfolded(game, reward, chance, agent, w, resolved, rest, rng).0 matches Ok(out) ==> {
            &&& resolved + out.len() <= MAX_ENUMERATED_OUTCOMES
            &&& total_rank(out) < total_rank(rest) + rank(w.hops as nat)
        },
{
    let dist = game.spec_chance_node(w.state);
    match chance {
        ChanceMode::Committed { samples } => {
            let k = committed(samples);
            if resolved + rest.len() + k <= MAX_ENUMERATED_OUTCOMES {
                lemma_sampled(game, reward, agent, w, k, 0, rest, rng);
                lemma_unfold(k as nat, w.hops as nat);
            }
        },
        ChanceMode::ExpandAll => {
            if resolved + rest.len() + dist.count() <= MAX_ENUMERATED_OUTCOMES {
                lemma_enumerated(game, reward, agent, w, dist.probs(), 0, rest);
                lemma_unfold(dist.count(), w.hops as nat);
            }
        },
        ChanceMode::AlwaysResample => {},
    }
}

/// The outcomes behind `work`, the last of it first, on top of those `resolved`.
pub open spec fn fan<N: Scalar, G: Game<N>, W: Reward<N, Event = G::Event>, R: Rng<N>>(
    game: G,
    reward: W,
    chance: ChanceMode,
    agent: usize,
    resolved: Seq<Outcome<G::State, N>>,
    work: Seq<Pending<G::State, N>>,
    rng: R,
) -> (Result<Seq<Outcome<G::State, N>>, Fault>, R)
    decreases total_rank(work),
{
    if work.len() == 0 {
        (Ok(resolved), rng)
    } else {
        let w = work.last();
        let rest = work.drop_last();
        if w.terminal || game.spec_actor(w.state) != Actor::Chance {
            proof {
                lemma_rank_positive(w.hops as nat);
            }
            fan(
                game,
                reward,
                chance,
                agent,
                resolved.push(
                    Outcome { state: w.state, prob: w.prob, reward: w.reward, terminal: w.terminal },
                ),
                rest,
                rng,
            )
        } else if w.hops >= CHANCE_CHAIN_LIMIT {
            (Err(Fault::ChainLimit), rng)
        } else {
            let (next, after) = unfolded(
                game,
                reward,
                chance,
                agent,
                w,
                resolved.len(),
                rest,
                rng,
            );
            proof {
                lemma_unfolded(game, reward, chance, agent, w, resolved.len(), rest, rng);
            }
            match next {
                Err(f) => (Err(f), after),
                Ok(more) => fan(game, reward, chance, agent, resolved, more, after),
            }
        }
    }
}

/// The outcomes of a transition to `state`: its whole chance chain is one ply.
pub open spec fn spec_chain_fan<N: Scalar, G: Game<N>, W: Reward<N, Event = G::Event>, R: Rng<N>>(
    game: G,
    reward: W,
    chance: ChanceMode,
    agent: usize,
    state: G::State,
    terminal: bool,
    rng: R,
) -> (Result<Seq<Outcome<G::State, N>>, Fault>, R) {
    let start = Pending {
        state,
        prob: N::spec_one(),
        reward: N::spec_zero(),
        terminal,
        hops: 0,
    };
    fan(game, reward, chance, agent, Seq::empty(), seq![start], rng)
}

#[verifier::loop_isolation(false)]
fn unfold<N: Scalar, G: Game<N>, W: Reward<N, Event = G::Event>, R: Rng<N>>(
    game: &G,
    reward: &W,
    chance: ChanceMode,
    agent: usize,
    w: &Pending<G::State, N>,
    resolved: usize,
    work: &mut Vec<Pending<G::State, N>>,
    rng: &mut R,
) -> (r: Result<(), Fault>)
    requires
        game.spec_actor(w.state) == Actor::Chance,
        w.hops < CHANCE_CHAIN_LIMIT,
        resolved + old(work)@.len() <= MAX_ENUMERATED_OUTCOMES,
    ensures
        match r {
            Ok(_) => unfolded(
                *game,
                *reward,
                chance,
                agent,
                *w,
                resolved as nat,
                old(work)@,
                *old(rng),
            ) == (Ok::<_, Fault>(final(work)@), *final(rng)),
            Err(f) => unfolded(
                *game,
                *reward,
                chance,
                agent,
                *w,
                resolved as nat,
                old(work)@,
                *old(rng),
            ) == (Err::<Seq<Pending<G::State, N>>, _>(f), *final(rng)),
        },
{
    let dist = game.chance_node(&w.state);
    let ghost goal = unfolded(
        *game,
        *reward,
        chance,
        agent,
        *w,
        resolved as nat,
        old(work)@,
        *old(rng),
    );
    let room = MAX_ENUMERATED_OUTCOMES - resolved - work.len();
    match chance {
        ChanceMode::Committed { samples } => {
            let k: usize = if samples == 0 {
                1
            } else {
                samples
            };
            if k > room {
                return Err(Fault::FanLimit);
            }
            let share = w.prob.over(N::count(k as u64));
            let mut j: usize = 0;
            while j < k
                invariant
                    j <= k,
                    game.spec_actor(w.state) == Actor::Chance,
                    w.hops < CHANCE_CHAIN_LIMIT,
                    dist@ == game.spec_chance_node(w.state),
                    share == w.prob.spec_over(N::spec_count(k as u64)),
                    sampled(*game, *reward, agent, *w, k, j as nat, work@, *rng) == goal,
                decreases k - j,
            {
                let outcome = match dist.draw(rng) {
                    Ok(outcome) => outcome,
                    Err(f) => return Err(f),
                };
                match reach(game, reward, agent, w, outcome, share) {
                    Ok(c) => work.push(c),
                    Err(f) => return Err(f),
                }
                j = j + 1;
            }
            Ok(())
        },
        ChanceMode::ExpandAll => {
            if dist.count() > room {
                return Err(Fault::FanLimit);
            }
            let probs = match dist.iter_probs() {
                Ok(probs) => probs,
                Err(f) => return Err(f),
            };
            let mut j: usize = 0;
            while j < probs.len()
                invariant
                    j <= probs@.len(),
                    game.spec_actor(w.state) == Actor::Chance,
                    w.hops < CHANCE_CHAIN_LIMIT,
                    *rng == *old(rng),
                    (enumerated(*game, *reward, agent, *w, probs@, j as nat, work@), *rng) == goal,
                decreases probs.len() - j,
            {
                match reach(game, reward, agent, w, j, w.prob.times(probs[j])) {
                    Ok(c) => work.push(c),
                    Err(f) => return Err(f),
                }
                j = j + 1;
            }
            Ok(())
        },
        ChanceMode::AlwaysResample => Err(Fault::ChanceMode),
    }
}

/// Flattens the chance chain behind a transition.
#[verifier::loop_isolation(false)]
pub fn chain_fan<N: Scalar, G: Game<N>, W: Reward<N, Event = G::Event>, R: Rng<N>>(
    game: &G,
    reward: &W,
    chance: ChanceMode,
    agent: usize,
    state: G::State,
    terminal: bool,
    rng: &mut R,
) -> (r: Result<Vec<Outcome<G::State, N>>, Fault>)
    ensures
        (crate::util::viewed(r), *final(rng)) == spec_chain_fan(
            *game,
            *reward,
            chance,
            agent,
            state,
            terminal,
            *old(rng),
        ),
        r matches Ok(out) ==> out@.len() <= MAX_ENUMERATED_OUTCOMES,
{
    let mut resolved: Vec<Outcome<G::State, N>> = Vec::new();
    let mut work: Vec<Pending<G::State, N>> = Vec::new();
    let ghost goal = spec_chain_fan(*game, *reward, chance, agent, state, terminal, *old(rng));
    work.push(Pending { state, prob: N::one(), reward: N::zero(), terminal, hops: 0 });
    assert(work@ =~= seq![work@[0]]);
    while work.len() > 0
        invariant
            resolved@.len() + work@.len() <= MAX_ENUMERATED_OUTCOMES,
            fan(*game, *reward, chance, agent, resolved@, work@, *rng) == goal,
        decreases total_rank(work@),
    {
        let ghost before = work@;
        let w = work.pop().unwrap();
        assert(work@ =~= before.drop_last());
        assert(w == before.last());
        proof {
            lemma_rank_positive(w.hops as nat);
        }
        let chance_due = matches!(game.actor(&w.state), Actor::Chance);
        if w.terminal || !chance_due {
            resolved.push(
                Outcome { state: w.state, prob: w.prob, reward: w.reward, terminal: w.terminal },
            );
            continue;
        }
        if w.hops >= CHANCE_CHAIN_LIMIT {
            return Err(Fault::ChainLimit);
        }
        proof {
            lemma_unfolded(*game, *reward, chance, agent, w, resolved@.len(), work@, *rng);
        }
        match unfold(game, reward, chance, agent, &w, resolved.len(), &mut work, rng) {
            Ok(_) => {},
            Err(f) => return Err(f),
        }
    }
    Ok(resolved)
}

/// Where no chance follows, the fan is the one certain outcome, and nothing is drawn.
pub proof fn law_certain_fan<N: Scalar, G: Game<N>, W: Reward<N, Event = G::Event>, R: Rng<N>>(
    game: G,
    reward: W,
    chance: ChanceMode,
    agent: usize,
    state: G::State,
    terminal: bool,
    rng: R,
)
    requires
        terminal || game.spec_actor(state) != Actor::Chance,
    ensures
        spec_chain_fan(game, reward, chance, agent, state, terminal, rng) == (
            Ok::<_, Fault>(
                seq![Outcome { state, prob: N::spec_one(), reward: N::spec_zero(), terminal }],
            ),
            rng,
        ),
{
    let start = Pending {
        state,
        prob: N::spec_one(),
        reward: N::spec_zero(),
        terminal,
        hops: 0,
    };
    let end = Outcome { state, prob: N::spec_one(), reward: N::spec_zero(), terminal };
    assert(seq![start].last() == start);
    assert(seq![start].drop_last() =~= Seq::<Pending<G::State, N>>::empty());
    assert(Seq::<Outcome<G::State, N>>::empty().push(end) =~= seq![end]);
    reveal_with_fuel(fan, 3);
}

} // verus!
