//! A chance chain flattened to its outcomes, with every agent's rewards.

use vstd::prelude::*;

use crate::fault::Fault;
use crate::game::{Actor, Game, CHANCE_CHAIN_LIMIT};
#[allow(unused_imports)]
use crate::game::silent_events;
use crate::num::Scalar;
use crate::policies::tree::expectimax::fan::{lemma_rank_positive, lemma_unfold, rank};
use crate::policy::MAX_ENUMERATED_OUTCOMES;
use crate::reward::{edge_reward, Reward};
#[allow(unused_imports)]
use crate::reward::spec_edge_reward;
use crate::util::{copied, filled};
#[allow(unused_imports)]
use crate::util::spec_filled;

verus! {

/// Every agent's reward of an edge; none where the edge emitted nothing.
pub open spec fn agent_rewards<N: Scalar, W: Reward<N>>(
    reward: W,
    events: Seq<Option<W::Event>>,
    n: usize,
) -> Result<Seq<N>, Fault> {
    if silent_events(events) {
        Ok(Seq::empty())
    } else {
        spec_score_all(reward, events, n)
    }
}

/// Every agent's reward of an edge.
pub open spec fn spec_score_all<N: Scalar, W: Reward<N>>(
    reward: W,
    events: Seq<Option<W::Event>>,
    n: usize,
) -> Result<Seq<N>, Fault> {
    if events.len() < n {
        Err(Fault::EventArity)
    } else {
        Ok(Seq::new(n as nat, |ag: int| spec_edge_reward(reward, events, ag as usize)))
    }
}

/// Scores an edge for every agent.
pub fn score_all<N: Scalar, W: Reward<N>>(
    reward: &W,
    events: &[Option<W::Event>],
    n: usize,
) -> (r: Result<Vec<N>, Fault>)
    ensures
        crate::util::viewed(r) == spec_score_all(*reward, events@, n),
{
    if events.len() < n {
        return Err(Fault::EventArity);
    }
    let mut r: Vec<N> = Vec::new();
    let mut ag: usize = 0;
    while ag < n
        invariant
            ag <= n <= events@.len(),
            r@.len() == ag,
            forall|k: int|
                0 <= k < ag ==> #[trigger] r@[k] == spec_edge_reward(*reward, events@, k as usize),
        decreases n - ag,
    {
        r.push(edge_reward(reward, events, ag));
        ag = ag + 1;
    }
    assert(r@ =~= spec_score_all(*reward, events@, n)->Ok_0);
    Ok(r)
}

#[verifier::loop_isolation(false)]
pub(crate) fn per_agent_chance_rewards<N: Scalar, W: Reward<N>>(
    reward: &W,
    events: &[Option<W::Event>],
    n: usize,
) -> (r: Result<Vec<N>, Fault>)
    ensures
        crate::util::viewed(r) == agent_rewards(*reward, events@, n),
{
    let mut i: usize = 0;
    while i < events.len()
        invariant
            i <= events@.len(),
            forall|k: int| 0 <= k < i ==> (#[trigger] events@[k]) is None,
        decreases events@.len() - i,
    {
        if events[i].is_some() {
            assert(!silent_events(events@));
            return score_all(reward, events, n);
        }
        i = i + 1;
    }
    let none: Vec<N> = Vec::new();
    assert(none@ =~= Seq::empty());
    Ok(none)
}

/// The rewards of two edges in a row.
pub open spec fn merged<N: Scalar>(a: Seq<N>, b: Seq<N>, n: nat) -> Seq<N> {
    if b.len() == 0 {
        a
    } else {
        let base = if a.len() == 0 {
            spec_filled(N::spec_zero(), n)
        } else {
            a
        };
        added(base, b)
    }
}

/// `base` with `b` added as far as it goes.
pub open spec fn added<N: Scalar>(base: Seq<N>, b: Seq<N>) -> Seq<N> {
    Seq::new(
        base.len(),
        |i: int|
            if i < b.len() {
                base[i].spec_plus(b[i])
            } else {
                base[i]
            },
    )
}

pub(crate) fn add_into<N: Scalar>(base: &mut Vec<N>, b: &[N])
    ensures
        final(base)@ == added(old(base)@, b@),
{
    let mut i: usize = 0;
    while i < base.len() && i < b.len()
        invariant
            i <= base@.len() == old(base)@.len(),
            i <= b@.len(),
            forall|k: int| 0 <= k < i ==> #[trigger] base@[k] == old(base)@[k].spec_plus(b@[k]),
            forall|k: int| i <= k < base@.len() ==> #[trigger] base@[k] == old(base)@[k],
        decreases base@.len() - i,
    {
        let x = base[i].plus(b[i]);
        base.set(i, x);
        i = i + 1;
    }
    assert(base@ =~= added(old(base)@, b@));
}

fn merge_chance_rewards<N: Scalar>(a: &[N], b: &[N], n: usize) -> (r: Vec<N>)
    ensures
        r@ == merged(a@, b@, n as nat),
{
    if b.len() == 0 {
        return copied(a);
    }
    let mut out: Vec<N> = if a.len() == 0 {
        filled(N::zero(), n)
    } else {
        copied(a)
    };
    add_into(&mut out, b);
    out
}

/// A state of a fan: its probability, every agent's rewards on the way, and how many chance edges
/// lie behind it.
pub struct FanState<S, N> {
    pub state: S,
    pub prob: N,
    pub rewards: Vec<N>,
    pub terminal: bool,
    pub hops: usize,
}

/// A state of a fan as a mathematical value.
#[verifier::ext_equal]
pub struct FanModel<S, N> {
    pub state: S,
    pub prob: N,
    pub rewards: Seq<N>,
    pub terminal: bool,
    pub hops: usize,
}

impl<S, N> View for FanState<S, N> {
    type V = FanModel<S, N>;

    open spec fn view(&self) -> FanModel<S, N> {
        FanModel {
            state: self.state,
            prob: self.prob,
            rewards: self.rewards@,
            terminal: self.terminal,
            hops: self.hops,
        }
    }
}

/// Fan states as mathematical values.
pub open spec fn fan_models<S, N>(fan: Seq<FanState<S, N>>) -> Seq<FanModel<S, N>> {
    fan.map_values(|s: FanState<S, N>| s@)
}

/// How much all of `stack` can still unfold.
pub open spec fn stack_rank<S, N>(stack: Seq<FanModel<S, N>>) -> nat
    decreases stack.len(),
{
    if stack.len() == 0 {
        0
    } else {
        stack_rank(stack.drop_last()) + rank(stack.last().hops as nat)
    }
}

/// What outcome `i` of chance state `w` leads to, its probability given it being `q`.
pub open spec fn fan_child<N: Scalar, G: Game<N>, W: Reward<N, Event = G::Event>>(
    game: G,
    reward: W,
    n: usize,
    w: FanModel<G::State, N>,
    i: usize,
    q: N,
) -> Result<FanModel<G::State, N>, Fault> {
    let t = game.spec_apply_chance_node(w.state, i);
    match agent_rewards(reward, t.events, n) {
        Err(f) => Err(f),
        Ok(more) => Ok(
            FanModel {
                state: t.next_state,
                prob: w.prob.spec_times(q),
                rewards: merged(w.rewards, more, n as nat),
                terminal: t.terminal,
                hops: (w.hops + 1) as usize,
            },
        ),
    }
}

/// `stack` with the outcomes of `w` from the `i`-th on.
pub open spec fn fan_children<N: Scalar, G: Game<N>, W: Reward<N, Event = G::Event>>(
    game: G,
    reward: W,
    n: usize,
    w: FanModel<G::State, N>,
    probs: Seq<N>,
    i: nat,
    stack: Seq<FanModel<G::State, N>>,
) -> Result<Seq<FanModel<G::State, N>>, Fault>
    decreases probs.len() - i,
{
    if i >= probs.len() {
        Ok(stack)
    } else {
        match fan_child(game, reward, n, w, i as usize, probs[i as int]) {
            Err(f) => Err(f),
            Ok(c) => fan_children(game, reward, n, w, probs, i + 1, stack.push(c)),
        }
    }
}

/// Listing the outcomes of a chance state adds one state per outcome.
pub proof fn lemma_fan_children<N: Scalar, G: Game<N>, W: Reward<N, Event = G::Event>>(
    game: G,
    reward: W,
    n: usize,
    w: FanModel<G::State, N>,
    probs: Seq<N>,
    i: nat,
    stack: Seq<FanModel<G::State, N>>,
)
    requires
        w.hops < CHANCE_CHAIN_LIMIT,
        i <= probs.len(),
    ensures
        fan_children(game, reward, n, w, probs, i, stack) matches Ok(out) ==> {
            &&& out.len() == stack.len() + (probs.len() - i)
            &&& stack_rank(out) == stack_rank(stack) + (probs.len() - i) * rank(w.hops as nat + 1)
        },
    decreases probs.len() - i,
{
    let unit = rank(w.hops as nat + 1);
    let len = probs.len();
    if i < len {
        let made = fan_child(game, reward, n, w, i as usize, probs[i as int]);
        if let Ok(c) = made {
            lemma_fan_children(game, reward, n, w, probs, i + 1, stack.push(c));
            assert(stack.push(c).drop_last() =~= stack);
            assert((len - i) * unit == (len - i - 1) * unit + unit) by (nonlinear_arith);
        }
    } else {
        assert((len - i) * unit == 0) by (nonlinear_arith)
            requires
                len - i == 0,
        ;
    }
}

/// A chance state's outcomes on top of `rest`, `leaves` being settled already.
pub open spec fn fan_unfolded<N: Scalar, G: Game<N>, W: Reward<N, Event = G::Event>>(
    game: G,
    reward: W,
    n: usize,
    w: FanModel<G::State, N>,
    leaves: nat,
    rest: Seq<FanModel<G::State, N>>,
) -> Result<Seq<FanModel<G::State, N>>, Fault> {
    let dist = game.spec_chance_node(w.state);
    if leaves + rest.len() + dist.count() > MAX_ENUMERATED_OUTCOMES {
        Err(Fault::FanLimit)
    } else if !dist.sound() {
        Err(Fault::WeightTotal)
    } else {
        fan_children(game, reward, n, w, dist.probs(), 0, rest)
    }
}

/// Unfolding a chance state leaves less to unfold.
pub proof fn lemma_fan_unfolded<N: Scalar, G: Game<N>, W: Reward<N, Event = G::Event>>(
    game: G,
    reward: W,
    n: usize,
    w: FanModel<G::State, N>,
    leaves: nat,
    rest: Seq<FanModel<G::State, N>>,
)
    requires
        w.hops < CHANCE_CHAIN_LIMIT,
    ensures
        fan_unfolded(game, reward, n, w, leaves, rest) matches Ok(out) ==> {
            &&& leaves + out.len() <= MAX_ENUMERATED_OUTCOMES
            &&& stack_rank(out) < stack_rank(rest) + rank(w.hops as nat)
        },
{
    let dist = game.spec_chance_node(w.state);
    if leaves + rest.len() + dist.count() <= MAX_ENUMERATED_OUTCOMES {
        lemma_fan_children(game, reward, n, w, dist.probs(), 0, rest);
        lemma_unfold(dist.count(), w.hops as nat);
    }
}

/// The outcomes behind `stack`, the last of it first, behind those of `leaves`; and whether any
/// state had chance behind it.
pub open spec fn flattened<N: Scalar, G: Game<N>, W: Reward<N, Event = G::Event>>(
    game: G,
    reward: W,
    n: usize,
    leaves: Seq<FanModel<G::State, N>>,
    stack: Seq<FanModel<G::State, N>>,
    chained: bool,
) -> Result<(Seq<FanModel<G::State, N>>, bool), Fault>
    decreases stack_rank(stack),
{
    if stack.len() == 0 {
        Ok((leaves, chained))
    } else {
        let w = stack.last();
        let rest = stack.drop_last();
        if w.terminal || game.spec_actor(w.state) != Actor::Chance {
            proof {
                lemma_rank_positive(w.hops as nat);
            }
            flattened(game, reward, n, leaves.push(w), rest, chained)
        } else if w.hops >= CHANCE_CHAIN_LIMIT {
            Err(Fault::ChainLimit)
        } else {
            proof {
                lemma_fan_unfolded(game, reward, n, w, leaves.len(), rest);
            }
            match fan_unfolded(game, reward, n, w, leaves.len(), rest) {
                Err(f) => Err(f),
                Ok(more) => flattened(game, reward, n, leaves, more, true),
            }
        }
    }
}

#[verifier::loop_isolation(false)]
fn push_children<N: Scalar, G: Game<N>, W: Reward<N, Event = G::Event>>(
    game: &G,
    reward: &W,
    n: usize,
    w: &FanState<G::State, N>,
    probs: &[N],
    stack: &mut Vec<FanState<G::State, N>>,
) -> (r: Result<(), Fault>)
    requires
        game.spec_actor(w.state) == Actor::Chance,
        w.hops < CHANCE_CHAIN_LIMIT,
    ensures
        match r {
            Ok(_) => fan_children(*game, *reward, n, w@, probs@, 0, fan_models(old(stack)@)) == Ok::<
                _,
                Fault,
            >(fan_models(final(stack)@)),
            Err(f) => fan_children(*game, *reward, n, w@, probs@, 0, fan_models(old(stack)@))
                == Err::<Seq<FanModel<G::State, N>>, _>(f),
        },
{
    let mut i: usize = 0;
    while i < probs.len()
        invariant
            i <= probs@.len(),
            fan_children(*game, *reward, n, w@, probs@, i as nat, fan_models(stack@))
                == fan_children(*game, *reward, n, w@, probs@, 0, fan_models(old(stack)@)),
        decreases probs@.len() - i,
    {
        let t = game.apply_chance_node(&w.state, i);
        let more = match per_agent_chance_rewards(reward, &t.events, n) {
            Ok(more) => more,
            Err(f) => return Err(f),
        };
        let made = FanState {
            state: t.next_state,
            prob: w.prob.times(probs[i]),
            rewards: merge_chance_rewards(&w.rewards, &more, n),
            terminal: t.terminal,
            hops: w.hops + 1,
        };
        let ghost listed = fan_models(stack@);
        let ghost model = made@;
        stack.push(made);
        assert(fan_models(stack@) =~= listed.push(model));
        i = i + 1;
    }
    Ok(())
}

/// A state to which chance applies.
pub open spec fn chance_due<N: Scalar, G: Game<N>>(game: G, w: FanModel<G::State, N>) -> bool {
    !w.terminal && game.spec_actor(w.state) == Actor::Chance
}

proof fn lemma_flattened<N: Scalar, G: Game<N>, W: Reward<N, Event = G::Event>>(
    game: G,
    reward: W,
    n: usize,
    leaves: Seq<FanModel<G::State, N>>,
    stack: Seq<FanModel<G::State, N>>,
    chained: bool,
)
    requires
        forall|i: int| 0 <= i < leaves.len() ==> !chance_due(game, #[trigger] leaves[i]),
    ensures
        flattened(game, reward, n, leaves, stack, chained) matches Ok((out, c)) ==> {
            &&& forall|i: int| 0 <= i < out.len() ==> !chance_due(game, #[trigger] out[i])
            &&& c == (chained || exists|i: int|
                0 <= i < stack.len() && chance_due(game, #[trigger] stack[i]))
            &&& !c ==> out == leaves + stack.reverse()
        },
    decreases stack_rank(stack),
{
    if stack.len() == 0 {
        assert(leaves + stack.reverse() =~= leaves);
    } else {
        let w = stack.last();
        let rest = stack.drop_last();
        if !chance_due(game, w) {
            lemma_rank_positive(w.hops as nat);
            lemma_flattened(game, reward, n, leaves.push(w), rest, chained);
            assert(leaves.push(w) + rest.reverse() =~= leaves + stack.reverse());
            if exists|i: int| 0 <= i < stack.len() && chance_due(game, #[trigger] stack[i]) {
                let i = choose|i: int| 0 <= i < stack.len() && chance_due(game, #[trigger] stack[i]);
                assert(chance_due(game, rest[i]));
            }
            if exists|i: int| 0 <= i < rest.len() && chance_due(game, #[trigger] rest[i]) {
                let i = choose|i: int| 0 <= i < rest.len() && chance_due(game, #[trigger] rest[i]);
                assert(chance_due(game, stack[i]));
            }
        } else {
            assert(chance_due(game, stack[stack.len() - 1]));
            if w.hops < CHANCE_CHAIN_LIMIT {
                lemma_fan_unfolded(game, reward, n, w, leaves.len(), rest);
                if let Ok(more) = fan_unfolded(game, reward, n, w, leaves.len(), rest) {
                    lemma_flattened(game, reward, n, leaves, more, true);
                }
            }
        }
    }
}

/// The leaves of a flattened fan are states to which chance does not apply. It is chained where
/// chance applied to one of its seeds, and only there; where it is not, its leaves are the seeds,
/// in their order.
pub proof fn law_fan_ends_in_decisions<N: Scalar, G: Game<N>, W: Reward<N, Event = G::Event>>(
    game: G,
    reward: W,
    n: usize,
    seeds: Seq<FanModel<G::State, N>>,
)
    ensures
        fan_of(game, reward, n, seeds) matches Ok((leaves, chained)) ==> {
            &&& forall|i: int| 0 <= i < leaves.len() ==> !chance_due(game, #[trigger] leaves[i])
            &&& chained == exists|i: int|
                0 <= i < seeds.len() && chance_due(game, #[trigger] seeds[i])
            &&& !chained ==> leaves == seeds
        },
{
    let stack = seeds.reverse();
    lemma_flattened(game, reward, n, Seq::empty(), stack, false);
    assert(Seq::<FanModel<G::State, N>>::empty() + stack.reverse() =~= seeds);
    if exists|i: int| 0 <= i < seeds.len() && chance_due(game, #[trigger] seeds[i]) {
        let i = choose|i: int| 0 <= i < seeds.len() && chance_due(game, #[trigger] seeds[i]);
        assert(stack[seeds.len() - 1 - i] == seeds[i]);
        assert(chance_due(game, stack[seeds.len() - 1 - i]));
    }
    if exists|i: int| 0 <= i < stack.len() && chance_due(game, #[trigger] stack[i]) {
        let i = choose|i: int| 0 <= i < stack.len() && chance_due(game, #[trigger] stack[i]);
        assert(stack[i] == seeds[seeds.len() - 1 - i]);
        assert(chance_due(game, seeds[seeds.len() - 1 - i]));
    }
}

/// The fan behind `seeds`, the first of them first.
pub open spec fn fan_of<N: Scalar, G: Game<N>, W: Reward<N, Event = G::Event>>(
    game: G,
    reward: W,
    n: usize,
    seeds: Seq<FanModel<G::State, N>>,
) -> Result<(Seq<FanModel<G::State, N>>, bool), Fault> {
    flattened(game, reward, n, Seq::empty(), seeds.reverse(), false)
}

/// Flattens the chance chains behind the seeds of a fan.
#[verifier::loop_isolation(false)]
pub fn flatten_chance_fan<N: Scalar, G: Game<N>, W: Reward<N, Event = G::Event>>(
    game: &G,
    reward: &W,
    n: usize,
    seed: Vec<FanState<G::State, N>>,
) -> (r: Result<(Vec<FanState<G::State, N>>, bool), Fault>)
    requires
        seed@.len() <= MAX_ENUMERATED_OUTCOMES,
    ensures
        match r {
            Ok((leaves, chained)) => fan_of(*game, *reward, n, fan_models(seed@)) == Ok::<_, Fault>(
                (fan_models(leaves@), chained),
            ),
            Err(f) => fan_of(*game, *reward, n, fan_models(seed@)) == Err::<
                (Seq<FanModel<G::State, N>>, bool),
                _,
            >(f),
        },
{
    let ghost seeds = fan_models(seed@);
    let ghost goal = fan_of(*game, *reward, n, seeds);
    let mut leaves: Vec<FanState<G::State, N>> = Vec::new();
    let mut chained = false;
    let mut unturned = seed;
    let mut stack: Vec<FanState<G::State, N>> = Vec::new();
    assert(fan_models(unturned@) =~= seeds.take(unturned@.len() as int));
    assert(fan_models(stack@) =~= seeds.skip(unturned@.len() as int).reverse());
    while unturned.len() > 0
        invariant
            unturned@.len() + stack@.len() == seeds.len() <= MAX_ENUMERATED_OUTCOMES,
            fan_models(unturned@) == seeds.take(unturned@.len() as int),
            fan_models(stack@) == seeds.skip(unturned@.len() as int).reverse(),
        decreases unturned@.len(),
    {
        let ghost before = fan_models(unturned@);
        let ghost turned = fan_models(stack@);
        let w = unturned.pop().unwrap();
        let ghost model = w@;
        assert(model == before.last());
        stack.push(w);
        assert(fan_models(stack@) =~= turned.push(model));
        assert(fan_models(stack@) =~= seeds.skip(unturned@.len() as int).reverse());
        assert(fan_models(unturned@) =~= seeds.take(unturned@.len() as int));
    }
    assert(seeds.skip(0) =~= seeds);
    assert(fan_models(leaves@) =~= Seq::empty());
    while stack.len() > 0
        invariant
            leaves@.len() + stack@.len() <= MAX_ENUMERATED_OUTCOMES,
            flattened(*game, *reward, n, fan_models(leaves@), fan_models(stack@), chained) == goal,
        decreases stack_rank(fan_models(stack@)),
    {
        let ghost before = fan_models(stack@);
        let w = stack.pop().unwrap();
        let ghost rest = fan_models(stack@);
        assert(rest =~= before.drop_last());
        assert(w@ == before.last());
        proof {
            lemma_rank_positive(w.hops as nat);
        }
        let chance_due = matches!(game.actor(&w.state), Actor::Chance);
        if w.terminal || !chance_due {
            let ghost settled = fan_models(leaves@);
            let ghost model = w@;
            leaves.push(w);
            assert(fan_models(leaves@) =~= settled.push(model));
            continue;
        }
        chained = true;
        if w.hops >= CHANCE_CHAIN_LIMIT {
            return Err(Fault::ChainLimit);
        }
        let dist = game.chance_node(&w.state);
        let room = MAX_ENUMERATED_OUTCOMES - leaves.len() - stack.len();
        if dist.count() > room {
            return Err(Fault::FanLimit);
        }
        let probs = match dist.iter_probs() {
            Ok(probs) => probs,
            Err(f) => return Err(f),
        };
        proof {
            lemma_fan_unfolded(*game, *reward, n, w@, leaves@.len(), rest);
        }
        match push_children(game, reward, n, &w, &probs, &mut stack) {
            Ok(_) => {},
            Err(f) => return Err(f),
        }
    }
    Ok((leaves, chained))
}

} // verus!
