//! One game's live slice: the current state and the generator of its chance. It runs against
//! borrowed rules and a borrowed encoder, so many episodes can share them.

use vstd::prelude::*;

use crate::encoder::StateEncoder;
use crate::fault::Fault;
use crate::game::{realize_initial_state, step_env, Game};
#[allow(unused_imports)]
use crate::game::{dealt, spec_step_env, TickModel};
use crate::num::Scalar;
use crate::rng::SplitMix64;
#[allow(unused_imports)]
use crate::rng::generator;

verus! {

/// A live episode.
pub struct Episode<S> {
    pub state: S,
    pub rng: SplitMix64,
}

/// Whether `agent` has a move.
pub open spec fn has_move<N: Scalar, G: Game<N>>(game: G, state: G::State, agent: usize) -> bool {
    game.spec_legal_actions(state, agent).len() > 0
}

/// The agents below `n` that have a move, in order.
pub open spec fn movers<N: Scalar, G: Game<N>>(game: G, state: G::State, n: nat) -> Seq<usize>
    decreases n,
{
    if n == 0 {
        Seq::empty()
    } else if has_move(game, state, (n - 1) as usize) {
        movers(game, state, (n - 1) as nat).push((n - 1) as usize)
    } else {
        movers(game, state, (n - 1) as nat)
    }
}

impl<S> Episode<S> {
    /// A fresh episode, with initial chance from `seed`.
    pub fn new<N: Scalar, G: Game<N, State = S>>(game: &G, seed: u64) -> (r: Result<Self, Fault>)
        ensures
            match r {
                Ok(ep) => dealt(*game, game.spec_initial_state(), 0, generator(seed)) == (
                    Ok::<_, Fault>(ep.state),
                    ep.rng,
                ),
                Err(f) => dealt(*game, game.spec_initial_state(), 0, generator(seed)).0 == Err::<
                    S,
                    _,
                >(f),
            },
    {
        let mut rng = SplitMix64::new(seed);
        match realize_initial_state(game, &mut rng) {
            Ok(state) => Ok(Episode { state, rng }),
            Err(f) => Err(f),
        }
    }

    /// Begins a new episode, with fresh initial chance from the continuing stream. Where the game
    /// cannot be dealt the state stays.
    pub fn reset<N: Scalar, G: Game<N, State = S>>(&mut self, game: &G) -> (r: Result<(), Fault>)
        ensures
            match r {
                Ok(_) => dealt(*game, game.spec_initial_state(), 0, old(self).rng) == (
                    Ok::<_, Fault>(final(self).state),
                    final(self).rng,
                ),
                Err(f) => {
                    &&& dealt(*game, game.spec_initial_state(), 0, old(self).rng) == (
                        Err::<S, _>(f),
                        final(self).rng,
                    )
                    &&& final(self).state == old(self).state
                },
            },
    {
        match realize_initial_state(game, &mut self.rng) {
            Ok(state) => {
                self.state = state;
                Ok(())
            },
            Err(f) => Err(f),
        }
    }

    /// Whether `agent` has a move at the current state.
    pub fn agent_active<N: Scalar, G: Game<N, State = S>>(&self, game: &G, agent: usize) -> (r: bool)
        ensures
            r == has_move(*game, self.state, agent),
    {
        game.legal_actions(&self.state, agent).len() > 0
    }

    /// Agents that must act: the mover of a sequential game, all live agents of a simultaneous one,
    /// none once the episode is over.
    pub fn active_agents<N: Scalar, G: Game<N, State = S>>(&self, game: &G) -> (r: Vec<usize>)
        ensures
            r@ == movers(*game, self.state, game.spec_num_agents() as nat),
    {
        let n = game.num_agents();
        let mut out: Vec<usize> = Vec::new();
        let mut a: usize = 0;
        while a < n
            invariant
                a <= n,
                out@ == movers(*game, self.state, a as nat),
            decreases n - a,
        {
            if self.agent_active(game, a) {
                out.push(a);
            }
            a = a + 1;
        }
        out
    }

    pub fn observe<E: StateEncoder<State = S>>(&self, encoder: &E, agent: usize) -> (r: Vec<
        E::Feature,
    >)
        ensures
            r@ == encoder.spec_encode(self.state, agent),
    {
        encoder.encode(&self.state, agent)
    }

    /// Advances through the environment's transition; gives this tick's events and whether the
    /// episode ended. Where the transition faults the state stays.
    pub fn advance<N: Scalar, G: Game<N, State = S>>(
        &mut self,
        game: &G,
        actions: &[usize],
    ) -> (r: Result<(Vec<(usize, G::Event)>, bool), Fault>)
        ensures
            match r {
                Ok((trace, terminal)) => spec_step_env(
                    *game,
                    old(self).state,
                    actions@,
                    old(self).rng,
                ) == (
                    Ok::<_, Fault>(
                        TickModel { next_state: final(self).state, trace: trace@, terminal },
                    ),
                    final(self).rng,
                ),
                Err(f) => {
                    &&& spec_step_env(*game, old(self).state, actions@, old(self).rng) == (
                        Err::<TickModel<S, G::Event>, _>(f),
                        final(self).rng,
                    )
                    &&& final(self).state == old(self).state
                },
            },
    {
        match step_env(game, &self.state, actions, &mut self.rng) {
            Ok(t) => {
                self.state = t.next_state;
                Ok((t.trace, t.terminal))
            },
            Err(f) => Err(f),
        }
    }
}

} // verus!
