//! A single game that its caller drives: it holds one live episode and advances it with the actions
//! that it is given, so they can come from a network, a search, a baseline or a human.

use std::marker::PhantomData;

use vstd::prelude::*;

use crate::encoder::StateEncoder;
use crate::episode::Episode;
#[allow(unused_imports)]
use crate::episode::movers;
use crate::fault::Fault;
use crate::game::Game;
#[allow(unused_imports)]
use crate::game::{dealt, spec_step_env, TickModel};
use crate::num::Scalar;
#[allow(unused_imports)]
use crate::rng::generator;
use crate::rng::SplitMix64;

verus! {

/// A live game with its encoder.
pub struct Env<N: Scalar, G: Game<N>, E: StateEncoder<State = G::State>> {
    game: G,
    encoder: E,
    episode: Episode<G::State>,
    done: bool,
    numbers: PhantomData<N>,
}

/// What a live game holds.
pub struct EnvModel<S> {
    pub state: S,
    pub rng: SplitMix64,
    pub done: bool,
}

impl<N: Scalar, G: Game<N>, E: StateEncoder<State = G::State>> View for Env<N, G, E> {
    type V = EnvModel<G::State>;

    closed spec fn view(&self) -> EnvModel<G::State> {
        EnvModel { state: self.episode.state, rng: self.episode.rng, done: self.done }
    }
}

impl<N: Scalar, G: Game<N>, E: StateEncoder<State = G::State>> Env<N, G, E> {
    /// The rules.
    pub closed spec fn rules(self) -> G {
        self.game
    }

    /// The encoder.
    pub closed spec fn coder(self) -> E {
        self.encoder
    }

    pub fn new(game: G, encoder: E, seed: u64) -> (r: Result<Self, Fault>)
        ensures
            match r {
                Ok(env) => {
                    &&& env.rules() == game && env.coder() == encoder && !env@.done
                    &&& dealt(game, game.spec_initial_state(), 0, generator(seed)) == (
                        Ok::<_, Fault>(env@.state),
                        env@.rng,
                    )
                },
                Err(f) => dealt(game, game.spec_initial_state(), 0, generator(seed)).0 == Err::<
                    G::State,
                    _,
                >(f),
            },
    {
        match Episode::new(&game, seed) {
            Ok(episode) => Ok(Env { game, encoder, episode, done: false, numbers: PhantomData }),
            Err(f) => Err(f),
        }
    }

    /// Begins a fresh episode. Where the game cannot be dealt only the generator moves on.
    pub fn reset(&mut self) -> (r: Result<(), Fault>)
        ensures
            final(self).rules() == old(self).rules(),
            final(self).coder() == old(self).coder(),
            match r {
                Ok(_) => !final(self)@.done && dealt(
                    old(self).rules(),
                    old(self).rules().spec_initial_state(),
                    0,
                    old(self)@.rng,
                ) == (Ok::<_, Fault>(final(self)@.state), final(self)@.rng),
                Err(f) => {
                    &&& dealt(
                        old(self).rules(),
                        old(self).rules().spec_initial_state(),
                        0,
                        old(self)@.rng,
                    ) == (Err::<G::State, _>(f), final(self)@.rng)
                    &&& final(self)@.state == old(self)@.state
                    &&& final(self)@.done == old(self)@.done
                },
            },
    {
        match self.episode.reset(&self.game) {
            Ok(_) => {
                self.done = false;
                Ok(())
            },
            Err(f) => Err(f),
        }
    }

    pub fn num_agents(&self) -> (r: usize)
        ensures
            r == self.rules().spec_num_agents(),
    {
        self.game.num_agents()
    }

    pub fn action_count(&self) -> (r: usize)
        ensures
            r == self.rules().spec_action_count(),
    {
        self.game.action_count()
    }

    pub fn state(&self) -> (r: &G::State)
        ensures
            *r == self@.state,
    {
        &self.episode.state
    }

    pub fn done(&self) -> (r: bool)
        ensures
            r == self@.done,
    {
        self.done
    }

    pub fn active_agents(&self) -> (r: Vec<usize>)
        ensures
            r@ == movers(self.rules(), self@.state, self.rules().spec_num_agents() as nat),
    {
        self.episode.active_agents(&self.game)
    }

    pub fn legal_actions(&self, agent: usize) -> (r: Vec<usize>)
        ensures
            r@ == self.rules().spec_legal_actions(self@.state, agent),
    {
        self.game.legal_actions(&self.episode.state, agent)
    }

    /// The encoded observation for `agent`.
    pub fn observe(&self, agent: usize) -> (r: Vec<E::Feature>)
        ensures
            r@ == self.coder().spec_encode(self@.state, agent),
    {
        self.episode.observe(&self.encoder, agent)
    }

    /// Applies a joint action, one index for each agent, of which inactive agents' are ignored;
    /// gives this tick's events. A game that has ended is not stepped.
    pub fn step(&mut self, actions: &[usize]) -> (r: Result<Vec<(usize, G::Event)>, Fault>)
        requires
            !old(self)@.done,
            actions@.len() == old(self).rules().spec_num_agents(),
        ensures
            final(self).rules() == old(self).rules(),
            final(self).coder() == old(self).coder(),
            match r {
                Ok(trace) => spec_step_env(
                    old(self).rules(),
                    old(self)@.state,
                    actions@,
                    old(self)@.rng,
                ) == (
                    Ok::<_, Fault>(
                        TickModel {
                            next_state: final(self)@.state,
                            trace: trace@,
                            terminal: final(self)@.done,
                        },
                    ),
                    final(self)@.rng,
                ),
                Err(f) => {
                    &&& spec_step_env(
                        old(self).rules(),
                        old(self)@.state,
                        actions@,
                        old(self)@.rng,
                    ) == (Err::<TickModel<G::State, G::Event>, _>(f), final(self)@.rng)
                    &&& final(self)@.state == old(self)@.state
                    &&& !final(self)@.done
                },
            },
    {
        match self.episode.advance(&self.game, actions) {
            Ok((trace, terminal)) => {
                self.done = terminal;
                Ok(trace)
            },
            Err(f) => Err(f),
        }
    }
}

} // verus!
