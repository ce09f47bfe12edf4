//! A game's place in the engine.

use vstd::prelude::*;

#[allow(unused_imports)]
use crate::encoder::StateEncoder;
use crate::episode::Episode;
#[allow(unused_imports)]
use crate::game::Game;
use crate::learner::Step;
#[allow(unused_imports)]
use crate::learner::{step_models, StepModel};
#[allow(unused_imports)]
use crate::policy::Policy;
use crate::rng::SplitMix64;

verus! {

/// What an engine is composed of, and whether the game's decisions are sequential.
pub struct Parts<G, E, W, P, L> {
    pub game: G,
    pub encoder: E,
    pub reward: W,
    pub policy: P,
    pub learner: L,
    pub sequential: bool,
}

/// One game: its episode, the policy's acting state, the ticks of the episode, whether it began from
/// a stored state, and the decisions of each agent that await their records.
pub struct Seat<S, A, F, N, E> {
    pub episode: Episode<S>,
    pub policy_state: A,
    pub tick: usize,
    pub seeded: bool,
    pub traj: Vec<Vec<Step<F, N, E>>>,
}

/// A seat as a mathematical value.
#[verifier::ext_equal]
pub struct SeatModel<S, A, F, N, V> {
    pub state: S,
    pub rng: SplitMix64,
    pub policy_state: A,
    pub tick: usize,
    pub seeded: bool,
    pub traj: Seq<Seq<StepModel<F, N, V>>>,
}

/// A seat of a composition.
pub type SeatOf<N, G, E, P> = SeatModel<
    <G as Game<N>>::State,
    <P as Policy<N>>::PolicyState,
    <E as StateEncoder>::Feature,
    N,
    <<P as Policy<N>>::Evaluation as View>::V,
>;

/// Trajectories as mathematical values.
pub open spec fn traj_models<F, N, E: View>(traj: Seq<Vec<Step<F, N, E>>>) -> Seq<
    Seq<StepModel<F, N, E::V>>,
> {
    traj.map_values(|t: Vec<Step<F, N, E>>| step_models(t@))
}

impl<S, A, F, N, E: View> View for Seat<S, A, F, N, E> {
    type V = SeatModel<S, A, F, N, E::V>;

    open spec fn view(&self) -> SeatModel<S, A, F, N, E::V> {
        SeatModel {
            state: self.episode.state,
            rng: self.episode.rng,
            policy_state: self.policy_state,
            tick: self.tick,
            seeded: self.seeded,
            traj: traj_models(self.traj@),
        }
    }
}

/// Seats as mathematical values.
pub open spec fn seat_models<S, A, F, N, E: View>(seats: Seq<Seat<S, A, F, N, E>>) -> Seq<
    SeatModel<S, A, F, N, E::V>,
> {
    seats.map_values(|s: Seat<S, A, F, N, E>| s@)
}

/// Every seat has a trajectory for each of `n` agents.
pub open spec fn seated<S, A, F, N, V>(seats: Seq<SeatModel<S, A, F, N, V>>, n: nat) -> bool {
    forall|g: int| 0 <= g < seats.len() ==> (#[trigger] seats[g]).traj.len() == n
}

} // verus!
