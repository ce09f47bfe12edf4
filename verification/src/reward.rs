//! Event-to-number reward mapping.

use vstd::prelude::*;

use crate::num::Scalar;

verus! {

/// How emitted events score.
pub trait Reward<N: Scalar> {
    type Event;

    /// The reward of one emitted event for `agent`.
    open spec fn spec_step_reward(&self, event: Self::Event, agent: usize) -> N {
        arbitrary()
    }

    /// Maps one emitted event to a reward.
    fn step_reward(&self, event: &Self::Event, agent: usize) -> (r: N)
        ensures
            r == self.spec_step_reward(*event, agent),
    ;
}

/// The score of one transition edge for `agent`: nothing where the edge emitted no event to it.
pub open spec fn spec_edge_reward<N: Scalar, W: Reward<N>>(
    reward: W,
    events: Seq<Option<W::Event>>,
    agent: usize,
) -> N {
    match events[agent as int] {
        Some(e) => reward.spec_step_reward(e, agent),
        None => N::spec_zero(),
    }
}

/// Scores one transition edge for an agent.
pub fn edge_reward<N: Scalar, W: Reward<N>>(
    reward: &W,
    events: &[Option<W::Event>],
    agent: usize,
) -> (r: N)
    requires
        agent < events@.len(),
    ensures
        r == spec_edge_reward(*reward, events@, agent),
{
    match &events[agent] {
        Some(e) => reward.step_reward(e, agent),
        None => N::zero(),
    }
}

} // verus!
