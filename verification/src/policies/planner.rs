//! The evaluating half of an algorithm.

use vstd::prelude::*;

use crate::encoder::StateEncoder;
use crate::fault::Fault;
use crate::game::Game;
use crate::num::Scalar;
use crate::policies::tree::expectimax::backup::InteriorTarget;
use crate::policy::Policy;
use crate::reward::Reward;

verus! {

/// How an algorithm evaluates states: many requests at once, each a state and the agent that asks,
/// with network rows from `B`.
pub trait Planner<
    N: Scalar,
    G: Game<N>,
    E: StateEncoder<State = G::State>,
    W: Reward<N, Event = G::Event>,
    B,
>: Policy<N> {
    /// `out` may be what the requests evaluate to, with a source that is handed in as the first of
    /// `source` and back as the second: for each an evaluation, and the targets of interior nodes.
    open spec fn evaluates(
        &self,
        game: G,
        enc: E,
        reward: W,
        requests: Seq<(G::State, usize)>,
        seed: u64,
        collect_interior: bool,
        source: (B, B),
        out: Seq<(Self::Evaluation, Vec<InteriorTarget<E::Feature, N>>)>,
    ) -> bool {
        arbitrary()
    }

    /// Why the requests cannot be evaluated.
    open spec fn cannot_evaluate(
        &self,
        game: G,
        enc: E,
        reward: W,
        requests: Seq<(G::State, usize)>,
        seed: u64,
        collect_interior: bool,
        source: B,
        f: Fault,
    ) -> bool {
        arbitrary()
    }

    fn evaluate(
        &self,
        game: &G,
        enc: &E,
        reward: &W,
        requests: Vec<(G::State, usize)>,
        seed: u64,
        collect_interior: bool,
        source: B,
    ) -> (r: (Result<Vec<(Self::Evaluation, Vec<InteriorTarget<E::Feature, N>>)>, Fault>, B))
        ensures
            match r.0 {
                Ok(out) => self.evaluates(
                    *game,
                    *enc,
                    *reward,
                    requests@,
                    seed,
                    collect_interior,
                    (source, r.1),
                    out@,
                ),
                Err(f) => self.cannot_evaluate(
                    *game,
                    *enc,
                    *reward,
                    requests@,
                    seed,
                    collect_interior,
                    source,
                    f,
                ),
            },
    ;
}

} // verus!
