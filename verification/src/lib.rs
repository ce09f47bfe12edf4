//! Generic game, search, and rollout primitives.

use vstd::prelude::*;

pub mod action;
pub mod codec;
pub mod draws;
pub mod encoder;
pub mod engine;
pub mod env;
pub mod episode;
pub mod fault;
pub mod game;
pub mod learner;
pub mod learners;
pub mod means;
pub mod num;
pub mod order;
pub mod parallel;
pub mod policies;
pub mod policy;
pub mod reward;
pub mod rng;
pub mod seeds;
pub mod start;
pub mod stats;
pub mod util;

pub use codec::StateCodec;
pub use encoder::{check_action_view, ActionView, IdentityView, StateEncoder};
pub use engine::run::{Engine, EngineParams};
pub use env::Env;
pub use game::{realize_initial_state, Actor, ChanceDist, Game, Rng, Transition};
pub use learner::{Learner, Step};
pub use learners::alphazero::{AlphaZeroLearner, AlphaZeroRecord};
pub use learners::dqn::{Dqn, DqnRecord};
pub use learners::treestrap::{TreeStrap, TreeStrapRecord};
pub use policies::modelfree::epsilon_greedy_q::{EpsilonGreedyQ, QEvaluation};
pub use policies::tree::alphazero::{alphazero_many, AlphaZero, AlphaZeroConfig};
pub use policies::tree::evaluation::SearchEvaluation;
pub use policies::tree::expectimax::backup::{InteriorTarget, SearchResult};
pub use policies::tree::expectimax::policy::SelectiveExpectimax;
pub use policies::tree::expectimax::search::search_many;
pub use policies::tree::expectimax::tree::{Opponent, SearchConfig, SearchStats};
pub use policies::tree::mcts::policy::{
    mcts_many, ActBy, Mcts, MctsConfig, NoiseScope, SequentialBackup,
};
pub use policies::tree::minimax::Minimax;
pub use policy::{ChanceMode, Policy, MAX_ENUMERATED_OUTCOMES, MAX_JOINT_SLOTS};
pub use reward::Reward;
pub use rng::SplitMix64;
pub use start::{AlwaysInitialState, Start, StartDistribution};
pub use stats::{CollectStats, EpisodeSummary};

verus! {

/// Where the compatibility of games and algorithms is documented.
pub const COMPATIBILITY_DOCS: &'static str =
    "https://github.com/jeepjeepjeep/reinfors/blob/main/docs/catalogue/compatibility.md";

/// The version of the library.
pub fn version() -> (r: &'static str)
    ensures
        r@ == "0.3.0"@,
{
    "0.3.0"
}

} // verus!
