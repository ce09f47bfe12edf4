//! What can go wrong with a game, a view or an inference that breaks its contract.

use vstd::prelude::*;

verus! {

/// A breach of contract by one of the parts that the library is composed with, or a composition
/// that it does not support.
#[derive(Clone, Copy, Debug, PartialEq, Eq, Structural)]
pub enum Fault {
    /// A weighted chance state whose weights have no finite positive total.
    WeightTotal,
    /// A chance chain longer than [`crate::game::CHANCE_CHAIN_LIMIT`].
    ChainLimit,
    /// A transition without one event slot per agent.
    EventArity,
    /// An episode that ends while its first state is dealt.
    BirthTerminal,
    /// An event emitted while the first state is dealt.
    BirthEvents,
    /// A chance fan over [`crate::policy::MAX_ENUMERATED_OUTCOMES`].
    FanLimit,
    /// A joint-action fan over [`crate::policy::MAX_JOINT_SLOTS`].
    JointLimit,
    /// A tree over its node bound.
    TreeLimit,
    /// A legal action outside the game's action range.
    ActionRange,
    /// An agent outside the game's agents.
    AgentRange,
    /// A head index outside the game's action range.
    HeadRange,
    /// A priority that takes no part in the order.
    NotANumber,
    /// Inference that changed its row width between rounds.
    HeadCount,
    /// A chance mode that the search cannot honour.
    ChanceMode,
    /// Minimax backup at a simultaneous decision.
    Simultaneous,
    /// A chance state where a decision is due.
    ChanceActor,
    /// Tree search over hidden information.
    HiddenInformation,
    /// A game without agents.
    NoAgents,
    /// Simultaneous and sequential decisions in one tree.
    MixedDynamics,
    /// A search root that is a chance state.
    ChanceRoot,
    /// UCT over more sequential agents than it can value.
    UctAgents,
    /// A visit count that has outgrown its bound.
    VisitCount,
    /// An index that leads out of a tree.
    Tree,
    /// A network row too short to be read.
    RowWidth,
    /// A committed round without the row of one of its tickets.
    RowCount,
    /// A round staged into a batch that is in use.
    BatchInUse,
    /// Rounds out of turn: one staged while another is outstanding, rows applied with none staged,
    /// or results asked for before the end.
    RoundOrder,
    /// A decision whose executed action is not one of its legal ones.
    IllegalAction,
    /// A choice among no actions.
    NoAction,
    /// An evaluation without values.
    NoValues,
    /// Rounds that would go on for ever, for each expands no node.
    NoBeam,
    /// More agents than the policy supports under the game's dynamics.
    TooManyAgents,
}

} // verus!
