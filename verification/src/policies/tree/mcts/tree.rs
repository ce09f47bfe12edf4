//! The tree of a Monte-Carlo search.
//!
//! A decision has one table of arms, for its mover, and one link per arm. A simultaneous decision
//! has a table for every agent, and one link for every joint choice of arms, the last agent
//! varying fastest. A chance state has one link per outcome slot, or none where outcomes are
//! redrawn: those it keeps in a sparse map.

use std::collections::HashMap;

use vstd::prelude::*;

use crate::game::ChanceDist;
#[allow(unused_imports)]
use crate::game::ChanceModel;
use crate::num::Scalar;
use crate::rng::SplitMix64;

verus! {

/// One choice of an agent, and what has come of it.
#[derive(Clone, Copy)]
pub struct Arm<N> {
    pub action: usize,
    pub visits: u32,
    pub value_sum: N,
    pub prior: N,
}

/// An agent's choices at a node.
pub struct Table<N> {
    pub agent: usize,
    pub arms: Vec<Arm<N>>,
    pub total_visits: u32,
    /// The priors have been set.
    pub evaluated: bool,
}

/// A table as a mathematical value.
#[verifier::ext_equal]
pub struct TableModel<N> {
    pub agent: usize,
    pub arms: Seq<Arm<N>>,
    pub total_visits: u32,
    pub evaluated: bool,
}

impl<N> View for Table<N> {
    type V = TableModel<N>;

    open spec fn view(&self) -> TableModel<N> {
        TableModel {
            agent: self.agent,
            arms: self.arms@,
            total_visits: self.total_visits,
            evaluated: self.evaluated,
        }
    }
}

/// Tables as mathematical values.
pub open spec fn table_models<N>(tables: Seq<Table<N>>) -> Seq<TableModel<N>> {
    tables.map_values(|t: Table<N>| t@)
}

/// Where a choice leads, once taken, and the rewards met on the way: the mover's alone in two-agent
/// trees, every agent's otherwise.
pub struct Link<N> {
    pub child: Option<usize>,
    pub rewards: Vec<N>,
}

/// A link as a mathematical value.
#[verifier::ext_equal]
pub struct LinkModel<N> {
    pub child: Option<usize>,
    pub rewards: Seq<N>,
}

impl<N> View for Link<N> {
    type V = LinkModel<N>;

    open spec fn view(&self) -> LinkModel<N> {
        LinkModel { child: self.child, rewards: self.rewards@ }
    }
}

/// Links as mathematical values.
pub open spec fn link_models<N>(links: Seq<Link<N>>) -> Seq<LinkModel<N>> {
    links.map_values(|l: Link<N>| l@)
}

/// What a chance node holds beside its links.
pub struct ChanceSpot<N> {
    pub dist: ChanceDist<N>,
    /// The outcomes frozen at expansion, slot by slot.
    pub committed: Vec<usize>,
    /// The outcomes met so far, where they are redrawn.
    pub resampled: HashMap<usize, usize>,
    /// The weights of a flattened chain's outcomes.
    pub fan_weights: Vec<N>,
}

/// A chance node's contents as a mathematical value.
#[verifier::ext_equal]
pub struct ChanceSpotModel<N> {
    pub dist: ChanceModel<N>,
    pub committed: Seq<usize>,
    pub resampled: Map<usize, usize>,
    pub fan_weights: Seq<N>,
}

impl<N> View for ChanceSpot<N> {
    type V = ChanceSpotModel<N>;

    open spec fn view(&self) -> ChanceSpotModel<N> {
        ChanceSpotModel {
            dist: self.dist@,
            committed: self.committed@,
            resampled: self.resampled@,
            fan_weights: self.fan_weights@,
        }
    }
}

/// What happens at a node.
pub enum Kind<N> {
    Decision,
    Simultaneous,
    Chance(ChanceSpot<N>),
}

/// A node's kind as a mathematical value.
#[verifier::ext_equal]
pub enum KindModel<N> {
    Decision,
    Simultaneous,
    Chance(ChanceSpotModel<N>),
}

impl<N> View for Kind<N> {
    type V = KindModel<N>;

    open spec fn view(&self) -> KindModel<N> {
        match self {
            Kind::Decision => KindModel::Decision,
            Kind::Simultaneous => KindModel::Simultaneous,
            Kind::Chance(spot) => KindModel::Chance(spot@),
        }
    }
}

/// A node of the tree.
pub struct Node<S, F, N> {
    pub state: S,
    pub actor: usize,
    pub depth: i32,
    pub terminal: bool,
    pub kind: Kind<N>,
    pub tables: Vec<Table<N>>,
    pub links: Vec<Link<N>>,
    /// The node's own values: the mover's alone in two-agent trees, every agent's otherwise.
    pub values: Vec<N>,
    /// The rows that its evaluation takes, each with the player it is for.
    pub rows: Vec<(usize, Vec<F>)>,
    /// The rewards of the chance edge that leads here, agent by agent; none where none was met.
    pub chance_in: Vec<N>,
}

/// A node as a mathematical value.
#[verifier::ext_equal]
pub struct NodeModel<S, F, N> {
    pub state: S,
    pub actor: usize,
    pub depth: i32,
    pub terminal: bool,
    pub kind: KindModel<N>,
    pub tables: Seq<TableModel<N>>,
    pub links: Seq<LinkModel<N>>,
    pub values: Seq<N>,
    pub rows: Seq<(usize, Seq<F>)>,
    pub chance_in: Seq<N>,
}

/// Rows as mathematical values.
pub open spec fn row_models<F>(rows: Seq<(usize, Vec<F>)>) -> Seq<(usize, Seq<F>)> {
    rows.map_values(|r: (usize, Vec<F>)| (r.0, r.1@))
}

impl<S, F, N> View for Node<S, F, N> {
    type V = NodeModel<S, F, N>;

    open spec fn view(&self) -> NodeModel<S, F, N> {
        NodeModel {
            state: self.state,
            actor: self.actor,
            depth: self.depth,
            terminal: self.terminal,
            kind: self.kind@,
            tables: table_models(self.tables@),
            links: link_models(self.links@),
            values: self.values@,
            rows: row_models(self.rows@),
            chance_in: self.chance_in@,
        }
    }
}

/// An arena as a mathematical value.
pub open spec fn node_models<S, F, N>(arena: Seq<Node<S, F, N>>) -> Seq<NodeModel<S, F, N>> {
    arena.map_values(|n: Node<S, F, N>| n@)
}

/// How values are backed up.
#[derive(Clone, Copy, PartialEq, Eq, Debug, Structural)]
pub enum TreeMode {
    /// One value, whose sign turns with the mover.
    SeqNegamax,
    /// Every agent's value; each mover maximizes its own.
    SeqMaxN,
    /// Every agent's value; all move at once.
    Sim,
}

/// Work that waits for rows.
#[derive(Clone, Copy, PartialEq, Eq, Debug, Structural)]
pub enum PendingWork {
    Fan,
    NodeEval(usize),
}

/// One search tree.
pub struct Tree<S, F, N> {
    pub arena: Vec<Node<S, F, N>>,
    pub sims: usize,
    /// The choices of the simulation under way.
    pub path: Vec<(usize, usize)>,
    /// Where it ended.
    pub leaf: usize,
    pub requester: usize,
    pub mode: TreeMode,
    pub n_agents: usize,
    pub max_depth_seen: i32,
    pub rng: SplitMix64,
    /// What the rows still missing are for, and how many they are.
    pub pending: Option<(PendingWork, usize)>,
    pub terminal_sims: usize,
    pub depthcap_sims: usize,
    pub shared_rows: usize,
    pub fresh_rows: usize,
    pub hit_rows: usize,
    pub extra_eval_rows: usize,
    /// Chance rewards that join the parent edge before its discount.
    pub pend_seed: Vec<N>,
}

/// A tree as a mathematical value.
#[verifier::ext_equal]
pub struct TreeModel<S, F, N> {
    pub arena: Seq<NodeModel<S, F, N>>,
    pub sims: usize,
    pub path: Seq<(usize, usize)>,
    pub leaf: usize,
    pub requester: usize,
    pub mode: TreeMode,
    pub n_agents: usize,
    pub max_depth_seen: i32,
    pub rng: SplitMix64,
    pub pending: Option<(PendingWork, usize)>,
    pub terminal_sims: usize,
    pub depthcap_sims: usize,
    pub shared_rows: usize,
    pub fresh_rows: usize,
    pub hit_rows: usize,
    pub extra_eval_rows: usize,
    pub pend_seed: Seq<N>,
}

impl<S, F, N> View for Tree<S, F, N> {
    type V = TreeModel<S, F, N>;

    open spec fn view(&self) -> TreeModel<S, F, N> {
        TreeModel {
            arena: node_models(self.arena@),
            sims: self.sims,
            path: self.path@,
            leaf: self.leaf,
            requester: self.requester,
            mode: self.mode,
            n_agents: self.n_agents,
            max_depth_seen: self.max_depth_seen,
            rng: self.rng,
            pending: self.pending,
            terminal_sims: self.terminal_sims,
            depthcap_sims: self.depthcap_sims,
            shared_rows: self.shared_rows,
            fresh_rows: self.fresh_rows,
            hit_rows: self.hit_rows,
            extra_eval_rows: self.extra_eval_rows,
            pend_seed: self.pend_seed@,
        }
    }
}

impl<S, F, N: Scalar> TreeModel<S, F, N> {
    /// Every simulation has one fate: it ended at a terminal or at the depth cap, or it asked for
    /// rows, of which all but one are extra.
    pub open spec fn accounted(self) -> bool {
        self.sims + self.extra_eval_rows == self.fresh_rows + self.hit_rows + self.shared_rows
            + self.terminal_sims + self.depthcap_sims
    }
}

/// Two trees with the same accounts, of the same request.
pub open spec fn same_counts<S, F, N>(a: TreeModel<S, F, N>, b: TreeModel<S, F, N>) -> bool {
    &&& b.sims == a.sims
    &&& b.requester == a.requester
    &&& b.mode == a.mode
    &&& b.n_agents == a.n_agents
    &&& b.pending == a.pending
    &&& b.terminal_sims == a.terminal_sims
    &&& b.depthcap_sims == a.depthcap_sims
    &&& b.shared_rows == a.shared_rows
    &&& b.fresh_rows == a.fresh_rows
    &&& b.hit_rows == a.hit_rows
    &&& b.extra_eval_rows == a.extra_eval_rows
}

} // verus!
