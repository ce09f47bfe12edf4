//! The search tree and its growth.

use vstd::prelude::*;

use super::fan::{chain_fan, scored, Outcome};
#[allow(unused_imports)]
use super::fan::{spec_chain_fan, spec_scored};
use crate::encoder::StateEncoder;
use crate::fault::Fault;
use crate::game::{Actor, Game};
use crate::num::Scalar;
use crate::order::{stable_sort, Ascending, Precedence};
#[allow(unused_imports)]
use crate::order::{law_sorted_permutes, lemma_sorted_all, sorted, Before};
use crate::policy::{ChanceMode, MAX_ENUMERATED_OUTCOMES, MAX_JOINT_SLOTS};
use crate::reward::Reward;
use crate::rng::SplitMix64;
use crate::util::{copied, filled};
#[allow(unused_imports)]
use crate::util::spec_filled;

verus! {

/// Belief model for each co-mover's action.
#[derive(Clone, Copy)]
pub enum Opponent<N> {
    Uniform,
    Distributional { temperature: N, floor: N },
    /// Minimax: opponent decisions back up as a minimum over their moves; `move_cap` beams
    /// non-root nodes by their own leaf evaluation (`usize::MAX` is full width).
    Adversarial { move_cap: usize },
}

/// Game-independent selective-search parameters.
#[derive(Clone, Copy)]
pub struct SearchConfig<N> {
    pub gamma: N,
    pub beta: N,
    pub expansion_budget: usize,
    pub top_k: usize,
    pub max_depth: i32,
    pub chance: ChanceMode,
    pub opponent: Opponent<N>,
}

/// Search accounting, shared by every tree search.
#[derive(Clone, Copy, Debug)]
pub struct SearchStats<N> {
    pub max_depth: i32,
    pub expansions: usize,
    pub leaves: usize,
    pub rounds: usize,
    pub sigma_sum: N,
    pub terminal_sims: usize,
    pub depthcap_sims: usize,
    pub shared_rows: usize,
    pub fresh_rows: usize,
    pub hit_rows: usize,
    pub extra_eval_rows: usize,
}

impl<N: Scalar> SearchStats<N> {
    /// Nothing searched yet.
    pub open spec fn none() -> Self {
        SearchStats {
            max_depth: 0,
            expansions: 0,
            leaves: 0,
            rounds: 0,
            sigma_sum: N::spec_zero(),
            terminal_sims: 0,
            depthcap_sims: 0,
            shared_rows: 0,
            fresh_rows: 0,
            hit_rows: 0,
            extra_eval_rows: 0,
        }
    }
}

impl<N: Scalar> Default for SearchStats<N> {
    fn default() -> (r: Self)
        ensures
            r == Self::none(),
    {
        SearchStats {
            max_depth: 0,
            expansions: 0,
            leaves: 0,
            rounds: 0,
            sigma_sum: N::zero(),
            terminal_sims: 0,
            depthcap_sims: 0,
            shared_rows: 0,
            fresh_rows: 0,
            hit_rows: 0,
            extra_eval_rows: 0,
        }
    }
}

/// Whose row values a leaf: the mover's own where the search is adversarial, the searcher's
/// otherwise.
pub open spec fn leaf_player<N: Scalar, G: Game<N>>(
    game: G,
    cfg: SearchConfig<N>,
    state: G::State,
    agent: usize,
) -> usize {
    if cfg.opponent is Adversarial {
        match game.spec_actor(state) {
            Actor::Agent(mover) => mover,
            _ => agent,
        }
    } else {
        agent
    }
}

/// Finds whose row values a leaf.
pub(crate) fn find_leaf_player<N: Scalar, G: Game<N>>(
    game: &G,
    cfg: &SearchConfig<N>,
    state: &G::State,
    agent: usize,
) -> (r: usize)
    ensures
        r == leaf_player(*game, *cfg, *state, agent),
{
    match cfg.opponent {
        Opponent::Adversarial { .. } => match game.actor(state) {
            Actor::Agent(mover) => mover,
            _ => agent,
        },
        _ => agent,
    }
}

/// One way that an edge can turn out. Deferred factors are looked up in routed co-mover rows, then
/// multiplied by `scale`.
pub struct Branch<N> {
    pub weight: N,
    pub deferred: Vec<(usize, usize)>,
    pub scale: N,
    pub reward: N,
    pub child: usize,
}

/// A branch as a mathematical value.
#[verifier::ext_equal]
pub struct BranchModel<N> {
    pub weight: N,
    pub deferred: Seq<(usize, usize)>,
    pub scale: N,
    pub reward: N,
    pub child: usize,
}

impl<N> View for Branch<N> {
    type V = BranchModel<N>;

    open spec fn view(&self) -> BranchModel<N> {
        BranchModel {
            weight: self.weight,
            deferred: self.deferred@,
            scale: self.scale,
            reward: self.reward,
            child: self.child,
        }
    }
}

/// Branches as mathematical values.
pub open spec fn branch_models<N>(branches: Seq<Branch<N>>) -> Seq<BranchModel<N>> {
    branches.map_values(|b: Branch<N>| b@)
}

/// One action's branches.
pub struct Edge<N> {
    pub branches: Vec<Branch<N>>,
}

impl<N> View for Edge<N> {
    type V = Seq<BranchModel<N>>;

    open spec fn view(&self) -> Seq<BranchModel<N>> {
        branch_models(self.branches@)
    }
}

/// Edges as mathematical values.
pub open spec fn edge_models<N>(edges: Seq<Edge<N>>) -> Seq<Seq<BranchModel<N>>> {
    edges.map_values(|e: Edge<N>| e@)
}

/// A node of the tree.
pub struct Node<S, F, N> {
    pub state: S,
    pub obs: Vec<F>,
    pub depth: i32,
    pub terminal: bool,
    pub edges: Option<Vec<Edge<N>>>,
    pub bootstrap: Vec<N>,
    pub sigma: N,
    pub path_weight: N,
    /// The searcher decides here.
    pub max_node: bool,
    /// The opponent decides here: a minimum over edges, in the searcher's perspective.
    pub min_node: bool,
    /// The node's own leaf evaluation, kept to order a beamed expansion.
    pub q_row: Vec<N>,
}

/// A node as a mathematical value.
#[verifier::ext_equal]
pub struct NodeModel<S, F, N> {
    pub state: S,
    pub obs: Seq<F>,
    pub depth: i32,
    pub terminal: bool,
    pub edges: Option<Seq<Seq<BranchModel<N>>>>,
    pub bootstrap: Seq<N>,
    pub sigma: N,
    pub path_weight: N,
    pub max_node: bool,
    pub min_node: bool,
    pub q_row: Seq<N>,
}

impl<S, F, N> View for Node<S, F, N> {
    type V = NodeModel<S, F, N>;

    open spec fn view(&self) -> NodeModel<S, F, N> {
        NodeModel {
            state: self.state,
            obs: self.obs@,
            depth: self.depth,
            terminal: self.terminal,
            edges: match self.edges {
                Some(edges) => Some(edge_models(edges@)),
                None => None,
            },
            bootstrap: self.bootstrap@,
            sigma: self.sigma,
            path_weight: self.path_weight,
            max_node: self.max_node,
            min_node: self.min_node,
            q_row: self.q_row@,
        }
    }
}

/// An arena as a mathematical value.
pub open spec fn node_models<S, F, N>(arena: Seq<Node<S, F, N>>) -> Seq<NodeModel<S, F, N>> {
    arena.map_values(|n: Node<S, F, N>| n@)
}

/// A node as it enters the tree.
pub open spec fn fresh_node<S, F, N: Scalar>(
    state: S,
    obs: Seq<F>,
    depth: i32,
    terminal: bool,
) -> NodeModel<S, F, N> {
    NodeModel {
        state,
        obs,
        depth,
        terminal,
        edges: None,
        bootstrap: Seq::empty(),
        sigma: N::spec_zero(),
        path_weight: N::spec_one(),
        max_node: false,
        min_node: false,
        q_row: Seq::empty(),
    }
}

fn new_node<S, F, N: Scalar>(state: S, obs: Vec<F>, depth: i32, terminal: bool) -> (r: Node<S, F, N>)
    ensures
        r@ == fresh_node::<S, F, N>(state, obs@, depth, terminal),
{
    Node {
        state,
        obs,
        depth,
        terminal,
        edges: None,
        bootstrap: Vec::new(),
        sigma: N::zero(),
        path_weight: N::one(),
        max_node: false,
        min_node: false,
        q_row: Vec::new(),
    }
}

/// One search: its tree, the nodes that may still be expanded, and the current round.
pub struct Search<S, F, N> {
    pub arena: Vec<Node<S, F, N>>,
    pub frontier: Vec<usize>,
    pub agent: usize,
    pub n_heads: usize,
    pub stats: SearchStats<N>,
    /// The nodes expanded in this round.
    pub batch: Vec<usize>,
    /// The co-mover rows of this round.
    pub opp_obs: Vec<Vec<F>>,
    /// Whose rows they are, and the actions legal there.
    pub opp_legal: Vec<(usize, Vec<usize>)>,
    /// The leaves of this round.
    pub new_leaves: Vec<usize>,
    pub rng: SplitMix64,
}

/// A search as a mathematical value.
#[verifier::ext_equal]
pub struct SearchModel<S, F, N> {
    pub arena: Seq<NodeModel<S, F, N>>,
    pub frontier: Seq<usize>,
    pub agent: usize,
    pub n_heads: usize,
    pub stats: SearchStats<N>,
    pub batch: Seq<usize>,
    pub opp_obs: Seq<Seq<F>>,
    pub opp_legal: Seq<(usize, Seq<usize>)>,
    pub new_leaves: Seq<usize>,
    pub rng: SplitMix64,
}

/// Rows as mathematical values.
pub open spec fn rows_of<F>(rows: Seq<Vec<F>>) -> Seq<Seq<F>> {
    rows.map_values(|r: Vec<F>| r@)
}

/// Legal sets as mathematical values.
pub open spec fn legal_of(rows: Seq<(usize, Vec<usize>)>) -> Seq<(usize, Seq<usize>)> {
    rows.map_values(|r: (usize, Vec<usize>)| (r.0, r.1@))
}

impl<S, F, N> View for Search<S, F, N> {
    type V = SearchModel<S, F, N>;

    open spec fn view(&self) -> SearchModel<S, F, N> {
        SearchModel {
            arena: node_models(self.arena@),
            frontier: self.frontier@,
            agent: self.agent,
            n_heads: self.n_heads,
            stats: self.stats,
            batch: self.batch@,
            opp_obs: rows_of(self.opp_obs@),
            opp_legal: legal_of(self.opp_legal@),
            new_leaves: self.new_leaves@,
            rng: self.rng,
        }
    }
}

/// A search about to begin at `state`.
pub open spec fn opened<S, F, N: Scalar>(state: S, agent: usize, seed: u64) -> SearchModel<S, F, N> {
    SearchModel {
        arena: seq![fresh_node(state, Seq::empty(), 0, false)],
        frontier: seq![0usize],
        agent,
        n_heads: 1,
        stats: SearchStats::none(),
        batch: Seq::empty(),
        opp_obs: Seq::empty(),
        opp_legal: Seq::empty(),
        new_leaves: Seq::empty(),
        rng: crate::rng::generator(seed),
    }
}

/// Children lie behind their parents, inside the arena.
pub open spec fn rooted<S, F, N>(arena: Seq<NodeModel<S, F, N>>) -> bool {
    forall|i: int, e: int, b: int|
        #![trigger arena[i].edges->0[e][b]]
        0 <= i < arena.len() && arena[i].edges is Some && 0 <= e < arena[i].edges->0.len() && 0 <= b
            < arena[i].edges->0[e].len() ==> i < arena[i].edges->0[e][b].child < arena.len()
}

impl<S, F, N: Scalar> SearchModel<S, F, N> {
    /// Every index is in range, children lie behind their parents, nothing on the frontier is too
    /// deep to have a child, and the counts are those of real nodes.
    pub open spec fn wf(self, budget: usize) -> bool {
        &&& 0 < self.arena.len() <= MAX_ENUMERATED_OUTCOMES
        &&& rooted(self.arena)
        &&& forall|i: int| 0 <= i < self.arena.len() ==> 0 <= (#[trigger] self.arena[i]).depth
        &&& forall|i: int|
            0 <= i < self.frontier.len() ==> (#[trigger] self.frontier[i]) < self.arena.len()
                && self.arena[self.frontier[i] as int].depth < i32::MAX
        &&& self.stats.rounds <= self.stats.expansions <= budget
        &&& self.stats.leaves <= self.arena.len()
    }

    pub open spec fn active(self, budget: usize) -> bool {
        self.frontier.len() > 0 && self.stats.expansions < budget
    }
}

impl<S, F, N: Scalar> Search<S, F, N> {
    pub fn new(state: S, agent: usize, seed: u64) -> (r: Search<S, F, N>)
        ensures
            r@ == opened::<S, F, N>(state, agent, seed),
            forall|budget: usize| #[trigger] r@.wf(budget),
    {
        let mut arena: Vec<Node<S, F, N>> = Vec::new();
        arena.push(new_node(state, Vec::new(), 0, false));
        let mut frontier: Vec<usize> = Vec::new();
        frontier.push(0);
        let r = Search {
            arena,
            frontier,
            agent,
            n_heads: 1,
            stats: SearchStats::default(),
            batch: Vec::new(),
            opp_obs: Vec::new(),
            opp_legal: Vec::new(),
            new_leaves: Vec::new(),
            rng: SplitMix64::new(seed),
        };
        assert(r@ =~= opened::<S, F, N>(state, agent, seed));
        r
    }

    pub fn active(&self, budget: usize) -> (r: bool)
        ensures
            r == self@.active(budget),
    {
        self.frontier.len() > 0 && self.stats.expansions < budget
    }
}

/// What a search consults and never changes.
pub struct Ctx<'a, N, G, E, W> {
    pub game: &'a G,
    pub enc: &'a E,
    pub reward: &'a W,
    pub cfg: SearchConfig<N>,
}

/// How likely a co-mover's action is: known, or read from a routed row later.
#[derive(Clone, Copy)]
pub enum BranchWeight<N> {
    Fixed(N),
    Deferred(usize, usize),
}

/// The weight of a joint move: a known factor and the factors to be read later.
pub struct MoveWeight<N> {
    pub fixed: N,
    pub deferred: Vec<(usize, usize)>,
}

/// A move weight as a mathematical value.
#[verifier::ext_equal]
pub struct MoveWeightModel<N> {
    pub fixed: N,
    pub deferred: Seq<(usize, usize)>,
}

impl<N> View for MoveWeight<N> {
    type V = MoveWeightModel<N>;

    open spec fn view(&self) -> MoveWeightModel<N> {
        MoveWeightModel { fixed: self.fixed, deferred: self.deferred@ }
    }
}

impl<N: Scalar> MoveWeightModel<N> {
    /// The weight of a lone move.
    pub open spec fn lone(bw: BranchWeight<N>) -> Self {
        match bw {
            BranchWeight::Fixed(f) => MoveWeightModel { fixed: f, deferred: Seq::empty() },
            BranchWeight::Deferred(oi, si) => MoveWeightModel {
                fixed: N::spec_one(),
                deferred: seq![(oi, si)],
            },
        }
    }

    /// The weight with one more move's factor.
    pub open spec fn joined(self, bw: BranchWeight<N>) -> Self {
        match bw {
            BranchWeight::Fixed(f) => MoveWeightModel { fixed: self.fixed.spec_times(f), ..self },
            BranchWeight::Deferred(oi, si) => MoveWeightModel {
                deferred: self.deferred.push((oi, si)),
                ..self
            },
        }
    }
}

impl<N: Scalar> MoveWeight<N> {
    /// The weight of a lone move.
    pub fn lone(bw: BranchWeight<N>) -> (r: MoveWeight<N>)
        ensures
            r@ == MoveWeightModel::lone(bw),
    {
        let mut deferred: Vec<(usize, usize)> = Vec::new();
        match bw {
            BranchWeight::Fixed(f) => MoveWeight { fixed: f, deferred },
            BranchWeight::Deferred(oi, si) => {
                deferred.push((oi, si));
                assert(deferred@ =~= seq![(oi, si)]);
                MoveWeight { fixed: N::one(), deferred }
            },
        }
    }
}

/// A tree grown by branches: what was there stays, what is new is a fresh node of `depth`.
pub open spec fn grown_from<S, F, N: Scalar>(
    before: SearchModel<S, F, N>,
    after: SearchModel<S, F, N>,
    depth: i32,
) -> bool {
    &&& before.arena.len() <= after.arena.len() <= MAX_ENUMERATED_OUTCOMES
    &&& forall|i: int| 0 <= i < before.arena.len() ==> #[trigger] after.arena[i] == before.arena[i]
    &&& forall|i: int|
        before.arena.len() <= i < after.arena.len() ==> (#[trigger] after.arena[i]).edges is None
            && after.arena[i].depth == depth
    &&& before.new_leaves.len() <= after.new_leaves.len()
    &&& forall|i: int|
        0 <= i < before.new_leaves.len() ==> #[trigger] after.new_leaves[i] == before.new_leaves[i]
    &&& forall|i: int|
        before.new_leaves.len() <= i < after.new_leaves.len() ==> before.arena.len()
            <= #[trigger] after.new_leaves[i] < after.arena.len()
    &&& after.new_leaves.len() - before.new_leaves.len() <= after.arena.len() - before.arena.len()
    &&& after.frontier == before.frontier
    &&& after.agent == before.agent
    &&& after.n_heads == before.n_heads
    &&& after.stats == before.stats
    &&& after.batch == before.batch
    &&& before.opp_obs.len() == before.opp_legal.len() ==> after.opp_obs.len()
        == after.opp_legal.len()
}

/// Branches whose children were added after `before`.
pub open spec fn new_children<S, F, N: Scalar>(
    before: SearchModel<S, F, N>,
    after: SearchModel<S, F, N>,
    branches: Seq<BranchModel<N>>,
) -> bool {
    forall|i: int|
        0 <= i < branches.len() ==> before.arena.len() <= (#[trigger] branches[i]).child
            < after.arena.len()
}

/// The branches and nodes for the outcomes from `i` on.
pub open spec fn branched<
    N: Scalar,
    G: Game<N>,
    E: StateEncoder<State = G::State>,
    W: Reward<N, Event = G::Event>,
>(
    ctx: Ctx<N, G, E, W>,
    mw: MoveWeightModel<N>,
    out_terminal: bool,
    depth: i32,
    step_reward: N,
    outcomes: Seq<Outcome<G::State, N>>,
    i: nat,
    m: SearchModel<G::State, E::Feature, N>,
    branches: Seq<BranchModel<N>>,
) -> Result<(SearchModel<G::State, E::Feature, N>, Seq<BranchModel<N>>), Fault>
    decreases outcomes.len() - i,
{
    if i >= outcomes.len() {
        Ok((m, branches))
    } else if m.arena.len() >= MAX_ENUMERATED_OUTCOMES {
        Err(Fault::TreeLimit)
    } else {
        let o = outcomes[i as int];
        let terminal = o.terminal || (out_terminal && ctx.game.spec_legal_actions(
            o.state,
            m.agent,
        ).len() == 0);
        let idx = m.arena.len() as usize;
        let below = (depth + 1) as i32;
        let next = if terminal {
            SearchModel {
                arena: m.arena.push(fresh_node(o.state, Seq::empty(), below, true)),
                ..m
            }
        } else {
            SearchModel {
                arena: m.arena.push(
                    fresh_node(
                        o.state,
                        ctx.enc.spec_encode(
                            o.state,
                            leaf_player(*ctx.game, ctx.cfg, o.state, m.agent),
                        ),
                        below,
                        false,
                    ),
                ),
                new_leaves: m.new_leaves.push(idx),
                ..m
            }
        };
        let mass = mw.fixed.spec_times(o.prob);
        let branch = BranchModel {
            weight: if mw.deferred.len() == 0 {
                mass
            } else {
                N::spec_zero()
            },
            deferred: mw.deferred,
            scale: if mw.deferred.len() == 0 {
                N::spec_one()
            } else {
                mass
            },
            reward: step_reward.spec_plus(o.reward),
            child: idx,
        };
        branched(
            ctx,
            mw,
            out_terminal,
            depth,
            step_reward,
            outcomes,
            i + 1,
            next,
            branches.push(branch),
        )
    }
}

/// The tree with every outcome of a joint move added, and the move's branches.
pub open spec fn spec_push_branches<
    N: Scalar,
    G: Game<N>,
    E: StateEncoder<State = G::State>,
    W: Reward<N, Event = G::Event>,
>(
    ctx: Ctx<N, G, E, W>,
    m: SearchModel<G::State, E::Feature, N>,
    state: G::State,
    joint: Seq<usize>,
    mw: MoveWeightModel<N>,
    out_terminal: bool,
    depth: i32,
    branches: Seq<BranchModel<N>>,
) -> Result<(SearchModel<G::State, E::Feature, N>, Seq<BranchModel<N>>), Fault> {
    let t = ctx.game.spec_step(state, joint);
    match spec_scored(*ctx.reward, t.events, m.agent) {
        Err(f) => Err(f),
        Ok(step_reward) => {
            let (outcomes, rng) = spec_chain_fan(
                *ctx.game,
                *ctx.reward,
                ctx.cfg.chance,
                m.agent,
                t.next_state,
                t.terminal,
                m.rng,
            );
            match outcomes {
                Err(f) => Err(f),
                Ok(outcomes) => branched(
                    ctx,
                    mw,
                    out_terminal,
                    depth,
                    step_reward,
                    outcomes,
                    0,
                    SearchModel { rng, ..m },
                    branches,
                ),
            }
        },
    }
}

/// Adds every outcome of a joint move to the tree, and its branches to `branches`. An agent
/// without a legal action is out of the game only where `out_terminal` says so.
fn push_branches<
    N: Scalar,
    G: Game<N>,
    E: StateEncoder<State = G::State>,
    W: Reward<N, Event = G::Event>,
>(
    s: &mut Search<G::State, E::Feature, N>,
    ctx: &Ctx<N, G, E, W>,
    state: &G::State,
    joint: &[usize],
    mw: &MoveWeight<N>,
    out_terminal: bool,
    depth: i32,
    branches: &mut Vec<Branch<N>>,
) -> (r: Result<(), Fault>)
    requires
        depth < i32::MAX,
        old(s)@.arena.len() <= MAX_ENUMERATED_OUTCOMES,
    ensures
        match r {
            Ok(_) => {
                &&& spec_push_branches(
                    *ctx,
                    old(s)@,
                    *state,
                    joint@,
                    mw@,
                    out_terminal,
                    depth,
                    branch_models(old(branches)@),
                ) == Ok::<_, Fault>((final(s)@, branch_models(final(branches)@)))
                &&& grown_from(old(s)@, final(s)@, (depth + 1) as i32)
                &&& final(branches)@.len() >= old(branches)@.len()
                &&& forall|i: int|
                    0 <= i < old(branches)@.len() ==> #[trigger] final(branches)@[i] == old(
                        branches,
                    )@[i]
                &&& forall|i: int|
                    old(branches)@.len() <= i < final(branches)@.len() ==> old(s)@.arena.len() <= (
                    #[trigger] final(branches)@[i]).child < final(s)@.arena.len()
            },
            Err(f) => spec_push_branches(
                *ctx,
                old(s)@,
                *state,
                joint@,
                mw@,
                out_terminal,
                depth,
                branch_models(old(branches)@),
            ) == Err::<(SearchModel<G::State, E::Feature, N>, Seq<BranchModel<N>>), _>(f),
        },
{
    let t = ctx.game.step(state, joint);
    let agent = s.agent;
    let step_reward = match scored(ctx.reward, &t.events, agent) {
        Ok(step_reward) => step_reward,
        Err(f) => return Err(f),
    };
    let outcomes = match chain_fan(
        ctx.game,
        ctx.reward,
        ctx.cfg.chance,
        agent,
        t.next_state,
        t.terminal,
        &mut s.rng,
    ) {
        Ok(outcomes) => outcomes,
        Err(f) => return Err(f),
    };
    let ghost all = outcomes@;
    let ghost goal = spec_push_branches(
        *ctx,
        old(s)@,
        *state,
        joint@,
        mw@,
        out_terminal,
        depth,
        branch_models(old(branches)@),
    );
    let below = depth + 1;
    let mut i: usize = 0;
    assert(all.skip(0) =~= all);
    for o in it: outcomes
        invariant
            it.seq() == all,
            i == it.index(),
            all.len() <= usize::MAX,
            depth < i32::MAX,
            below == depth + 1,
            agent == s.agent,
            s@.agent == old(s)@.agent,
            goal == spec_push_branches(
                *ctx,
                old(s)@,
                *state,
                joint@,
                mw@,
                out_terminal,
                depth,
                branch_models(old(branches)@),
            ),
            branched(
                *ctx,
                mw@,
                out_terminal,
                depth,
                step_reward,
                all,
                i as nat,
                s@,
                branch_models(branches@),
            ) == goal,
            grown_from(old(s)@, s@, below),
            branches@.len() >= old(branches)@.len(),
            forall|k: int|
                0 <= k < old(branches)@.len() ==> #[trigger] branches@[k] == old(branches)@[k],
            forall|k: int|
                old(branches)@.len() <= k < branches@.len() ==> old(s)@.arena.len() <= (
                #[trigger] branches@[k]).child < s@.arena.len(),
    {
        assert(o == all[i as int]);
        if s.arena.len() >= MAX_ENUMERATED_OUTCOMES {
            return Err(Fault::TreeLimit);
        }
        let terminal = o.terminal || (out_terminal && ctx.game.legal_actions(
            &o.state,
            agent,
        ).len() == 0);
        let child = s.arena.len();
        let ghost held = s@;
        let ghost shown = o;
        if terminal {
            s.arena.push(new_node(o.state, Vec::new(), below, true));
            assert(s@ =~= SearchModel {
                arena: held.arena.push(fresh_node(shown.state, Seq::empty(), below, true)),
                ..held
            });
        } else {
            let player = find_leaf_player(ctx.game, &ctx.cfg, &o.state, agent);
            let obs = ctx.enc.encode(&o.state, player);
            let ghost row = obs@;
            s.arena.push(new_node(o.state, obs, below, false));
            s.new_leaves.push(child);
            assert(s@ =~= SearchModel {
                arena: held.arena.push(fresh_node(shown.state, row, below, false)),
                new_leaves: held.new_leaves.push(child),
                ..held
            });
        }
        let mass = mw.fixed.times(o.prob);
        let lone = mw.deferred.len() == 0;
        let branch = Branch {
            weight: if lone {
                mass
            } else {
                N::zero()
            },
            deferred: copied(&mw.deferred),
            scale: if lone {
                N::one()
            } else {
                mass
            },
            reward: step_reward.plus(o.reward),
            child,
        };
        let ghost listed = branch_models(branches@);
        let ghost model = branch@;
        branches.push(branch);
        assert(branch_models(branches@) =~= listed.push(model));
        i = i + 1;
    }
    Ok(())
}

/// Growth on growth is growth.
pub proof fn lemma_grown_trans<S, F, N: Scalar>(
    a: SearchModel<S, F, N>,
    b: SearchModel<S, F, N>,
    c: SearchModel<S, F, N>,
    depth: i32,
)
    requires
        grown_from(a, b, depth),
        grown_from(b, c, depth),
    ensures
        grown_from(a, c, depth),
{
    assert forall|i: int| 0 <= i < a.arena.len() implies #[trigger] c.arena[i] == a.arena[i] by {
        assert(b.arena[i] == a.arena[i]);
    }
    assert forall|i: int| a.arena.len() <= i < c.arena.len() implies (
    #[trigger] c.arena[i]).edges is None && c.arena[i].depth == depth by {
        if i < b.arena.len() {
            assert(c.arena[i] == b.arena[i]);
        }
    }
    assert forall|i: int| 0 <= i < a.new_leaves.len() implies #[trigger] c.new_leaves[i]
        == a.new_leaves[i] by {
        assert(b.new_leaves[i] == a.new_leaves[i]);
    }
    assert forall|i: int| a.new_leaves.len() <= i < c.new_leaves.len() implies a.arena.len()
        <= #[trigger] c.new_leaves[i] < c.arena.len() by {
        if i < b.new_leaves.len() {
            assert(c.new_leaves[i] == b.new_leaves[i]);
        }
    }
}

/// A co-mover's options at `state`: each action with its weight, and the search with the row that
/// deferred weights are read from.
pub open spec fn spec_agent_branching<
    N: Scalar,
    G: Game<N>,
    E: StateEncoder<State = G::State>,
    W: Reward<N, Event = G::Event>,
>(
    ctx: Ctx<N, G, E, W>,
    m: SearchModel<G::State, E::Feature, N>,
    state: G::State,
    mover: usize,
) -> (Seq<(usize, BranchWeight<N>)>, SearchModel<G::State, E::Feature, N>) {
    let legal = ctx.game.spec_legal_actions(state, mover);
    if legal.len() == 0 {
        (seq![(0usize, BranchWeight::Fixed(N::spec_one()))], m)
    } else if ctx.cfg.opponent is Distributional {
        let oi = m.opp_obs.len() as usize;
        (
            legal.map_values(|a: usize| (a, BranchWeight::Deferred(oi, a))),
            SearchModel {
                opp_obs: m.opp_obs.push(ctx.enc.spec_encode(state, mover)),
                opp_legal: m.opp_legal.push((mover, legal)),
                ..m
            },
        )
    } else {
        let prob = N::spec_one().spec_over(N::spec_count(legal.len() as u64));
        (legal.map_values(|a: usize| (a, BranchWeight::Fixed(prob))), m)
    }
}

fn agent_branching<
    N: Scalar,
    G: Game<N>,
    E: StateEncoder<State = G::State>,
    W: Reward<N, Event = G::Event>,
>(
    s: &mut Search<G::State, E::Feature, N>,
    ctx: &Ctx<N, G, E, W>,
    state: &G::State,
    mover: usize,
) -> (r: Vec<(usize, BranchWeight<N>)>)
    ensures
        (r@, final(s)@) == spec_agent_branching(*ctx, old(s)@, *state, mover),
        r@.len() > 0,
        final(s)@ == (SearchModel {
            opp_obs: final(s)@.opp_obs,
            opp_legal: final(s)@.opp_legal,
            ..old(s)@
        }),
        old(s)@.opp_obs.len() == old(s)@.opp_legal.len() ==> final(s)@.opp_obs.len()
            == final(s)@.opp_legal.len(),
{
    let legal = ctx.game.legal_actions(state, mover);
    let mut options: Vec<(usize, BranchWeight<N>)> = Vec::new();
    let ghost goal = spec_agent_branching(*ctx, old(s)@, *state, mover);
    if legal.len() == 0 {
        options.push((0, BranchWeight::Fixed(N::one())));
        assert(options@ =~= goal.0);
        return options;
    }
    let deferred = matches!(ctx.cfg.opponent, Opponent::Distributional { .. });
    let oi = s.opp_obs.len();
    let prob = N::one().over(N::count(legal.len() as u64));
    let mut i: usize = 0;
    while i < legal.len()
        invariant
            i <= legal@.len(),
            options@.len() == i,
            deferred ==> forall|k: int|
                0 <= k < i ==> #[trigger] options@[k] == (
                    legal@[k],
                    BranchWeight::<N>::Deferred(oi, legal@[k]),
                ),
            !deferred ==> forall|k: int|
                0 <= k < i ==> #[trigger] options@[k] == (legal@[k], BranchWeight::Fixed(prob)),
        decreases legal.len() - i,
    {
        let a = legal[i];
        if deferred {
            options.push((a, BranchWeight::Deferred(oi, a)));
        } else {
            options.push((a, BranchWeight::Fixed(prob)));
        }
        i = i + 1;
    }
    assert(options@ =~= goal.0);
    if deferred {
        let row = ctx.enc.encode(state, mover);
        s.opp_obs.push(row);
        s.opp_legal.push((mover, legal));
        assert(s@.opp_obs =~= goal.1.opp_obs);
        assert(s@.opp_legal =~= goal.1.opp_legal);
    }
    options
}

/// A joint move in which only `mover` acts.
pub open spec fn lone_move(num_agents: usize, mover: usize, action: usize) -> Seq<usize> {
    spec_filled(0usize, num_agents as nat).update(mover as int, action)
}

/// One edge for each move of `mover` from the `i`-th of `legal` on.
pub open spec fn moved<
    N: Scalar,
    G: Game<N>,
    E: StateEncoder<State = G::State>,
    W: Reward<N, Event = G::Event>,
>(
    ctx: Ctx<N, G, E, W>,
    state: G::State,
    mover: usize,
    legal: Seq<usize>,
    depth: i32,
    i: nat,
    m: SearchModel<G::State, E::Feature, N>,
    edges: Seq<Seq<BranchModel<N>>>,
) -> Result<(SearchModel<G::State, E::Feature, N>, Seq<Seq<BranchModel<N>>>), Fault>
    decreases legal.len() - i,
{
    if i >= legal.len() {
        Ok((m, edges))
    } else {
        match spec_push_branches(
            ctx,
            m,
            state,
            lone_move(ctx.game.spec_num_agents(), mover, legal[i as int]),
            MoveWeightModel { fixed: N::spec_one(), deferred: Seq::empty() },
            false,
            depth,
            Seq::empty(),
        ) {
            Err(f) => Err(f),
            Ok((next, branches)) => moved(
                ctx,
                state,
                mover,
                legal,
                depth,
                i + 1,
                next,
                edges.push(branches),
            ),
        }
    }
}

/// Edges whose children were added after `len` nodes.
pub open spec fn edges_within<N>(edges: Seq<Seq<BranchModel<N>>>, len: nat, end: nat) -> bool {
    forall|e: int, b: int|
        #![trigger edges[e][b]]
        0 <= e < edges.len() && 0 <= b < edges[e].len() ==> len <= edges[e][b].child < end
}

fn expand_moves<
    N: Scalar,
    G: Game<N>,
    E: StateEncoder<State = G::State>,
    W: Reward<N, Event = G::Event>,
>(
    s: &mut Search<G::State, E::Feature, N>,
    ctx: &Ctx<N, G, E, W>,
    state: &G::State,
    mover: usize,
    legal: &[usize],
    depth: i32,
) -> (r: Result<Vec<Edge<N>>, Fault>)
    requires
        mover < ctx.game.spec_num_agents(),
        depth < i32::MAX,
        old(s)@.arena.len() <= MAX_ENUMERATED_OUTCOMES,
    ensures
        match r {
            Ok(edges) => {
                &&& moved(*ctx, *state, mover, legal@, depth, 0, old(s)@, Seq::empty()) == Ok::<
                    _,
                    Fault,
                >((final(s)@, edge_models(edges@)))
                &&& grown_from(old(s)@, final(s)@, (depth + 1) as i32)
                &&& edges_within(
                    edge_models(edges@),
                    old(s)@.arena.len(),
                    final(s)@.arena.len(),
                )
            },
            Err(f) => moved(*ctx, *state, mover, legal@, depth, 0, old(s)@, Seq::empty()) == Err::<
                (SearchModel<G::State, E::Feature, N>, Seq<Seq<BranchModel<N>>>),
                _,
            >(f),
        },
{
    let num_agents = ctx.game.num_agents();
    let mut edges: Vec<Edge<N>> = Vec::new();
    let ghost goal = moved(*ctx, *state, mover, legal@, depth, 0, old(s)@, Seq::empty());
    let ghost below = (depth + 1) as i32;
    let mut i: usize = 0;
    assert(edge_models(edges@) =~= Seq::empty());
    while i < legal.len()
        invariant
            i <= legal@.len(),
            num_agents == ctx.game.spec_num_agents(),
            mover < num_agents,
            depth < i32::MAX,
            below == depth + 1,
            s@.arena.len() <= MAX_ENUMERATED_OUTCOMES,
            goal == moved(*ctx, *state, mover, legal@, depth, 0, old(s)@, Seq::empty()),
            moved(*ctx, *state, mover, legal@, depth, i as nat, s@, edge_models(edges@)) == goal,
            grown_from(old(s)@, s@, below),
            edges_within(edge_models(edges@), old(s)@.arena.len(), s@.arena.len()),
        decreases legal.len() - i,
    {
        let mut joint: Vec<usize> = filled(0usize, num_agents);
        joint.set(mover, legal[i]);
        assert(joint@ =~= lone_move(num_agents, mover, legal@[i as int]));
        let mut branches: Vec<Branch<N>> = Vec::new();
        let mw = MoveWeight { fixed: N::one(), deferred: Vec::new() };
        let ghost held = s@;
        assert(branch_models(branches@) =~= Seq::empty());
        assert(mw@ =~= MoveWeightModel { fixed: N::spec_one(), deferred: Seq::empty() });
        match push_branches(s, ctx, state, &joint, &mw, false, depth, &mut branches) {
            Ok(_) => {},
            Err(f) => return Err(f),
        }
        proof {
            lemma_grown_trans(old(s)@, held, s@, below);
        }
        let edge = Edge { branches };
        let ghost listed = edge_models(edges@);
        let ghost model = edge@;
        edges.push(edge);
        assert(edge_models(edges@) =~= listed.push(model));
        i = i + 1;
    }
    Ok(edges)
}

/// The branches of a lone mover's weighted options from the `i`-th on, as one edge.
pub open spec fn weighed<
    N: Scalar,
    G: Game<N>,
    E: StateEncoder<State = G::State>,
    W: Reward<N, Event = G::Event>,
>(
    ctx: Ctx<N, G, E, W>,
    state: G::State,
    mover: usize,
    options: Seq<(usize, BranchWeight<N>)>,
    depth: i32,
    i: nat,
    m: SearchModel<G::State, E::Feature, N>,
    branches: Seq<BranchModel<N>>,
) -> Result<(SearchModel<G::State, E::Feature, N>, Seq<BranchModel<N>>), Fault>
    decreases options.len() - i,
{
    if i >= options.len() {
        Ok((m, branches))
    } else {
        match spec_push_branches(
            ctx,
            m,
            state,
            lone_move(ctx.game.spec_num_agents(), mover, options[i as int].0),
            MoveWeightModel::lone(options[i as int].1),
            false,
            depth,
            branches,
        ) {
            Err(f) => Err(f),
            Ok((next, more)) => weighed(ctx, state, mover, options, depth, i + 1, next, more),
        }
    }
}

fn expand_weighed<
    N: Scalar,
    G: Game<N>,
    E: StateEncoder<State = G::State>,
    W: Reward<N, Event = G::Event>,
>(
    s: &mut Search<G::State, E::Feature, N>,
    ctx: &Ctx<N, G, E, W>,
    state: &G::State,
    mover: usize,
    options: &[(usize, BranchWeight<N>)],
    depth: i32,
) -> (r: Result<Vec<Branch<N>>, Fault>)
    requires
        mover < ctx.game.spec_num_agents(),
        depth < i32::MAX,
        old(s)@.arena.len() <= MAX_ENUMERATED_OUTCOMES,
    ensures
        match r {
            Ok(branches) => {
                &&& weighed(*ctx, *state, mover, options@, depth, 0, old(s)@, Seq::empty()) == Ok::<
                    _,
                    Fault,
                >((final(s)@, branch_models(branches@)))
                &&& grown_from(old(s)@, final(s)@, (depth + 1) as i32)
                &&& new_children(old(s)@, final(s)@, branch_models(branches@))
            },
            Err(f) => weighed(*ctx, *state, mover, options@, depth, 0, old(s)@, Seq::empty())
                == Err::<(SearchModel<G::State, E::Feature, N>, Seq<BranchModel<N>>), _>(f),
        },
{
    let num_agents = ctx.game.num_agents();
    let mut branches: Vec<Branch<N>> = Vec::new();
    let ghost goal = weighed(*ctx, *state, mover, options@, depth, 0, old(s)@, Seq::empty());
    let ghost below = (depth + 1) as i32;
    let mut i: usize = 0;
    assert(branch_models(branches@) =~= Seq::empty());
    while i < options.len()
        invariant
            i <= options@.len(),
            num_agents == ctx.game.spec_num_agents(),
            mover < num_agents,
            depth < i32::MAX,
            below == depth + 1,
            s@.arena.len() <= MAX_ENUMERATED_OUTCOMES,
            goal == weighed(*ctx, *state, mover, options@, depth, 0, old(s)@, Seq::empty()),
            weighed(*ctx, *state, mover, options@, depth, i as nat, s@, branch_models(branches@))
                == goal,
            grown_from(old(s)@, s@, below),
            forall|k: int|
                0 <= k < branches@.len() ==> old(s)@.arena.len() <= (
                #[trigger] branches@[k]).child < s@.arena.len(),
        decreases options.len() - i,
    {
        let (action, bw) = options[i];
        let mut joint: Vec<usize> = filled(0usize, num_agents);
        joint.set(mover, action);
        assert(joint@ =~= lone_move(num_agents, mover, action));
        let mw = MoveWeight::lone(bw);
        let ghost held = s@;
        match push_branches(s, ctx, state, &joint, &mw, false, depth, &mut branches) {
            Ok(_) => {},
            Err(f) => return Err(f),
        }
        proof {
            lemma_grown_trans(old(s)@, held, s@, below);
        }
        i = i + 1;
    }
    Ok(branches)
}

/// The agents below `n` other than `agent`.
pub open spec fn co_movers(n: nat, agent: usize) -> Seq<usize>
    decreases n,
{
    if n == 0 {
        Seq::empty()
    } else {
        let before = co_movers((n - 1) as nat, agent);
        if n - 1 == agent {
            before
        } else {
            before.push((n - 1) as usize)
        }
    }
}

fn list_co_movers(n: usize, agent: usize) -> (r: Vec<usize>)
    ensures
        r@ == co_movers(n as nat, agent),
        forall|i: int| 0 <= i < r@.len() ==> #[trigger] r@[i] < n && r@[i] != agent,
{
    let mut r: Vec<usize> = Vec::new();
    let mut i: usize = 0;
    while i < n
        invariant
            i <= n,
            r@ == co_movers(i as nat, agent),
            forall|k: int| 0 <= k < r@.len() ==> #[trigger] r@[k] < i && r@[k] != agent,
        decreases n - i,
    {
        if i != agent {
            r.push(i);
        }
        i = i + 1;
    }
    r
}

/// Options as mathematical values.
pub open spec fn options_of<N>(options: Seq<Vec<(usize, BranchWeight<N>)>>) -> Seq<
    Seq<(usize, BranchWeight<N>)>,
> {
    options.map_values(|o: Vec<(usize, BranchWeight<N>)>| o@)
}

/// The options of every mover from the `i`-th on.
pub open spec fn branchings<
    N: Scalar,
    G: Game<N>,
    E: StateEncoder<State = G::State>,
    W: Reward<N, Event = G::Event>,
>(
    ctx: Ctx<N, G, E, W>,
    state: G::State,
    movers: Seq<usize>,
    i: nat,
    m: SearchModel<G::State, E::Feature, N>,
    options: Seq<Seq<(usize, BranchWeight<N>)>>,
) -> (Seq<Seq<(usize, BranchWeight<N>)>>, SearchModel<G::State, E::Feature, N>)
    decreases movers.len() - i,
{
    if i >= movers.len() {
        (options, m)
    } else {
        let (more, next) = spec_agent_branching(ctx, m, state, movers[i as int]);
        branchings(ctx, state, movers, i + 1, next, options.push(more))
    }
}

fn co_branchings<
    N: Scalar,
    G: Game<N>,
    E: StateEncoder<State = G::State>,
    W: Reward<N, Event = G::Event>,
>(
    s: &mut Search<G::State, E::Feature, N>,
    ctx: &Ctx<N, G, E, W>,
    state: &G::State,
    movers: &[usize],
) -> (r: Vec<Vec<(usize, BranchWeight<N>)>>)
    ensures
        (options_of(r@), final(s)@) == branchings(*ctx, *state, movers@, 0, old(s)@, Seq::empty()),
        r@.len() == movers@.len(),
        forall|i: int| 0 <= i < r@.len() ==> (#[trigger] r@[i])@.len() > 0,
        final(s)@ == (SearchModel {
            opp_obs: final(s)@.opp_obs,
            opp_legal: final(s)@.opp_legal,
            ..old(s)@
        }),
        old(s)@.opp_obs.len() == old(s)@.opp_legal.len() ==> final(s)@.opp_obs.len()
            == final(s)@.opp_legal.len(),
{
    let mut r: Vec<Vec<(usize, BranchWeight<N>)>> = Vec::new();
    let mut i: usize = 0;
    assert(options_of(r@) =~= Seq::empty());
    while i < movers.len()
        invariant
            i <= movers@.len(),
            r@.len() == i,
            branchings(*ctx, *state, movers@, i as nat, s@, options_of(r@)) == branchings(
                *ctx,
                *state,
                movers@,
                0,
                old(s)@,
                Seq::empty(),
            ),
            forall|k: int| 0 <= k < r@.len() ==> (#[trigger] r@[k])@.len() > 0,
            s@ == (SearchModel { opp_obs: s@.opp_obs, opp_legal: s@.opp_legal, ..old(s)@ }),
            old(s)@.opp_obs.len() == old(s)@.opp_legal.len() ==> s@.opp_obs.len()
                == s@.opp_legal.len(),
        decreases movers.len() - i,
    {
        let options = agent_branching(s, ctx, state, movers[i]);
        let ghost listed = options_of(r@);
        let ghost model = options@;
        r.push(options);
        assert(options_of(r@) =~= listed.push(model));
        i = i + 1;
    }
    r
}

/// The size of the joint fan from the `i`-th co-mover on, `acc` being what lies before; nothing
/// where it outgrows the bound.
pub open spec fn joint_fan<T>(options: Seq<Seq<T>>, i: nat, acc: nat) -> Option<nat>
    decreases options.len() - i,
{
    if i >= options.len() {
        Some(acc)
    } else if acc * options[i as int].len() > MAX_JOINT_SLOTS {
        None
    } else {
        joint_fan(options, i + 1, acc * options[i as int].len())
    }
}

fn joint_fan_size<N>(options: &Vec<Vec<(usize, BranchWeight<N>)>>) -> (r: Option<usize>)
    requires
        forall|i: int| 0 <= i < options@.len() ==> (#[trigger] options@[i])@.len() > 0,
    ensures
        match r {
            Some(n) => joint_fan(options_of(options@), 0, 1) == Some(n as nat) && n
                <= MAX_JOINT_SLOTS,
            None => joint_fan(options_of(options@), 0, 1) is None,
        },
{
    let mut acc: usize = 1;
    let mut i: usize = 0;
    while i < options.len()
        invariant
            i <= options@.len(),
            1 <= acc <= MAX_JOINT_SLOTS,
            forall|k: int| 0 <= k < options@.len() ==> (#[trigger] options@[k])@.len() > 0,
            joint_fan(options_of(options@), i as nat, acc as nat) == joint_fan(
                options_of(options@),
                0,
                1,
            ),
        decreases options.len() - i,
    {
        let n = options[i].len();
        assert(options_of(options@)[i as int].len() == n);
        if n > MAX_JOINT_SLOTS / acc {
            proof {
                assert(acc * n > MAX_JOINT_SLOTS) by (nonlinear_arith)
                    requires
                        n >= MAX_JOINT_SLOTS as int / acc as int + 1,
                        acc >= 1,
                ;
            }
            return None;
        }
        proof {
            assert(1 <= acc * n <= MAX_JOINT_SLOTS) by (nonlinear_arith)
                requires
                    1 <= n <= MAX_JOINT_SLOTS as int / acc as int,
                    acc >= 1,
            ;
        }
        acc = acc * n;
        i = i + 1;
    }
    Some(acc)
}

/// The joint move that number `rem` stands for among the first `ci` co-movers, the last varying
/// fastest, and its weight.
pub open spec fn joint_move<N: Scalar>(
    options: Seq<Seq<(usize, BranchWeight<N>)>>,
    movers: Seq<usize>,
    ci: nat,
    rem: nat,
    joint: Seq<usize>,
    mw: MoveWeightModel<N>,
) -> (Seq<usize>, MoveWeightModel<N>)
    decreases ci,
{
    if ci == 0 {
        (joint, mw)
    } else {
        let c = (ci - 1) as nat;
        let n = options[c as int].len();
        let (action, bw) = options[c as int][(rem % n) as int];
        joint_move(
            options,
            movers,
            c,
            rem / n,
            joint.update(movers[c as int] as int, action),
            mw.joined(bw),
        )
    }
}

fn decode_joint<N: Scalar>(
    options: &Vec<Vec<(usize, BranchWeight<N>)>>,
    movers: &[usize],
    combo: usize,
    num_agents: usize,
    agent: usize,
    action: usize,
) -> (r: (Vec<usize>, MoveWeight<N>))
    requires
        agent < num_agents,
        options@.len() == movers@.len(),
        forall|i: int| 0 <= i < movers@.len() ==> #[trigger] movers@[i] < num_agents,
        forall|i: int| 0 <= i < options@.len() ==> (#[trigger] options@[i])@.len() > 0,
    ensures
        (r.0@, r.1@) == joint_move(
            options_of(options@),
            movers@,
            options@.len(),
            combo as nat,
            lone_move(num_agents, agent, action),
            MoveWeightModel { fixed: N::spec_one(), deferred: Seq::empty() },
        ),
{
    let mut joint: Vec<usize> = filled(0usize, num_agents);
    joint.set(agent, action);
    assert(joint@ =~= lone_move(num_agents, agent, action));
    let mut mw = MoveWeight { fixed: N::one(), deferred: Vec::new() };
    assert(mw@ =~= MoveWeightModel { fixed: N::spec_one(), deferred: Seq::empty() });
    let ghost goal = joint_move(
        options_of(options@),
        movers@,
        options@.len(),
        combo as nat,
        lone_move(num_agents, agent, action),
        MoveWeightModel { fixed: N::spec_one(), deferred: Seq::empty() },
    );
    let mut rem: usize = combo;
    let mut ci: usize = options.len();
    while ci > 0
        invariant
            ci <= options@.len(),
            options@.len() == movers@.len(),
            joint@.len() == num_agents,
            forall|i: int| 0 <= i < movers@.len() ==> #[trigger] movers@[i] < num_agents,
            forall|i: int| 0 <= i < options@.len() ==> (#[trigger] options@[i])@.len() > 0,
            joint_move(options_of(options@), movers@, ci as nat, rem as nat, joint@, mw@) == goal,
        decreases ci,
    {
        ci = ci - 1;
        let n = options[ci].len();
        assert(options_of(options@)[ci as int] == options@[ci as int]@);
        let (action, bw) = options[ci][rem % n];
        rem = rem / n;
        joint.set(movers[ci], action);
        let ghost held = mw@;
        match bw {
            BranchWeight::Fixed(f) => {
                mw.fixed = mw.fixed.times(f);
            },
            BranchWeight::Deferred(oi, si) => {
                mw.deferred.push((oi, si));
            },
        }
        assert(mw@ =~= held.joined(bw));
    }
    (joint, mw)
}

/// The branches of the joint moves from number `c` on, the searcher playing `action`.
pub open spec fn combined<
    N: Scalar,
    G: Game<N>,
    E: StateEncoder<State = G::State>,
    W: Reward<N, Event = G::Event>,
>(
    ctx: Ctx<N, G, E, W>,
    state: G::State,
    options: Seq<Seq<(usize, BranchWeight<N>)>>,
    movers: Seq<usize>,
    action: usize,
    combos: nat,
    depth: i32,
    c: nat,
    m: SearchModel<G::State, E::Feature, N>,
    branches: Seq<BranchModel<N>>,
) -> Result<(SearchModel<G::State, E::Feature, N>, Seq<BranchModel<N>>), Fault>
    decreases combos - c,
{
    if c >= combos {
        Ok((m, branches))
    } else {
        let (joint, mw) = joint_move(
            options,
            movers,
            options.len(),
            c,
            lone_move(ctx.game.spec_num_agents(), m.agent, action),
            MoveWeightModel { fixed: N::spec_one(), deferred: Seq::empty() },
        );
        match spec_push_branches(ctx, m, state, joint, mw, true, depth, branches) {
            Err(f) => Err(f),
            Ok((next, more)) => combined(
                ctx,
                state,
                options,
                movers,
                action,
                combos,
                depth,
                c + 1,
                next,
                more,
            ),
        }
    }
}

fn expand_combos<
    N: Scalar,
    G: Game<N>,
    E: StateEncoder<State = G::State>,
    W: Reward<N, Event = G::Event>,
>(
    s: &mut Search<G::State, E::Feature, N>,
    ctx: &Ctx<N, G, E, W>,
    state: &G::State,
    options: &Vec<Vec<(usize, BranchWeight<N>)>>,
    movers: &[usize],
    action: usize,
    combos: usize,
    depth: i32,
) -> (r: Result<Vec<Branch<N>>, Fault>)
    requires
        old(s)@.agent < ctx.game.spec_num_agents(),
        options@.len() == movers@.len(),
        forall|i: int|
            0 <= i < movers@.len() ==> #[trigger] movers@[i] < ctx.game.spec_num_agents(),
        forall|i: int| 0 <= i < options@.len() ==> (#[trigger] options@[i])@.len() > 0,
        depth < i32::MAX,
        old(s)@.arena.len() <= MAX_ENUMERATED_OUTCOMES,
    ensures
        match r {
            Ok(branches) => {
                &&& combined(
                    *ctx,
                    *state,
                    options_of(options@),
                    movers@,
                    action,
                    combos as nat,
                    depth,
                    0,
                    old(s)@,
                    Seq::empty(),
                ) == Ok::<_, Fault>((final(s)@, branch_models(branches@)))
                &&& grown_from(old(s)@, final(s)@, (depth + 1) as i32)
                &&& new_children(old(s)@, final(s)@, branch_models(branches@))
            },
            Err(f) => combined(
                *ctx,
                *state,
                options_of(options@),
                movers@,
                action,
                combos as nat,
                depth,
                0,
                old(s)@,
                Seq::empty(),
            ) == Err::<(SearchModel<G::State, E::Feature, N>, Seq<BranchModel<N>>), _>(f),
        },
{
    let num_agents = ctx.game.num_agents();
    let agent = s.agent;
    let mut branches: Vec<Branch<N>> = Vec::new();
    let ghost goal = combined(
        *ctx,
        *state,
        options_of(options@),
        movers@,
        action,
        combos as nat,
        depth,
        0,
        old(s)@,
        Seq::empty(),
    );
    let ghost below = (depth + 1) as i32;
    let mut c: usize = 0;
    assert(branch_models(branches@) =~= Seq::empty());
    while c < combos
        invariant
            c <= combos,
            num_agents == ctx.game.spec_num_agents(),
            agent < num_agents,
            s@.agent == agent,
            options@.len() == movers@.len(),
            forall|i: int| 0 <= i < movers@.len() ==> #[trigger] movers@[i] < num_agents,
            forall|i: int| 0 <= i < options@.len() ==> (#[trigger] options@[i])@.len() > 0,
            depth < i32::MAX,
            below == depth + 1,
            s@.arena.len() <= MAX_ENUMERATED_OUTCOMES,
            goal == combined(
                *ctx,
                *state,
                options_of(options@),
                movers@,
                action,
                combos as nat,
                depth,
                0,
                old(s)@,
                Seq::empty(),
            ),
            combined(
                *ctx,
                *state,
                options_of(options@),
                movers@,
                action,
                combos as nat,
                depth,
                c as nat,
                s@,
                branch_models(branches@),
            ) == goal,
            grown_from(old(s)@, s@, below),
            forall|k: int|
                0 <= k < branches@.len() ==> old(s)@.arena.len() <= (
                #[trigger] branches@[k]).child < s@.arena.len(),
        decreases combos - c,
    {
        let (joint, mw) = decode_joint(options, movers, c, num_agents, agent, action);
        let ghost held = s@;
        match push_branches(s, ctx, state, &joint, &mw, true, depth, &mut branches) {
            Ok(_) => {},
            Err(f) => return Err(f),
        }
        proof {
            lemma_grown_trans(old(s)@, held, s@, below);
        }
        c = c + 1;
    }
    Ok(branches)
}

/// One edge for each of the searcher's actions from the `i`-th of `legal` on, co-movers acting at
/// the same time.
pub open spec fn joined<
    N: Scalar,
    G: Game<N>,
    E: StateEncoder<State = G::State>,
    W: Reward<N, Event = G::Event>,
>(
    ctx: Ctx<N, G, E, W>,
    state: G::State,
    options: Seq<Seq<(usize, BranchWeight<N>)>>,
    movers: Seq<usize>,
    legal: Seq<usize>,
    combos: nat,
    depth: i32,
    i: nat,
    m: SearchModel<G::State, E::Feature, N>,
    edges: Seq<Seq<BranchModel<N>>>,
) -> Result<(SearchModel<G::State, E::Feature, N>, Seq<Seq<BranchModel<N>>>), Fault>
    decreases legal.len() - i,
{
    if i >= legal.len() {
        Ok((m, edges))
    } else {
        match combined(
            ctx,
            state,
            options,
            movers,
            legal[i as int],
            combos,
            depth,
            0,
            m,
            Seq::empty(),
        ) {
            Err(f) => Err(f),
            Ok((next, branches)) => joined(
                ctx,
                state,
                options,
                movers,
                legal,
                combos,
                depth,
                i + 1,
                next,
                edges.push(branches),
            ),
        }
    }
}

/// The edges of a simultaneous decision.
pub open spec fn simultaneous<
    N: Scalar,
    G: Game<N>,
    E: StateEncoder<State = G::State>,
    W: Reward<N, Event = G::Event>,
>(
    ctx: Ctx<N, G, E, W>,
    m: SearchModel<G::State, E::Feature, N>,
    state: G::State,
    depth: i32,
) -> Result<(SearchModel<G::State, E::Feature, N>, Seq<Seq<BranchModel<N>>>), Fault> {
    if ctx.cfg.opponent is Adversarial {
        Err(Fault::Simultaneous)
    } else {
        let movers = co_movers(ctx.game.spec_num_agents() as nat, m.agent);
        let (options, next) = branchings(ctx, state, movers, 0, m, Seq::empty());
        match joint_fan(options, 0, 1) {
            None => Err(Fault::JointLimit),
            Some(combos) => if m.agent >= ctx.game.spec_num_agents()
                && ctx.game.spec_legal_actions(state, m.agent).len() > 0 {
                Err(Fault::AgentRange)
            } else {
                joined(
                    ctx,
                    state,
                    options,
                    movers,
                    ctx.game.spec_legal_actions(state, m.agent),
                    combos,
                    depth,
                    0,
                    next,
                    Seq::empty(),
                )
            },
        }
    }
}

/// Growth that may have routed rows first.
pub proof fn lemma_grown_routed<S, F, N: Scalar>(
    a: SearchModel<S, F, N>,
    b: SearchModel<S, F, N>,
    c: SearchModel<S, F, N>,
    depth: i32,
)
    requires
        b == (SearchModel { opp_obs: b.opp_obs, opp_legal: b.opp_legal, ..a }),
        a.opp_obs.len() == a.opp_legal.len() ==> b.opp_obs.len() == b.opp_legal.len(),
        grown_from(b, c, depth),
    ensures
        grown_from(a, c, depth),
{
}

fn expand_simultaneous<
    N: Scalar,
    G: Game<N>,
    E: StateEncoder<State = G::State>,
    W: Reward<N, Event = G::Event>,
>(
    s: &mut Search<G::State, E::Feature, N>,
    ctx: &Ctx<N, G, E, W>,
    state: &G::State,
    depth: i32,
) -> (r: Result<Vec<Edge<N>>, Fault>)
    requires
        depth < i32::MAX,
        old(s)@.arena.len() <= MAX_ENUMERATED_OUTCOMES,
    ensures
        match r {
            Ok(edges) => {
                &&& simultaneous(*ctx, old(s)@, *state, depth) == Ok::<_, Fault>(
                    (final(s)@, edge_models(edges@)),
                )
                &&& grown_from(old(s)@, final(s)@, (depth + 1) as i32)
                &&& edges_within(
                    edge_models(edges@),
                    old(s)@.arena.len(),
                    final(s)@.arena.len(),
                )
            },
            Err(f) => simultaneous(*ctx, old(s)@, *state, depth) == Err::<
                (SearchModel<G::State, E::Feature, N>, Seq<Seq<BranchModel<N>>>),
                _,
            >(f),
        },
{
    if matches!(ctx.cfg.opponent, Opponent::Adversarial { .. }) {
        return Err(Fault::Simultaneous);
    }
    let num_agents = ctx.game.num_agents();
    let agent = s.agent;
    let movers = list_co_movers(num_agents, agent);
    let options = co_branchings(s, ctx, state, &movers);
    let ghost routed = s@;
    let combos = match joint_fan_size(&options) {
        Some(combos) => combos,
        None => return Err(Fault::JointLimit),
    };
    let legal = ctx.game.legal_actions(state, agent);
    if agent >= num_agents && legal.len() > 0 {
        return Err(Fault::AgentRange);
    }
    let mut edges: Vec<Edge<N>> = Vec::new();
    let ghost goal = simultaneous(*ctx, old(s)@, *state, depth);
    let ghost below = (depth + 1) as i32;
    let mut i: usize = 0;
    assert(edge_models(edges@) =~= Seq::empty());
    proof {
        assert(grown_from(routed, routed, below));
        lemma_grown_routed(old(s)@, routed, routed, below);
    }
    while i < legal.len()
        invariant
            i <= legal@.len(),
            num_agents == ctx.game.spec_num_agents(),
            agent < num_agents || legal@.len() == 0,
            s@.agent == agent,
            options@.len() == movers@.len(),
            forall|i: int| 0 <= i < movers@.len() ==> #[trigger] movers@[i] < num_agents,
            forall|i: int| 0 <= i < options@.len() ==> (#[trigger] options@[i])@.len() > 0,
            depth < i32::MAX,
            below == depth + 1,
            s@.arena.len() <= MAX_ENUMERATED_OUTCOMES,
            goal == simultaneous(*ctx, old(s)@, *state, depth),
            joined(
                *ctx,
                *state,
                options_of(options@),
                movers@,
                legal@,
                combos as nat,
                depth,
                i as nat,
                s@,
                edge_models(edges@),
            ) == goal,
            grown_from(old(s)@, s@, below),
            edges_within(edge_models(edges@), old(s)@.arena.len(), s@.arena.len()),
        decreases legal.len() - i,
    {
        let ghost held = s@;
        let branches = match expand_combos(
            s,
            ctx,
            state,
            &options,
            &movers,
            legal[i],
            combos,
            depth,
        ) {
            Ok(branches) => branches,
            Err(f) => return Err(f),
        };
        proof {
            lemma_grown_trans(old(s)@, held, s@, below);
        }
        let edge = Edge { branches };
        let ghost listed = edge_models(edges@);
        let ghost model = edge@;
        edges.push(edge);
        assert(edge_models(edges@) =~= listed.push(model));
        i = i + 1;
    }
    Ok(edges)
}

/// Moves by the evaluation of whoever makes them, the best first.
pub open spec fn row_relation<N: Scalar>(row: Seq<N>) -> Before {
    |a: usize, b: usize| row[b as int].spec_less(row[a as int])
}

struct RowOrder<'a, N> {
    row: &'a Vec<N>,
}

impl<'a, N: Scalar> Precedence for RowOrder<'a, N> {
    closed spec fn relation(&self) -> Before {
        row_relation(self.row@)
    }

    closed spec fn covers(&self, a: usize) -> bool {
        a < self.row@.len()
    }

    fn before(&self, a: usize, b: usize) -> (r: bool) {
        self.row[b].less(self.row[a])
    }
}

/// Some move has no entry in the row.
pub open spec fn unlisted(legal: Seq<usize>, len: nat) -> bool {
    exists|i: int| 0 <= i < legal.len() && #[trigger] legal[i] >= len
}

/// Some move's entry takes no part in the order.
pub open spec fn unordered<N: Scalar>(legal: Seq<usize>, row: Seq<N>) -> bool {
    legal.len() >= 2 && exists|i: int|
        0 <= i < legal.len() && !(#[trigger] row[legal[i] as int]).spec_is_number()
}

/// The moves that the beam keeps, in canonical order: all of them at the root, where they fit, and
/// where there is no evaluation to go by.
pub open spec fn beamed<N: Scalar>(
    legal: Seq<usize>,
    row: Seq<N>,
    depth: i32,
    move_cap: usize,
) -> Result<Seq<usize>, Fault> {
    if depth == 0 || move_cap >= legal.len() || row.len() == 0 {
        Ok(legal)
    } else if unlisted(legal, row.len()) {
        Err(Fault::ActionRange)
    } else if unordered(legal, row) {
        Err(Fault::NotANumber)
    } else {
        Ok(
            sorted(
                |a: usize, b: usize| a < b,
                sorted(row_relation(row), legal).take(move_cap as int),
            ),
        )
    }
}

#[verifier::loop_isolation(false)]
fn beamed_legal<N: Scalar>(
    legal: Vec<usize>,
    row: &Vec<N>,
    depth: i32,
    move_cap: usize,
) -> (r: Result<Vec<usize>, Fault>)
    ensures
        crate::util::viewed(r) == beamed(legal@, row@, depth, move_cap),
{
    if depth == 0 || move_cap >= legal.len() || row.len() == 0 {
        return Ok(legal);
    }
    let mut i: usize = 0;
    while i < legal.len()
        invariant
            i <= legal@.len(),
            forall|k: int| 0 <= k < i ==> #[trigger] legal@[k] < row@.len(),
        decreases legal.len() - i,
    {
        if legal[i] >= row.len() {
            assert(unlisted(legal@, row@.len()));
            return Err(Fault::ActionRange);
        }
        i = i + 1;
    }
    if legal.len() >= 2 {
        let mut j: usize = 0;
        while j < legal.len()
            invariant
                j <= legal@.len(),
                legal@.len() >= 2,
                !unlisted(legal@, row@.len()),
                forall|k: int| 0 <= k < legal@.len() ==> #[trigger] legal@[k] < row@.len(),
                forall|k: int| 0 <= k < j ==> (#[trigger] row@[legal@[k] as int]).spec_is_number(),
            decreases legal.len() - j,
        {
            if !row[legal[j]].is_number() {
                assert(unordered(legal@, row@));
                return Err(Fault::NotANumber);
            }
            j = j + 1;
        }
    }
    let order = RowOrder { row };
    let mut kept = stable_sort(&legal, &order);
    proof {
        law_sorted_permutes(order.relation(), legal@);
    }
    kept.truncate(move_cap);
    assert(kept@ =~= sorted(row_relation(row@), legal@).take(move_cap as int));
    Ok(stable_sort(&kept, &Ascending))
}

/// The edges of node `ni`, and whether the searcher or the minimizing opponent decides there.
pub open spec fn node_edges<
    N: Scalar,
    G: Game<N>,
    E: StateEncoder<State = G::State>,
    W: Reward<N, Event = G::Event>,
>(
    ctx: Ctx<N, G, E, W>,
    m: SearchModel<G::State, E::Feature, N>,
    ni: int,
) -> Result<
    (SearchModel<G::State, E::Feature, N>, Seq<Seq<BranchModel<N>>>, bool, bool),
    Fault,
> {
    let node = m.arena[ni];
    let state = node.state;
    let depth = node.depth;
    match ctx.game.spec_actor(state) {
        Actor::Chance => Err(Fault::ChanceActor),
        Actor::Simultaneous => match simultaneous(ctx, m, state, depth) {
            Err(f) => Err(f),
            Ok((next, edges)) => Ok((next, edges, true, false)),
        },
        Actor::Agent(mover) => {
            let legal = ctx.game.spec_legal_actions(state, mover);
            if mover >= ctx.game.spec_num_agents() {
                Err(Fault::AgentRange)
            } else if mover == m.agent {
                let kept = match ctx.cfg.opponent {
                    Opponent::Adversarial { move_cap } => beamed(
                        legal,
                        node.q_row,
                        depth,
                        move_cap,
                    ),
                    _ => Ok(legal),
                };
                match kept {
                    Err(f) => Err(f),
                    Ok(kept) => match moved(ctx, state, mover, kept, depth, 0, m, Seq::empty()) {
                        Err(f) => Err(f),
                        Ok((next, edges)) => Ok((next, edges, true, false)),
                    },
                }
            } else {
                match ctx.cfg.opponent {
                    Opponent::Adversarial { move_cap } => match beamed(
                        legal,
                        node.q_row,
                        depth,
                        move_cap,
                    ) {
                        Err(f) => Err(f),
                        Ok(kept) => {
                            let moves = if kept.len() == 0 {
                                seq![0usize]
                            } else {
                                kept
                            };
                            match moved(ctx, state, mover, moves, depth, 0, m, Seq::empty()) {
                                Err(f) => Err(f),
                                Ok((next, edges)) => Ok((next, edges, false, true)),
                            }
                        },
                    },
                    _ => {
                        let (options, routed) = spec_agent_branching(ctx, m, state, mover);
                        match weighed(
                            ctx,
                            state,
                            mover,
                            options,
                            depth,
                            0,
                            routed,
                            Seq::empty(),
                        ) {
                            Err(f) => Err(f),
                            Ok((next, branches)) => Ok((next, seq![branches], false, false)),
                        }
                    },
                }
            }
        },
    }
}

/// The search with node `ni` expanded.
pub open spec fn spec_expand_node<
    N: Scalar,
    G: Game<N>,
    E: StateEncoder<State = G::State>,
    W: Reward<N, Event = G::Event>,
>(
    ctx: Ctx<N, G, E, W>,
    m: SearchModel<G::State, E::Feature, N>,
    ni: int,
) -> Result<SearchModel<G::State, E::Feature, N>, Fault> {
    match node_edges(ctx, m, ni) {
        Err(f) => Err(f),
        Ok((next, edges, max_node, min_node)) => Ok(
            SearchModel {
                arena: next.arena.update(
                    ni,
                    NodeModel {
                        edges: Some(edges),
                        max_node,
                        min_node: min_node || next.arena[ni].min_node,
                        ..next.arena[ni]
                    },
                ),
                ..next
            },
        ),
    }
}

/// A tree in which one node got edges to fresh nodes one ply below.
pub open spec fn expanded_from<S, F, N: Scalar>(
    before: SearchModel<S, F, N>,
    after: SearchModel<S, F, N>,
    ni: int,
) -> bool {
    let depth = (before.arena[ni].depth + 1) as i32;
    &&& before.arena.len() <= after.arena.len() <= MAX_ENUMERATED_OUTCOMES
    &&& forall|i: int|
        0 <= i < before.arena.len() && i != ni ==> #[trigger] after.arena[i] == before.arena[i]
    &&& after.arena[ni] == (NodeModel {
        edges: after.arena[ni].edges,
        max_node: after.arena[ni].max_node,
        min_node: after.arena[ni].min_node,
        ..before.arena[ni]
    })
    &&& after.arena[ni].edges is Some
    &&& edges_within(after.arena[ni].edges->0, before.arena.len(), after.arena.len())
    &&& forall|i: int|
        before.arena.len() <= i < after.arena.len() ==> (#[trigger] after.arena[i]).edges is None
            && after.arena[i].depth == depth
    &&& before.new_leaves.len() <= after.new_leaves.len()
    &&& forall|i: int|
        0 <= i < before.new_leaves.len() ==> #[trigger] after.new_leaves[i] == before.new_leaves[i]
    &&& forall|i: int|
        before.new_leaves.len() <= i < after.new_leaves.len() ==> before.arena.len()
            <= #[trigger] after.new_leaves[i] < after.arena.len()
    &&& after.new_leaves.len() - before.new_leaves.len() <= after.arena.len() - before.arena.len()
    &&& after.frontier == before.frontier
    &&& after.agent == before.agent
    &&& after.n_heads == before.n_heads
    &&& after.stats == before.stats
    &&& after.batch == before.batch
    &&& before.opp_obs.len() == before.opp_legal.len() ==> after.opp_obs.len()
        == after.opp_legal.len()
}

fn expand_edges<
    N: Scalar,
    G: Game<N>,
    E: StateEncoder<State = G::State>,
    W: Reward<N, Event = G::Event>,
>(
    s: &mut Search<G::State, E::Feature, N>,
    ctx: &Ctx<N, G, E, W>,
    ni: usize,
) -> (r: Result<(Vec<Edge<N>>, bool, bool), Fault>)
    requires
        ni < old(s)@.arena.len() <= MAX_ENUMERATED_OUTCOMES,
        0 <= old(s)@.arena[ni as int].depth < i32::MAX,
    ensures
        match r {
            Ok((edges, max_node, min_node)) => {
                &&& node_edges(*ctx, old(s)@, ni as int) == Ok::<_, Fault>(
                    (final(s)@, edge_models(edges@), max_node, min_node),
                )
                &&& grown_from(
                    old(s)@,
                    final(s)@,
                    (old(s)@.arena[ni as int].depth + 1) as i32,
                )
                &&& edges_within(
                    edge_models(edges@),
                    old(s)@.arena.len(),
                    final(s)@.arena.len(),
                )
            },
            Err(f) => node_edges(*ctx, old(s)@, ni as int) == Err::<
                (SearchModel<G::State, E::Feature, N>, Seq<Seq<BranchModel<N>>>, bool, bool),
                _,
            >(f),
        },
{
    let state = ctx.game.copy_state(&s.arena[ni].state);
    let depth = s.arena[ni].depth;
    let agent = s.agent;
    assert(s@.arena[ni as int] == s.arena@[ni as int]@);
    match ctx.game.actor(&state) {
        Actor::Chance => Err(Fault::ChanceActor),
        Actor::Simultaneous => match expand_simultaneous(s, ctx, &state, depth) {
            Err(f) => Err(f),
            Ok(edges) => Ok((edges, true, false)),
        },
        Actor::Agent(mover) => {
            if mover >= ctx.game.num_agents() {
                return Err(Fault::AgentRange);
            }
            let legal = ctx.game.legal_actions(&state, mover);
            if mover == agent {
                let kept = match ctx.cfg.opponent {
                    Opponent::Adversarial { move_cap } => {
                        match beamed_legal(legal, &s.arena[ni].q_row, depth, move_cap) {
                            Ok(kept) => kept,
                            Err(f) => return Err(f),
                        }
                    },
                    _ => legal,
                };
                match expand_moves(s, ctx, &state, mover, &kept, depth) {
                    Err(f) => Err(f),
                    Ok(edges) => Ok((edges, true, false)),
                }
            } else {
                match ctx.cfg.opponent {
                    Opponent::Adversarial { move_cap } => {
                        let mut kept = match beamed_legal(
                            legal,
                            &s.arena[ni].q_row,
                            depth,
                            move_cap,
                        ) {
                            Ok(kept) => kept,
                            Err(f) => return Err(f),
                        };
                        if kept.len() == 0 {
                            kept.push(0);
                            assert(kept@ =~= seq![0usize]);
                        }
                        match expand_moves(s, ctx, &state, mover, &kept, depth) {
                            Err(f) => Err(f),
                            Ok(edges) => Ok((edges, false, true)),
                        }
                    },
                    _ => {
                        let options = agent_branching(s, ctx, &state, mover);
                        let ghost routed = s@;
                        match expand_weighed(s, ctx, &state, mover, &options, depth) {
                            Err(f) => Err(f),
                            Ok(branches) => {
                                proof {
                                    lemma_grown_routed(old(s)@, routed, s@, (depth + 1) as i32);
                                }
                                let mut edges: Vec<Edge<N>> = Vec::new();
                                let edge = Edge { branches };
                                let ghost model = edge@;
                                edges.push(edge);
                                assert(edge_models(edges@) =~= seq![model]);
                                Ok((edges, false, false))
                            },
                        }
                    },
                }
            }
        },
    }
}

/// Expands node `ni`.
pub fn expand_node<
    N: Scalar,
    G: Game<N>,
    E: StateEncoder<State = G::State>,
    W: Reward<N, Event = G::Event>,
>(
    s: &mut Search<G::State, E::Feature, N>,
    ctx: &Ctx<N, G, E, W>,
    ni: usize,
) -> (r: Result<(), Fault>)
    requires
        ni < old(s)@.arena.len() <= MAX_ENUMERATED_OUTCOMES,
        0 <= old(s)@.arena[ni as int].depth < i32::MAX,
    ensures
        match r {
            Ok(_) => {
                &&& spec_expand_node(*ctx, old(s)@, ni as int) == Ok::<_, Fault>(final(s)@)
                &&& expanded_from(old(s)@, final(s)@, ni as int)
            },
            Err(f) => spec_expand_node(*ctx, old(s)@, ni as int) == Err::<
                SearchModel<G::State, E::Feature, N>,
                _,
            >(f),
        },
{
    let (edges, max_node, min_node) = match expand_edges(s, ctx, ni) {
        Ok(made) => made,
        Err(f) => return Err(f),
    };
    let ghost next = s@;
    let ghost listed = edge_models(edges@);
    assert(s@.arena[ni as int] == s.arena@[ni as int]@);
    s.arena[ni].edges = Some(edges);
    s.arena[ni].max_node = max_node;
    if min_node {
        s.arena[ni].min_node = true;
    }
    assert(s@.arena =~= next.arena.update(
        ni as int,
        NodeModel {
            edges: Some(listed),
            max_node,
            min_node: min_node || next.arena[ni as int].min_node,
            ..next.arena[ni as int]
        },
    ));
    Ok(())
}

} // verus!
