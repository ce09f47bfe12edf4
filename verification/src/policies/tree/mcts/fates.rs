//! Every tree of a pool stays sound through its turns, and its root's visits add up to the
//! simulations that it has run.

use vstd::prelude::*;

#[allow(unused_imports)]
use super::backup::{fan_backed_up, no_values, spec_backup};
#[allow(unused_imports)]
use super::grow::{evaluated, spec_select_expand, with_node, Ctx, Reached};
#[allow(unused_imports)]
use super::leaves::{decision_node, fresh_table, sim_legal, sim_node, sim_tables};
#[allow(unused_imports)]
use super::passed::{
    backed, lemma_alike_self, lemma_alike_sound, lemma_alike_trans, lemma_backprop, lemma_backup,
    lemma_fan_backed_up, lemma_passed_from, lemma_with_alike, node_alike, on_path, passed,
    table_bumped, tree_alike,
};
#[allow(unused_imports)]
use super::policy::{log_choice, made_rules, search_failed, searched};
#[allow(unused_imports)]
use super::pool::{
    asking, delivered, deliveries, delivery, heard, hit, reaches, read_at, refused, simulated,
    staged, stuck, took_in, trace_of, turned, undeliverable, with_hit, Batch, Life, Reply, Rules,
};
#[allow(unused_imports)]
use super::read::{node_told, role_of, spec_consume, table_primed};
#[allow(unused_imports)]
use super::search::{
    all_delivered, all_grown, all_rooted, asked_table, broken_off, chance_stream, entry,
    evaluated_as, first_rootless, planted, pool_failed, pool_ran, pool_start, poolable,
    request_tree, root_mode, rooted_tree, round_at, round_committed, rounds_run, staged_at,
    staged_trees, tallied, told, unpoolable, unstageable, Stage,
};
#[allow(unused_imports)]
use super::select::{Guidance, Ln};
#[allow(unused_imports)]
use super::simulate::{content, counted, rows_at, rows_behind, settled_end, spec_simulate};
#[allow(unused_imports)]
use super::sound::{
    arena_sound, arm_visits, choices_from, end_sound, fan_ready, goes_down, growth, lemma_descended,
    lemma_fresh_choices, lemma_fresh_table, lemma_joint_width, lemma_same_tree, lemma_within_grows,
    lively, logs_reach, lost, node_grows, node_sound, path_sound, table_sound, tables_within,
    valued_agents, within,
};
#[allow(unused_imports)]
use super::tree::{Arm, NodeModel, PendingWork, TreeMode, TreeModel};
#[allow(unused_imports)]
use crate::encoder::StateEncoder;
#[allow(unused_imports)]
use crate::fault::Fault;
#[allow(unused_imports)]
use crate::game::{Actor, Game};
#[allow(unused_imports)]
use crate::num::Scalar;
#[allow(unused_imports)]
use crate::policies::tree::evaluation::{EvaluationModel, SearchEvaluation};
#[allow(unused_imports)]
use crate::policies::tree::expectimax::evaluate::Exp;
#[allow(unused_imports)]
use crate::policy::{ChanceMode, MAX_ENUMERATED_OUTCOMES};
#[allow(unused_imports)]
use crate::reward::Reward;
#[allow(unused_imports)]
use crate::rng::{GammaSource, SplitMix64};
#[allow(unused_imports)]
use crate::util::spec_filled;

verus! {

/// A row that some node of the tree has.
pub open spec fn row_due<S, F, N>(m: TreeModel<S, F, N>, ni: usize, slot: usize) -> bool {
    ni < m.arena.len() && slot < m.arena[ni as int].rows.len()
}

/// A tree waits for `k` rows, and has what they are for.
pub open spec fn awaiting<S, F, N>(m: TreeModel<S, F, N>, k: nat) -> bool {
    match m.pending {
        None => k == 1 && m.mode == TreeMode::SeqNegamax,
        Some((PendingWork::Fan, missing)) => missing == k && fan_ready(m, m.leaf as int),
        Some((PendingWork::NodeEval(_), missing)) => missing == k && !(
        m.arena[m.leaf as int].kind is Chance) && !m.arena[m.leaf as int].terminal,
    }
}

/// A tree whose path, leaf and nodes are in order.
pub open spec fn tree_sound<
    N: Scalar,
    G: Game<N>,
    E: StateEncoder<State = G::State>,
    W: Reward<N, Event = G::Event>,
>(ctx: Ctx<N, G, E, W>, m: TreeModel<G::State, E::Feature, N>) -> bool {
    &&& arena_sound(ctx, m)
    &&& path_sound(m)
    &&& m.leaf < m.arena.len()
    &&& m.path.len() > 0 ==> m.path[0].0 == 0
}

pub(crate) proof fn lemma_rows_behind<
    N: Scalar,
    G: Game<N>,
    E: StateEncoder<State = G::State>,
    W: Reward<N, Event = G::Event>,
>(
    ctx: Ctx<N, G, E, W>,
    m: TreeModel<G::State, E::Feature, N>,
    cni: int,
    i: nat,
    acc: Seq<(usize, usize)>,
)
    requires
        arena_sound(ctx, m),
        fan_ready(m, cni),
        i <= m.arena[cni].links.len(),
        acc.len() <= i * m.n_agents,
        forall|k: int| 0 <= k < acc.len() ==> row_due(m, (#[trigger] acc[k]).0, acc[k].1),
    ensures
        rows_behind(m.arena, m.arena[cni].links, i, acc) matches Ok(asks) && asks.len()
            <= m.arena[cni].links.len() * m.n_agents && (forall|k: int|
            0 <= k < asks.len() ==> row_due(m, (#[trigger] asks[k]).0, asks[k].1)),
    decreases m.arena[cni].links.len() - i,
{
    let links = m.arena[cni].links;
    if i < links.len() {
        assert(m.arena[cni].links[i as int].child is Some);
        let c = links[i as int].child->Some_0;
        let n = m.n_agents as nat;
        assert(node_sound(
            *ctx.game,
            ctx.chance,
            m.mode,
            n,
            m.arena.len(),
            c as int,
            m.arena[c as int],
        ));
        assert((i + 1) * n == i * n + n) by (nonlinear_arith);
        if m.arena[c as int].terminal {
            lemma_rows_behind(ctx, m, cni, i + 1, acc);
        } else {
            let more = acc + rows_at(m.arena[c as int], c);
            assert forall|k: int| 0 <= k < more.len() implies row_due(
                m,
                (#[trigger] more[k]).0,
                more[k].1,
            ) by {
                if k < acc.len() {
                    assert(more[k] == acc[k]);
                } else {
                    assert(more[k] == (c, (k - acc.len()) as usize));
                }
            }
            lemma_rows_behind(ctx, m, cni, i + 1, more);
        }
    }
}

/// What a simulation makes of a sound tree.
pub open spec fn simulated_soundly<
    N: Scalar,
    G: Game<N>,
    E: StateEncoder<State = G::State>,
    W: Reward<N, Event = G::Event>,
>(
    ctx: Ctx<N, G, E, W>,
    m: TreeModel<G::State, E::Feature, N>,
    b: TreeModel<G::State, E::Feature, N>,
    asks: Seq<(usize, usize)>,
) -> bool {
    &&& tree_sound(ctx, b)
    &&& b.sims == m.sims + 1
    &&& b.mode == m.mode
    &&& b.arena.len() <= m.arena.len() + growth()
    &&& forall|k: int| 0 <= k < asks.len() ==> row_due(b, (#[trigger] asks[k]).0, asks[k].1)
    &&& if asks.len() == 0 {
        b.pending is None
    } else {
        awaiting(b, asks.len())
    }
    &&& within(b, (m.sims + if asks.len() == 0 {
        1nat
    } else {
        0nat
    }) as nat)
    &&& b.path.len() > 0 <==> goes_down(ctx, m.arena[0])
    &&& same_root(m, b)
    &&& forall|t: int|
        0 <= t < m.arena[0].tables.len() ==> (#[trigger] b.arena[0].tables[t]).total_visits
            == m.arena[0].tables[t].total_visits + if asks.len() == 0 && b.path.len() > 0 {
            1int
        } else {
            0int
        }
    &&& !m.arena[0].terminal && ctx.guidance is Puct && !evaluated(m.arena[0]) ==> asks
        == rows_at(b.arena[0], 0)
    &&& asks.len() == 0 ==> evaluated(b.arena[0]) == evaluated(m.arena[0])
    &&& evaluated(m.arena[0]) ==> evaluated(b.arena[0])
}

/// The root has the same choices and rows.
pub open spec fn same_root<S, F, N>(a: TreeModel<S, F, N>, b: TreeModel<S, F, N>) -> bool {
    &&& b.arena[0].tables.len() == a.arena[0].tables.len()
    &&& b.arena[0].rows.len() == a.arena[0].rows.len()
    &&& b.arena[0].depth == a.arena[0].depth
    &&& b.arena[0].actor == a.arena[0].actor
    &&& b.arena[0].kind is Simultaneous == a.arena[0].kind is Simultaneous
}

pub(crate) proof fn lemma_backed_within<S, F, N>(
    a: TreeModel<S, F, N>,
    b: TreeModel<S, F, N>,
    cap: nat,
)
    requires
        within(a, cap),
        backed(a, b),
    ensures
        within(b, cap + 1),
{
    assert forall|i: int| 0 <= i < b.arena.len() implies tables_within(
        (#[trigger] b.arena[i]).tables,
        cap + 1,
    ) by {
        assert(tables_within(a.arena[i].tables, cap));
        assert(node_alike(a.arena[i], b.arena[i]));
        assert forall|t: int| 0 <= t < b.arena[i].tables.len() implies (
        #[trigger] b.arena[i].tables[t]).total_visits <= cap + 1 by {
            assert(a.arena[i].tables[t].total_visits <= cap);
        }
    }
}

/// What passing a path does to the root.
pub(crate) proof fn lemma_backed_root<
    N: Scalar,
    G: Game<N>,
    E: StateEncoder<State = G::State>,
    W: Reward<N, Event = G::Event>,
>(
    ctx: Ctx<N, G, E, W>,
    a: TreeModel<G::State, E::Feature, N>,
    b: TreeModel<G::State, E::Feature, N>,
)
    requires
        tree_sound(ctx, a),
        backed(a, b),
    ensures
        same_root(a, b),
        forall|t: int|
            0 <= t < a.arena[0].tables.len() ==> (#[trigger] b.arena[0].tables[t]).total_visits
                == a.arena[0].tables[t].total_visits + if a.path.len() > 0 {
                1int
            } else {
                0int
            },
        evaluated(b.arena[0]) == evaluated(a.arena[0]),
{
    assert(node_alike(a.arena[0], b.arena[0]));
    if a.path.len() > 0 {
        assert(a.path[0].0 == 0);
        assert(on_path(a.path, a.path.len(), 0));
        assert forall|t: int| 0 <= t < a.arena[0].tables.len() implies table_bumped(
            a.arena[0].tables[t],
            #[trigger] b.arena[0].tables[t],
        ) by {}
    } else {
        assert(!on_path(a.path, a.path.len(), 0));
        assert(b.arena[0].tables == a.arena[0].tables);
    }
    if a.arena[0].tables.len() > 0 {
        assert(b.arena[0].tables[0].evaluated == a.arena[0].tables[0].evaluated);
    }
}

pub(crate) proof fn lemma_alike_tree_sound<
    N: Scalar,
    G: Game<N>,
    E: StateEncoder<State = G::State>,
    W: Reward<N, Event = G::Event>,
>(
    ctx: Ctx<N, G, E, W>,
    a: TreeModel<G::State, E::Feature, N>,
    b: TreeModel<G::State, E::Feature, N>,
)
    requires
        tree_sound(ctx, a),
        tree_alike(a, b),
    ensures
        tree_sound(ctx, b),
{
    lemma_alike_sound(ctx, a, b);
}

/// The rows of a whole fan can be counted.
pub open spec fn rows_fit<
    N: Scalar,
    G: Game<N>,
    E: StateEncoder<State = G::State>,
    W: Reward<N, Event = G::Event>,
>(ctx: Ctx<N, G, E, W>) -> bool {
    MAX_ENUMERATED_OUTCOMES * ctx.game.spec_num_agents() <= usize::MAX
}

/// The end of a simulation leaves a sound tree.
pub(crate) proof fn lemma_settled<
    N: Scalar,
    G: Game<N>,
    E: StateEncoder<State = G::State>,
    W: Reward<N, Event = G::Event>,
>(
    ctx: Ctx<N, G, E, W>,
    reached: Reached,
    m: TreeModel<G::State, E::Feature, N>,
)
    requires
        tree_sound(ctx, m),
        end_sound(m, reached),
        m.pending is None,
        rows_fit(ctx),
    ensures
        match settled_end(ctx.gamma, reached, m) {
            Err(f) => f != Fault::Tree,
            Ok((b, asks)) => {
                &&& tree_sound(ctx, b)
                &&& b.sims == m.sims
                &&& b.mode == m.mode
                &&& b.path == m.path
                &&& b.arena.len() == m.arena.len()
                &&& if asks.len() == 0 {
                    tree_alike(m, b) && passed(m, b, m.path.len()) && b.pending is None
                } else {
                    &&& b.arena == m.arena
                    &&& awaiting(b, asks.len())
                    &&& forall|k: int|
                        0 <= k < asks.len() ==> row_due(b, (#[trigger] asks[k]).0, asks[k].1)
                }
                &&& reached == Reached::Eval ==> asks == rows_at(m.arena[m.leaf as int], m.leaf)
            },
        },
{
    let node = m.arena[m.leaf as int];
    let n = m.n_agents as nat;
    assert(node_sound(*ctx.game, ctx.chance, m.mode, n, m.arena.len(), m.leaf as int, node));
    match reached {
        Reached::Terminal => {
            if let Ok(count) = counted(m.terminal_sims, 1) {
                let mid = TreeModel { terminal_sims: count, ..m };
                lemma_same_but(ctx, m, mid);
                lemma_backup(ctx, ctx.gamma, mid, no_values(m.mode, n));
                assert(settled_end(ctx.gamma, reached, m) == content(
                    spec_backup(ctx.gamma, mid, no_values(m.mode, n)),
                ));
                if let Ok(b) = spec_backup(ctx.gamma, mid, no_values(m.mode, n)) {
                    lemma_passed_from(m, mid, b);
                    lemma_alike_tree_sound(ctx, m, b);
                    assert(tree_alike(m, b));
                    assert(passed(m, b, m.path.len()));
                    assert(b.pending is None);
                    let none: Seq<(usize, usize)> = Seq::empty();
                    assert(settled_end(ctx.gamma, reached, m) == Ok::<_, Fault>((b, none)));
                }
            }
        },
        Reached::DepthCapped => {
            if let Ok(count) = counted(m.depthcap_sims, 1) {
                let mid = TreeModel { depthcap_sims: count, ..m };
                lemma_same_but(ctx, m, mid);
                lemma_backup(ctx, ctx.gamma, mid, node.values);
                if let Ok(b) = spec_backup(ctx.gamma, mid, node.values) {
                    lemma_passed_from(m, mid, b);
                    lemma_alike_tree_sound(ctx, m, b);
                }
            }
        },
        Reached::Eval => {
            let asks = rows_at(node, m.leaf);
            assert(asks.len() == valued_agents(m.mode, n));
            if let Ok((b, rows)) = settled_end(ctx.gamma, reached, m) {
                lemma_same_but_pending(ctx, m, b);
            }
        },
        Reached::Fan => {
            lemma_rows_behind(ctx, m, m.leaf as int, 0, Seq::empty());
            assert(node.links.len() * n <= MAX_ENUMERATED_OUTCOMES * n) by (nonlinear_arith)
                requires
                    node.links.len() <= MAX_ENUMERATED_OUTCOMES,
                    0 <= n,
            ;
            let asks = rows_behind(m.arena, node.links, 0, Seq::empty())->Ok_0;
            if asks.len() == 0 {
                if let Ok(count) = counted(m.terminal_sims, 1) {
                    let mid = TreeModel { terminal_sims: count, ..m };
                    lemma_same_but(ctx, m, mid);
                    lemma_fan_backed_up(ctx, ctx.gamma, mid);
                    if let Ok(b) = fan_backed_up(ctx.gamma, mid) {
                        lemma_passed_from(m, mid, b);
                        lemma_alike_tree_sound(ctx, m, b);
                    }
                }
            } else {
                if let Ok((b, rows)) = settled_end(ctx.gamma, reached, m) {
                    lemma_same_but_pending(ctx, m, b);
                    assert forall|k: int| 0 <= k < rows.len() implies row_due(
                        b,
                        (#[trigger] rows[k]).0,
                        rows[k].1,
                    ) by {
                        assert(row_due(m, asks[k].0, asks[k].1));
                    }
                }
            }
        },
    }
}

/// A tree with other accounts is as sound.
pub(crate) proof fn lemma_same_but<
    N: Scalar,
    G: Game<N>,
    E: StateEncoder<State = G::State>,
    W: Reward<N, Event = G::Event>,
>(
    ctx: Ctx<N, G, E, W>,
    a: TreeModel<G::State, E::Feature, N>,
    b: TreeModel<G::State, E::Feature, N>,
)
    requires
        tree_sound(ctx, a),
        b.arena == a.arena,
        b.mode == a.mode,
        b.n_agents == a.n_agents,
        b.sims == a.sims,
        b.path == a.path,
        b.leaf == a.leaf,
        b.pending == a.pending,
    ensures
        tree_sound(ctx, b),
        tree_alike(a, b),
        fan_ready(a, a.leaf as int) ==> fan_ready(b, b.leaf as int),
        forall|j: int|
            0 <= j < a.arena.len() ==> (#[trigger] b.arena[j]).tables == a.arena[j].tables,
{
    lemma_alike_self(a);
    assert forall|i: int|
        #![trigger b.arena[i]]
        #![trigger a.arena[i]]
        0 <= i < a.arena.len() implies node_alike(a.arena[i], b.arena[i]) by {
        assert(node_alike(a.arena[i], a.arena[i]));
    }
    lemma_alike_sound(ctx, a, b);
}

pub(crate) proof fn lemma_same_but_pending<
    N: Scalar,
    G: Game<N>,
    E: StateEncoder<State = G::State>,
    W: Reward<N, Event = G::Event>,
>(
    ctx: Ctx<N, G, E, W>,
    a: TreeModel<G::State, E::Feature, N>,
    b: TreeModel<G::State, E::Feature, N>,
)
    requires
        tree_sound(ctx, a),
        b.arena == a.arena,
        b.mode == a.mode,
        b.n_agents == a.n_agents,
        b.sims == a.sims,
        b.path == a.path,
        b.leaf == a.leaf,
    ensures
        tree_sound(ctx, b),
        tree_alike(a, b),
        fan_ready(a, a.leaf as int) ==> fan_ready(b, b.leaf as int),
        forall|j: int|
            0 <= j < a.arena.len() ==> (#[trigger] b.arena[j]).tables == a.arena[j].tables,
{
    let mid = TreeModel { pending: a.pending, ..b };
    lemma_same_but(ctx, a, mid);
    assert forall|i: int|
        #![trigger b.arena[i]]
        #![trigger a.arena[i]]
        0 <= i < a.arena.len() implies node_alike(a.arena[i], b.arena[i]) by {
        assert(node_alike(a.arena[i], mid.arena[i]));
    }
    lemma_alike_sound(ctx, a, b);
}

/// A simulation of a sound tree is never lost in it, and leaves a sound tree; and if it is stopped
/// before its end, it is not for want of a logarithm.
pub proof fn law_simulations_are_sound<
    N: Scalar,
    G: Game<N>,
    E: StateEncoder<State = G::State>,
    W: Reward<N, Event = G::Event>,
>(ctx: Ctx<N, G, E, W>, m: TreeModel<G::State, E::Feature, N>)
    requires
        lively::<N, G>(*ctx.game),
        rows_fit(ctx),
        tree_sound(ctx, m),
        m.pending is None,
        within(m, m.sims as nat),
        logs_reach(ctx, m.sims as nat),
        m.arena.len() + growth() <= usize::MAX,
    ensures
        spec_select_expand(ctx, m) matches Err(f) ==> f != Fault::Tree && f != Fault::VisitCount,
        match spec_simulate(ctx, m) {
            Err(f) => f != Fault::Tree,
            Ok((b, asks)) => simulated_soundly(ctx, m, b, asks),
        },
{
    reveal(spec_simulate);
    let cap = m.sims as nat;
    let plain = TreeModel { path: Seq::empty(), ..m };
    lemma_same_tree(ctx, m, plain, cap);
    assert(path_sound(plain));
    lemma_descended(ctx, plain, 0, 0, m.arena.len(), cap);
    if let Ok(sims) = counted(m.sims, 1) {
        let begun = TreeModel { sims, ..m };
        let first = TreeModel { path: Seq::empty(), ..begun };
        assert(arena_sound(ctx, first));
        assert(within(first, cap));
        assert(path_sound(first));
        lemma_descended(ctx, first, 0, 0, m.arena.len(), cap);
        if let Ok((reached, grown)) = spec_select_expand(ctx, begun) {
            assert(tree_sound(ctx, grown));
            lemma_within_grows(first, grown, cap);
            assert(node_grows(first.arena[0], grown.arena[0]));
            lemma_settled(ctx, reached, grown);
            if let Ok((b, asks)) = settled_end(ctx.gamma, reached, grown) {
                if asks.len() == 0 {
                    assert(backed(TreeModel { pending: b.pending, ..grown }, b)) by {
                        assert(grown.pending is None && b.pending is None);
                    }
                    lemma_backed_within(grown, b, cap);
                    lemma_backed_root(ctx, grown, b);
                } else {
                    lemma_same_root(first, grown);
                    assert(b.arena == grown.arena);
                }
                lemma_same_root(first, grown);
                if ctx.guidance is Puct && !evaluated(m.arena[0]) {
                    assert(!goes_down(ctx, first.arena[0]));
                    assert(reached == Reached::Eval && grown.leaf == 0);
                    assert(asks == rows_at(grown.arena[0], 0));
                    assert(node_sound(
                        *ctx.game,
                        ctx.chance,
                        grown.mode,
                        grown.n_agents as nat,
                        grown.arena.len(),
                        0,
                        grown.arena[0],
                    ));
                    assert(asks.len() > 0);
                }
            }
        }
    }
}

pub(crate) proof fn lemma_same_root<S, F, N>(a: TreeModel<S, F, N>, b: TreeModel<S, F, N>)
    requires
        a.arena.len() > 0,
        node_grows(a.arena[0], b.arena[0]),
        b.arena[0].rows.len() == a.arena[0].rows.len(),
        b.arena[0].actor == a.arena[0].actor,
    ensures
        same_root(a, b),
{
}

/// What a pool can keep track of: every mover is an agent of the game and has a move, and neither the
/// nodes of a tree, nor the rows of a fan, nor the visits of a node outgrow what they are counted
/// with.
pub open spec fn fits<
    N: Scalar,
    G: Game<N>,
    E: StateEncoder<State = G::State>,
    W: Reward<N, Event = G::Event>,
    X: Exp<N>,
    M: GammaSource<N, SplitMix64>,
>(rules: Rules<N, G, E, W, X, M>) -> bool {
    &&& lively::<N, G>(*rules.ctx.game)
    &&& rows_fit(rules.ctx)
    &&& 1 + rules.num_simulations * growth() <= usize::MAX
    &&& rules.num_simulations > 0 ==> logs_reach(rules.ctx, (rules.num_simulations - 1) as nat)
}

/// The row that sets the priors by which a root is known to be evaluated.
pub open spec fn prime_slot<S, F, N>(m: TreeModel<S, F, N>) -> usize {
    if m.mode == TreeMode::SeqMaxN && !(m.arena[0].kind is Simultaneous) {
        m.arena[0].actor
    } else {
        0
    }
}

/// That row is still to come.
pub open spec fn prime_due<S, F, N>(
    m: TreeModel<S, F, N>,
    asks: Seq<(usize, usize)>,
    due: Seq<(usize, usize, usize)>,
) -> bool {
    ||| exists|i: int| 0 <= i < asks.len() && #[trigger] asks[i] == (0usize, prime_slot(m))
    ||| exists|i: int|
        0 <= i < due.len() && (#[trigger] due[i]).1 == 0 && due[i].2 == prime_slot(m)
}

/// The root's visits are the simulations that have passed it: all of them, but for one under way,
/// and under PUCT but for the first, which evaluates the root.
pub open spec fn root_counted<
    N: Scalar,
    G: Game<N>,
    E: StateEncoder<State = G::State>,
    W: Reward<N, Event = G::Event>,
>(ctx: Ctx<N, G, E, W>, m: TreeModel<G::State, E::Feature, N>, busy: bool) -> bool {
    ctx.max_depth > 0 ==> forall|t: int|
        0 <= t < m.arena[0].tables.len() ==> (#[trigger] m.arena[0].tables[t]).total_visits + (
        if busy && m.path.len() > 0 {
            1int
        } else {
            0int
        }) + (if ctx.guidance is Puct && m.sims > 0 {
            1int
        } else {
            0int
        }) == m.sims
}

/// A tree in a round, with rows to ask for and rows due, and everything in order.
pub open spec fn life_sound<
    N: Scalar,
    G: Game<N>,
    E: StateEncoder<State = G::State>,
    W: Reward<N, Event = G::Event>,
    X: Exp<N>,
    M: GammaSource<N, SplitMix64>,
>(
    rules: Rules<N, G, E, W, X, M>,
    m: TreeModel<G::State, E::Feature, N>,
    asks: Seq<(usize, usize)>,
    due: Seq<(usize, usize, usize)>,
) -> bool {
    let k = asks.len() + due.len();
    &&& tree_sound(rules.ctx, m)
    &&& m.arena[0].depth == 0
    &&& prime_slot(m) < m.arena[0].rows.len()
    &&& m.sims <= rules.num_simulations
    &&& m.arena.len() <= 1 + m.sims * growth()
    &&& if k == 0 {
        m.pending is None && within(m, m.sims as nat)
    } else {
        awaiting(m, k) && m.sims > 0 && within(m, (m.sims - 1) as nat)
    }
    &&& forall|i: int| 0 <= i < asks.len() ==> row_due(m, (#[trigger] asks[i]).0, asks[i].1)
    &&& forall|i: int| 0 <= i < due.len() ==> row_due(m, (#[trigger] due[i]).1, due[i].2)
    &&& root_counted(rules.ctx, m, k > 0)
    &&& rules.ctx.guidance is Puct ==> if m.sims == 0 {
        !evaluated(m.arena[0])
    } else {
        evaluated(m.arena[0]) || prime_due(m, asks, due)
    }
}

pub(crate) proof fn lemma_visits_same<N>(a: Seq<Arm<N>>, b: Seq<Arm<N>>, n: nat)
    requires
        n <= a.len(),
        a.len() == b.len(),
        forall|i: int| 0 <= i < n ==> (#[trigger] b[i]).visits == a[i].visits,
    ensures
        arm_visits(a, n) == arm_visits(b, n),
    decreases n,
{
    if n > 0 {
        lemma_visits_same(a, b, (n - 1) as nat);
        assert(b[n - 1].visits == a[n - 1].visits);
    }
}

/// `b` has the visits of `a`.
pub open spec fn same_visits<S, F, N>(a: TreeModel<S, F, N>, b: TreeModel<S, F, N>) -> bool {
    forall|j: int, t: int|
        #![trigger b.arena[j].tables[t]]
        0 <= j < a.arena.len() && 0 <= t < a.arena[j].tables.len()
            ==> b.arena[j].tables[t].total_visits == a.arena[j].tables[t].total_visits
}

pub(crate) proof fn lemma_same_within<S, F, N>(
    a: TreeModel<S, F, N>,
    b: TreeModel<S, F, N>,
    cap: nat,
)
    requires
        tree_alike(a, b),
        same_visits(a, b),
        within(a, cap),
    ensures
        within(b, cap),
{
    assert forall|i: int| 0 <= i < b.arena.len() implies tables_within(
        (#[trigger] b.arena[i]).tables,
        cap,
    ) by {
        assert(node_alike(a.arena[i], b.arena[i]));
        assert(tables_within(a.arena[i].tables, cap));
        assert forall|t: int| 0 <= t < b.arena[i].tables.len() implies (
        #[trigger] b.arena[i].tables[t]).total_visits <= cap by {
            assert(a.arena[i].tables[t].total_visits <= cap);
        }
    }
}

/// What a row that was due makes of a tree that waits for `k`.
pub open spec fn row_taken<
    N: Scalar,
    G: Game<N>,
    E: StateEncoder<State = G::State>,
    W: Reward<N, Event = G::Event>,
>(
    ctx: Ctx<N, G, E, W>,
    m: TreeModel<G::State, E::Feature, N>,
    k: nat,
    ni: usize,
    slot: usize,
    prior: Option<Seq<N>>,
    b: TreeModel<G::State, E::Feature, N>,
) -> bool {
    &&& tree_sound(ctx, b)
    &&& tree_alike(m, b)
    &&& same_root(m, b)
    &&& if k > 1 {
        awaiting(b, (k - 1) as nat) && same_visits(m, b)
    } else {
        &&& b.pending is None
        &&& forall|cap: nat| within(m, cap) ==> #[trigger] within(b, cap + 1)
        &&& forall|t: int|
            0 <= t < m.arena[0].tables.len() ==> (#[trigger] b.arena[0].tables[t]).total_visits
                == m.arena[0].tables[t].total_visits + if m.path.len() > 0 {
                1int
            } else {
                0int
            }
    }
    &&& evaluated(m.arena[0]) ==> evaluated(b.arena[0])
    &&& ni == 0 && slot == prime_slot(m) && prior is Some ==> evaluated(b.arena[0])
}

pub(crate) proof fn lemma_consume<
    N: Scalar,
    G: Game<N>,
    E: StateEncoder<State = G::State>,
    W: Reward<N, Event = G::Event>,
>(
    ctx: Ctx<N, G, E, W>,
    m: TreeModel<G::State, E::Feature, N>,
    k: nat,
    ni: usize,
    slot: usize,
    value: N,
    prior: Option<Seq<N>>,
)
    requires
        tree_sound(ctx, m),
        row_due(m, ni, slot),
        k > 0,
        awaiting(m, k),
    ensures
        match spec_consume(ctx.gamma, m, ni, slot, value, prior) {
            Err(f) => f != Fault::Tree,
            Ok(b) => row_taken(ctx, m, k, ni, slot, prior, b),
        },
{
    let n = m.n_agents as nat;
    let node = m.arena[ni as int];
    assert(node_sound(*ctx.game, ctx.chance, m.mode, n, m.arena.len(), ni as int, node));
    assert(node_sound(*ctx.game, ctx.chance, m.mode, n, m.arena.len(), 0, m.arena[0]));
    let table = role_of(m, ni, slot, false).table;
    assert(table < node.tables.len());
    let told_node = node_told(node, m.mode, table, slot, value, prior)->Ok_0;
    let told = with_node(m, ni as int, told_node);
    if let Some(p) = prior {
        let t = node.tables[table as int];
        let primed = table_primed(t, p);
        assert(table_sound(t));
        lemma_visits_same(t.arms, primed.arms, t.arms.len());
        assert(table_sound(primed));
    }
    assert(node_alike(node, told_node)) by {
        assert forall|t: int|
            #![trigger told_node.tables[t]]
            0 <= t < node.tables.len() implies told_node.tables[t].arms.len()
            == node.tables[t].arms.len() && (table_sound(node.tables[t]) ==> table_sound(
            told_node.tables[t],
        )) by {
            if t != table {
                assert(told_node.tables[t] == node.tables[t]);
            }
        }
    }
    lemma_with_alike(m, ni as int, told_node);
    lemma_alike_tree_sound(ctx, m, told);
    lemma_alike_sound(ctx, m, told);
    assert(same_visits(m, told)) by {
        assert forall|j: int, t: int|
            #![trigger told.arena[j].tables[t]]
            0 <= j < m.arena.len() && 0 <= t < m.arena[j].tables.len() implies
            told.arena[j].tables[t].total_visits == m.arena[j].tables[t].total_visits by {
            if j == ni && t != table {
                assert(told_node.tables[t] == node.tables[t]);
            }
            if j != ni {
                assert(told.arena[j] == m.arena[j]);
            }
        }
    }
    assert(same_root(m, told));
    let open = TreeModel { pending: None, ..told };
    lemma_same_but_pending(ctx, told, open);
    assert(fan_ready(m, m.leaf as int) ==> fan_ready(open, open.leaf as int));
    assert(node_sound(
        *ctx.game,
        ctx.chance,
        m.mode,
        n,
        m.arena.len(),
        m.leaf as int,
        m.arena[m.leaf as int],
    ));
    assert(node_alike(m.arena[m.leaf as int], told.arena[m.leaf as int]));
    if let Ok(b) = spec_consume(ctx.gamma, m, ni, slot, value, prior) {
        if k > 1 {
            lemma_same_but_pending(ctx, told, b);
            lemma_alike_trans(m, told, b);
        }
    }
    if k == 1 {
        match m.pending {
            None => {
                lemma_backprop(ctx, ctx.gamma, told, value);
            },
            Some((PendingWork::Fan, _)) => {
                lemma_fan_backed_up(ctx, ctx.gamma, open);
            },
            Some((PendingWork::NodeEval(_), _)) => {
                lemma_backup(ctx, ctx.gamma, open, open.arena[open.leaf as int].values);
            },
        }
        if let Ok(b) = spec_consume(ctx.gamma, m, ni, slot, value, prior) {
            if m.pending is None {
                assert(backed(told, b));
                lemma_taken_last(ctx, m, told, b);
            } else {
                assert(backed(open, b));
                lemma_alike_trans(m, told, open);
                assert(same_visits(m, open)) by {
                    assert(open.arena == told.arena);
                }
                lemma_taken_last(ctx, m, open, b);
            }
        }
    }
}

/// The last row is in, and the path was passed.
pub(crate) proof fn lemma_taken_last<
    N: Scalar,
    G: Game<N>,
    E: StateEncoder<State = G::State>,
    W: Reward<N, Event = G::Event>,
>(
    ctx: Ctx<N, G, E, W>,
    m: TreeModel<G::State, E::Feature, N>,
    told: TreeModel<G::State, E::Feature, N>,
    b: TreeModel<G::State, E::Feature, N>,
)
    requires
        tree_sound(ctx, m),
        tree_sound(ctx, told),
        tree_alike(m, told),
        same_visits(m, told),
        same_root(m, told),
        backed(told, b),
    ensures
        tree_sound(ctx, b),
        tree_alike(m, b),
        same_root(m, b),
        forall|cap: nat| within(m, cap) ==> #[trigger] within(b, cap + 1),
        forall|t: int|
            0 <= t < m.arena[0].tables.len() ==> (#[trigger] b.arena[0].tables[t]).total_visits
                == m.arena[0].tables[t].total_visits + if m.path.len() > 0 {
                1int
            } else {
                0int
            },
        evaluated(b.arena[0]) == evaluated(told.arena[0]),
{
    lemma_alike_trans(m, told, b);
    lemma_alike_tree_sound(ctx, told, b);
    lemma_backed_root(ctx, told, b);
    assert forall|cap: nat| within(m, cap) implies #[trigger] within(b, cap + 1) by {
        lemma_same_within(m, told, cap);
        lemma_backed_within(told, b, cap);
    }
    assert forall|t: int| 0 <= t < m.arena[0].tables.len() implies (
    #[trigger] b.arena[0].tables[t]).total_visits == m.arena[0].tables[t].total_visits + if m.path.len()
        > 0 {
        1int
    } else {
        0int
    } by {
        assert(told.arena[0].tables[t].total_visits == m.arena[0].tables[t].total_visits);
    }
}

/// What is due after a row was taken in, with everything still in order.
pub(crate) proof fn lemma_row_in<
    N: Scalar,
    G: Game<N>,
    E: StateEncoder<State = G::State>,
    W: Reward<N, Event = G::Event>,
    X: Exp<N>,
    M: GammaSource<N, SplitMix64>,
>(
    rules: Rules<N, G, E, W, X, M>,
    m: TreeModel<G::State, E::Feature, N>,
    asks: Seq<(usize, usize)>,
    due: Seq<(usize, usize, usize)>,
    ni: usize,
    slot: usize,
    prior: Option<Seq<N>>,
    b: TreeModel<G::State, E::Feature, N>,
    left: Seq<(usize, usize)>,
    still: Seq<(usize, usize, usize)>,
)
    requires
        life_sound(rules, m, asks, due),
        row_taken(rules.ctx, m, asks.len() + due.len(), ni, slot, prior, b),
        rules.ctx.guidance is Puct && ni == 0 && slot == prime_slot(m) ==> prior is Some,
        (left == asks.skip(1) && still == due && asks.len() > 0 && asks[0] == (ni, slot)) || (left
            == asks && still == due.skip(1) && due.len() > 0 && due[0].1 == ni && due[0].2 == slot),
    ensures
        life_sound(rules, b, left, still),
{
    let k = asks.len() + due.len();
    assert(left.len() + still.len() == k - 1);
    assert(node_alike(m.arena[0], b.arena[0]));
    assert forall|i: int| 0 <= i < left.len() implies row_due(b, (#[trigger] left[i]).0, left[i].1) by {
        let at = if left == asks {
            i
        } else {
            i + 1
        };
        assert(left[i] == asks[at]);
        assert(row_due(m, asks[at].0, asks[at].1));
        assert(node_alike(m.arena[left[i].0 as int], b.arena[left[i].0 as int]));
    }
    assert forall|i: int| 0 <= i < still.len() implies row_due(
        b,
        (#[trigger] still[i]).1,
        still[i].2,
    ) by {
        let at = if still == due {
            i
        } else {
            i + 1
        };
        assert(still[i] == due[at]);
        assert(row_due(m, due[at].1, due[at].2));
        assert(node_alike(m.arena[still[i].1 as int], b.arena[still[i].1 as int]));
    }
    assert(prime_slot(b) == prime_slot(m));
    if k > 1 {
        lemma_same_within(m, b, (m.sims - 1) as nat);
    } else {
        assert(within(b, ((m.sims - 1) as nat) + 1));
    }
    if rules.ctx.max_depth > 0 {
        assert forall|t: int| 0 <= t < b.arena[0].tables.len() implies (
        #[trigger] b.arena[0].tables[t]).total_visits + (if k > 1 && b.path.len() > 0 {
            1int
        } else {
            0int
        }) + (if rules.ctx.guidance is Puct && b.sims > 0 {
            1int
        } else {
            0int
        }) == b.sims by {
            assert(m.arena[0].tables[t].total_visits == m.arena[0].tables[t].total_visits);
        }
    }
    if rules.ctx.guidance is Puct && !evaluated(b.arena[0]) {
        assert(!evaluated(m.arena[0]));
        let p = prime_slot(m);
        if exists|i: int| 0 <= i < asks.len() && #[trigger] asks[i] == (0usize, p) {
            let i = choose|i: int| 0 <= i < asks.len() && #[trigger] asks[i] == (0usize, p);
            if left == asks {
                assert(left[i] == (0usize, p));
            } else {
                assert(i > 0);
                assert(left[i - 1] == asks[i]);
            }
        } else {
            let i = choose|i: int| 0 <= i < due.len() && (#[trigger] due[i]).1 == 0 && due[i].2 == p;
            if still == due {
                assert(still[i].1 == 0 && still[i].2 == p);
            } else {
                assert(i > 0);
                assert(still[i - 1] == due[i]);
            }
        }
        assert(prime_due(b, left, still));
    }
}

/// A row that is taken in, of those that a sound tree waits for.
pub(crate) proof fn lemma_took_in<
    N: Scalar,
    G: Game<N>,
    E: StateEncoder<State = G::State>,
    W: Reward<N, Event = G::Event>,
    X: Exp<N>,
    M: GammaSource<N, SplitMix64>,
>(
    rules: Rules<N, G, E, W, X, M>,
    ti: usize,
    m: TreeModel<G::State, E::Feature, N>,
    asks: Seq<(usize, usize)>,
    due: Seq<(usize, usize, usize)>,
    ni: usize,
    slot: usize,
    row: Seq<N>,
    left: Seq<(usize, usize)>,
    still: Seq<(usize, usize, usize)>,
)
    requires
        life_sound(rules, m, asks, due),
        (left == asks.skip(1) && still == due && asks.len() > 0 && asks[0] == (ni, slot)) || (left
            == asks && still == due.skip(1) && due.len() > 0 && due[0].1 == ni && due[0].2 == slot),
    ensures
        forall|b: TreeModel<G::State, E::Feature, N>| #[trigger]
            took_in(rules, ti, m, ni, slot, row, b) ==> life_sound(rules, b, left, still),
        forall|f: Fault| #[trigger] refused(rules, ti, m, ni, slot, row, f) ==> f != Fault::Tree,
{
    let ctx = rules.ctx;
    let k = asks.len() + due.len();
    assert(row_due(m, ni, slot));
    assert forall|b: TreeModel<G::State, E::Feature, N>| #[trigger]
        took_in(rules, ti, m, ni, slot, row, b) implies life_sound(rules, b, left, still) by {
        let (value, prior) = choose|value: N, prior: Option<Seq<N>>| #[trigger]
            read_at(rules, ti, m, ni, slot, row, value, prior) && spec_consume(
                ctx.gamma,
                m,
                ni,
                slot,
                value,
                prior,
            ) == Ok::<_, Fault>(b);
        lemma_consume(ctx, m, k, ni, slot, value, prior);
        lemma_row_in(rules, m, asks, due, ni, slot, prior, b, left, still);
    }
    assert forall|f: Fault| #[trigger] refused(rules, ti, m, ni, slot, row, f) implies f
        != Fault::Tree by {
        if exists|value: N, prior: Option<Seq<N>>| #[trigger]
            read_at(rules, ti, m, ni, slot, row, value, prior) && spec_consume(
                ctx.gamma,
                m,
                ni,
                slot,
                value,
                prior,
            ) == Err::<TreeModel<G::State, E::Feature, N>, _>(f) {
            let (value, prior) = choose|value: N, prior: Option<Seq<N>>| #[trigger]
                read_at(rules, ti, m, ni, slot, row, value, prior) && spec_consume(
                    ctx.gamma,
                    m,
                    ni,
                    slot,
                    value,
                    prior,
                ) == Err::<TreeModel<G::State, E::Feature, N>, _>(f);
            lemma_consume(ctx, m, k, ni, slot, value, prior);
        }
    }
}

/// A tree with other counts of its rows is as sound.
pub(crate) proof fn lemma_recounted<
    N: Scalar,
    G: Game<N>,
    E: StateEncoder<State = G::State>,
    W: Reward<N, Event = G::Event>,
    X: Exp<N>,
    M: GammaSource<N, SplitMix64>,
>(
    rules: Rules<N, G, E, W, X, M>,
    m: TreeModel<G::State, E::Feature, N>,
    asks: Seq<(usize, usize)>,
    due: Seq<(usize, usize, usize)>,
    b: TreeModel<G::State, E::Feature, N>,
)
    requires
        life_sound(rules, m, asks, due),
        b == (TreeModel {
            hit_rows: b.hit_rows,
            fresh_rows: b.fresh_rows,
            shared_rows: b.shared_rows,
            ..m
        }),
    ensures
        life_sound(rules, b, asks, due),
{
    lemma_same_but(rules.ctx, m, b);
    let k = asks.len() + due.len();
    if k == 0 {
        assert(within(b, m.sims as nat));
    } else {
        assert(within(b, (m.sims - 1) as nat));
    }
    assert forall|i: int| 0 <= i < asks.len() implies row_due(b, (#[trigger] asks[i]).0, asks[i].1) by {
        assert(row_due(m, asks[i].0, asks[i].1));
    }
    assert forall|i: int| 0 <= i < due.len() implies row_due(b, (#[trigger] due[i]).1, due[i].2) by {
        assert(row_due(m, due[i].1, due[i].2));
    }
    if rules.ctx.guidance is Puct && m.sims > 0 && !evaluated(m.arena[0]) {
        assert(prime_due(m, asks, due));
        assert(prime_slot(b) == prime_slot(m));
        assert(prime_due(b, asks, due));
    }
}

/// A turn leaves a sound tree, with what it has still to ask and what is due to it in order; and a
/// tree that cannot go on is not lost in itself.
pub proof fn law_turns_are_sound<
    N: Scalar,
    G: Game<N>,
    E: StateEncoder<State = G::State>,
    W: Reward<N, Event = G::Event>,
    X: Exp<N>,
    M: GammaSource<N, SplitMix64>,
    B: Batch<E::Feature, N>,
>(
    rules: Rules<N, G, E, W, X, M>,
    ti: usize,
    a: Life<G::State, E::Feature, N, B>,
)
    requires
        fits(rules),
        life_sound(rules, a.m, a.asks, a.due),
    ensures
        forall|b: Life<G::State, E::Feature, N, B>| #[trigger]
            turned(rules, ti, a, b) ==> life_sound(rules, b.m, b.asks, b.due),
        forall|f: Fault| #[trigger] stuck(rules, ti, a, f) ==> f != Fault::Tree,
{
    reveal(stuck);
    let ctx = rules.ctx;
    if a.asks.len() == 0 && a.due.len() == 0 && a.m.sims < rules.num_simulations {
        assert(a.m.arena.len() + growth() <= usize::MAX) by (nonlinear_arith)
            requires
                a.m.arena.len() <= 1 + a.m.sims * growth(),
                a.m.sims + 1 <= rules.num_simulations,
                1 + rules.num_simulations * growth() <= usize::MAX,
                growth() >= 0,
        ;
        law_simulations_are_sound(ctx, a.m);
    }
    assert forall|b: Life<G::State, E::Feature, N, B>| #[trigger] turned(rules, ti, a, b) implies
        life_sound(rules, b.m, b.asks, b.due) by {
        if simulated(rules, a, b) {
            lemma_simulated(rules, a.m, b.m, b.asks);
            assert(b.due =~= Seq::empty());
        } else if exists|row: Seq<N>| #[trigger] hit(rules, ti, a, b, row) {
            let row = choose|row: Seq<N>| #[trigger] hit(rules, ti, a, b, row);
            let m = with_hit(a.m);
            lemma_recounted(rules, a.m, a.asks, a.due, m);
            lemma_took_in(
                rules,
                ti,
                m,
                a.asks,
                a.due,
                a.asks[0].0,
                a.asks[0].1,
                row,
                b.asks,
                b.due,
            );
        } else {
            let ticket = choose|ticket: usize| #[trigger]
                staged(a, ticket, b.batch) == Ok::<_, Fault>(b) && heard(
                    a,
                    Reply::Staged(ticket),
                    b.batch,
                );
            lemma_staged(rules, a, b, ticket);
        }
    }
    assert forall|f: Fault| #[trigger] stuck(rules, ti, a, f) implies f != Fault::Tree by {
        if a.asks.len() > 0 {
            assert(row_due(a.m, a.asks[0].0, a.asks[0].1));
            assert(asking(a));
            let m = with_hit(a.m);
            if exists|row: Seq<N>, after: B| #[trigger]
                heard(a, Reply::Resolved(row), after) && if a.m.hit_rows == usize::MAX {
                    f == Fault::VisitCount
                } else {
                    refused(rules, ti, m, a.asks[0].0, a.asks[0].1, row, f)
                } {
                let (row, after) = choose|row: Seq<N>, after: B| #[trigger]
                    heard(a, Reply::Resolved(row), after) && if a.m.hit_rows == usize::MAX {
                        f == Fault::VisitCount
                    } else {
                        refused(rules, ti, m, a.asks[0].0, a.asks[0].1, row, f)
                    };
                if a.m.hit_rows != usize::MAX {
                    lemma_recounted(rules, a.m, a.asks, a.due, m);
                    lemma_took_in(
                        rules,
                        ti,
                        m,
                        a.asks,
                        a.due,
                        a.asks[0].0,
                        a.asks[0].1,
                        row,
                        a.asks.skip(1),
                        a.due,
                    );
                }
            }
        }
    }
}

pub(crate) proof fn lemma_staged<
    N: Scalar,
    G: Game<N>,
    E: StateEncoder<State = G::State>,
    W: Reward<N, Event = G::Event>,
    X: Exp<N>,
    M: GammaSource<N, SplitMix64>,
    B: Batch<E::Feature, N>,
>(
    rules: Rules<N, G, E, W, X, M>,
    a: Life<G::State, E::Feature, N, B>,
    b: Life<G::State, E::Feature, N, B>,
    ticket: usize,
)
    requires
        life_sound(rules, a.m, a.asks, a.due),
        asking(a),
        staged(a, ticket, b.batch) == Ok::<_, Fault>(b),
    ensures
        life_sound(rules, b.m, b.asks, b.due),
{
    lemma_recounted(rules, a.m, a.asks, a.due, b.m);
    assert(b.asks.len() + b.due.len() == a.asks.len() + a.due.len());
    assert forall|i: int| 0 <= i < b.asks.len() implies row_due(
        b.m,
        (#[trigger] b.asks[i]).0,
        b.asks[i].1,
    ) by {
        assert(b.asks[i] == a.asks[i + 1]);
    }
    let last = b.due.len() - 1;
    assert(b.due[last].1 == a.asks[0].0 && b.due[last].2 == a.asks[0].1);
    assert forall|i: int| 0 <= i < b.due.len() implies row_due(
        b.m,
        (#[trigger] b.due[i]).1,
        b.due[i].2,
    ) by {
        if i < a.due.len() {
            assert(b.due[i] == a.due[i]);
        } else {
            assert(row_due(b.m, a.asks[0].0, a.asks[0].1));
        }
    }
    if prime_due(b.m, a.asks, a.due) {
        let p = prime_slot(b.m);
        if exists|i: int| 0 <= i < a.asks.len() && #[trigger] a.asks[i] == (0usize, p) {
            let i = choose|i: int| 0 <= i < a.asks.len() && #[trigger] a.asks[i] == (0usize, p);
            if i == 0 {
                assert(b.due[last].1 == 0 && b.due[last].2 == p);
            } else {
                assert(b.asks[i - 1] == a.asks[i]);
            }
        } else {
            let i = choose|i: int|
                0 <= i < a.due.len() && (#[trigger] a.due[i]).1 == 0 && a.due[i].2 == p;
            assert(b.due[i] == a.due[i]);
        }
        assert(prime_due(b.m, b.asks, b.due));
    }
}

pub(crate) proof fn lemma_simulated<
    N: Scalar,
    G: Game<N>,
    E: StateEncoder<State = G::State>,
    W: Reward<N, Event = G::Event>,
    X: Exp<N>,
    M: GammaSource<N, SplitMix64>,
>(
    rules: Rules<N, G, E, W, X, M>,
    m: TreeModel<G::State, E::Feature, N>,
    b: TreeModel<G::State, E::Feature, N>,
    asks: Seq<(usize, usize)>,
)
    requires
        fits(rules),
        life_sound(rules, m, Seq::empty(), Seq::empty()),
        m.sims < rules.num_simulations,
        simulated_soundly(rules.ctx, m, b, asks),
    ensures
        life_sound(rules, b, asks, Seq::empty()),
{
    let ctx = rules.ctx;
    let none: Seq<(usize, usize, usize)> = Seq::empty();
    assert(b.arena.len() <= 1 + b.sims * growth()) by (nonlinear_arith)
        requires
            b.arena.len() <= m.arena.len() + growth(),
            m.arena.len() <= 1 + m.sims * growth(),
            b.sims == m.sims + 1,
    ;
    assert(!m.arena[0].terminal);
    assert(prime_slot(b) == prime_slot(m));
    let empty: Seq<(usize, usize)> = Seq::empty();
    assert(!prime_due(m, empty, none));
    if ctx.guidance is Puct && !evaluated(m.arena[0]) {
        assert(asks == rows_at(b.arena[0], 0));
        let p = prime_slot(b);
        assert(asks[p as int] == (0usize, p));
        assert(prime_due(b, asks, none));
    }
    if ctx.max_depth > 0 {
        assert forall|t: int| 0 <= t < b.arena[0].tables.len() implies (
        #[trigger] b.arena[0].tables[t]).total_visits + (if asks.len() > 0 && b.path.len() > 0 {
            1int
        } else {
            0int
        }) + (if ctx.guidance is Puct && b.sims > 0 {
            1int
        } else {
            0int
        }) == b.sims by {
            assert(m.arena[0].tables[t].total_visits == m.arena[0].tables[t].total_visits);
        }
    }
}

/// A tree between two rounds, with everything in order.
pub open spec fn rests_sound<
    N: Scalar,
    G: Game<N>,
    E: StateEncoder<State = G::State>,
    W: Reward<N, Event = G::Event>,
    X: Exp<N>,
    M: GammaSource<N, SplitMix64>,
>(rules: Rules<N, G, E, W, X, M>, m: TreeModel<G::State, E::Feature, N>) -> bool {
    life_sound(rules, m, Seq::empty(), Seq::empty())
}

/// The tree of a request begins sound.
pub proof fn law_roots_are_sound<
    N: Scalar,
    G: Game<N>,
    E: StateEncoder<State = G::State>,
    W: Reward<N, Event = G::Event>,
    X: Exp<N>,
    M: GammaSource<N, SplitMix64>,
>(
    rules: Rules<N, G, E, W, X, M>,
    state: G::State,
    requester: usize,
    seed: u64,
    force_maxn: bool,
)
    requires
        fits(rules),
        rules.ctx.game.spec_num_agents() > 0,
    ensures
        match rooted_tree::<N, G, E>(
            *rules.ctx.game,
            *rules.ctx.enc,
            state,
            requester,
            seed,
            force_maxn,
        ) {
            Ok(m) => rests_sound(rules, m),
            Err(f) => f != Fault::Tree,
        },
{
    let game = *rules.ctx.game;
    let enc = *rules.ctx.enc;
    let n = game.spec_num_agents() as nat;
    match game.spec_actor(state) {
        Actor::Agent(actor) => {
            let legal = game.spec_legal_actions(state, actor);
            let mode = root_mode(true, n, force_maxn);
            lemma_fresh_table::<N>(actor, legal);
            let tables = seq![fresh_table::<N>(actor, legal)];
            assert(choices_from(tables, 1) == 1);
            assert(choices_from(tables, 0) == legal.len() * 1);
            lemma_fresh_choices::<N>(legal.len(), 0, 1, valued_agents(mode, n));
            let root = decision_node::<N, G, E>(game, enc, state, actor, 0, mode);
            assert(node_sound(game, rules.ctx.chance, mode, n, 1, 0, root));
            lemma_planted(rules, root, mode, requester, seed);
        },
        Actor::Simultaneous => {
            let tables = sim_tables::<N, G>(game, state, n);
            lemma_joint_width(tables, 0, 1);
            assert forall|t: int| 0 <= t < tables.len() implies table_sound(#[trigger] tables[t])
                && tables[t].total_visits == 0 by {
                lemma_fresh_table::<N>(t as usize, sim_legal(game, state, t as usize));
            }
            lemma_fresh_choices::<N>(choices_from(tables, 0), 0, 1, valued_agents(
                TreeMode::Sim,
                n,
            ));
            if let Ok(root) = sim_node::<N, G, E>(game, enc, state, 0) {
                assert(node_sound(game, rules.ctx.chance, TreeMode::Sim, n, 1, 0, root));
                lemma_planted(rules, root, TreeMode::Sim, requester, seed);
            }
        },
        Actor::Chance => {},
    }
}

pub(crate) proof fn lemma_planted<
    N: Scalar,
    G: Game<N>,
    E: StateEncoder<State = G::State>,
    W: Reward<N, Event = G::Event>,
    X: Exp<N>,
    M: GammaSource<N, SplitMix64>,
>(
    rules: Rules<N, G, E, W, X, M>,
    root: NodeModel<G::State, E::Feature, N>,
    mode: TreeMode,
    requester: usize,
    seed: u64,
)
    requires
        rules.ctx.game.spec_num_agents() > 0,
        !(root.kind is Chance),
        !root.terminal,
        root.depth == 0,
        node_sound(
            *rules.ctx.game,
            rules.ctx.chance,
            mode,
            rules.ctx.game.spec_num_agents() as nat,
            1,
            0,
            root,
        ),
        tables_within(root.tables, 0),
        !evaluated(root),
        mode == TreeMode::SeqMaxN ==> root.actor < rules.ctx.game.spec_num_agents(),
    ensures
        rests_sound(
            rules,
            planted(
                root,
                mode,
                rules.ctx.game.spec_num_agents(),
                requester,
                crate::rng::generator(seed),
            ),
        ),
{
    let m = planted(
        root,
        mode,
        rules.ctx.game.spec_num_agents(),
        requester,
        crate::rng::generator(seed),
    );
    assert(m.arena[0] == root);
    assert(arena_sound(rules.ctx, m));
    assert(tree_sound(rules.ctx, m));
    assert(within(m, 0));
    assert(root_counted(rules.ctx, m, false)) by {
        if rules.ctx.max_depth > 0 {
            assert forall|t: int| 0 <= t < m.arena[0].tables.len() implies (
            #[trigger] m.arena[0].tables[t]).total_visits == 0 by {
                assert(root.tables[t].total_visits <= 0);
            }
        }
    }
}

pub(crate) proof fn lemma_trace_sound<
    N: Scalar,
    G: Game<N>,
    E: StateEncoder<State = G::State>,
    W: Reward<N, Event = G::Event>,
    X: Exp<N>,
    M: GammaSource<N, SplitMix64>,
    B: Batch<E::Feature, N>,
>(
    rules: Rules<N, G, E, W, X, M>,
    ti: usize,
    trace: Seq<Life<G::State, E::Feature, N, B>>,
    j: int,
)
    requires
        fits(rules),
        trace_of(rules, ti, trace),
        life_sound(rules, trace[0].m, trace[0].asks, trace[0].due),
        0 <= j < trace.len(),
    ensures
        life_sound(rules, trace[j].m, trace[j].asks, trace[j].due),
    decreases j,
{
    if j > 0 {
        lemma_trace_sound(rules, ti, trace, j - 1);
        assert(turned(rules, ti, trace[j - 1], trace[j - 1 + 1]));
        law_turns_are_sound(rules, ti, trace[j - 1]);
    }
}

pub(crate) proof fn lemma_reached_sound<
    N: Scalar,
    G: Game<N>,
    E: StateEncoder<State = G::State>,
    W: Reward<N, Event = G::Event>,
    X: Exp<N>,
    M: GammaSource<N, SplitMix64>,
    B: Batch<E::Feature, N>,
>(
    rules: Rules<N, G, E, W, X, M>,
    ti: usize,
    a: Life<G::State, E::Feature, N, B>,
    b: Life<G::State, E::Feature, N, B>,
)
    requires
        fits(rules),
        reaches(rules, ti, a, b),
        life_sound(rules, a.m, a.asks, a.due),
    ensures
        life_sound(rules, b.m, b.asks, b.due),
{
    reveal(reaches);
    let trace = choose|trace: Seq<Life<G::State, E::Feature, N, B>>| #[trigger]
        trace_of(rules, ti, trace) && trace[0] == a && trace.last() == b;
    lemma_trace_sound(rules, ti, trace, trace.len() - 1);
}

pub(crate) proof fn lemma_course_sound<
    N: Scalar,
    G: Game<N>,
    E: StateEncoder<State = G::State>,
    W: Reward<N, Event = G::Event>,
    X: Exp<N>,
    M: GammaSource<N, SplitMix64>,
>(
    rules: Rules<N, G, E, W, X, M>,
    ti: usize,
    due: Seq<(usize, usize, usize)>,
    rows: Seq<Seq<N>>,
    n: int,
    course: Seq<TreeModel<G::State, E::Feature, N>>,
    j: int,
)
    requires
        0 <= j <= n <= due.len(),
        deliveries(rules, ti, due.take(n), rows, course),
        life_sound(rules, course[0], Seq::empty(), due),
    ensures
        life_sound(rules, course[j], Seq::empty(), due.skip(j)),
    decreases j,
{
    if j > 0 {
        lemma_course_sound(rules, ti, due, rows, n, course, j - 1);
        let at = due[j - 1];
        assert(due.take(n)[j - 1] == at);
        assert(delivery(rules, ti, due.take(n)[j - 1], rows, course[j - 1], course[j - 1 + 1]));
        let left = due.skip(j - 1);
        assert(left[0] == at);
        assert(left.skip(1) =~= due.skip(j));
        lemma_took_in(
            rules,
            ti,
            course[j - 1],
            Seq::empty(),
            left,
            at.1,
            at.2,
            rows[at.0 as int],
            Seq::empty(),
            due.skip(j),
        );
        assert(took_in(
            rules,
            ti,
            course[j - 1],
            at.1,
            at.2,
            rows[at.0 as int],
            course[j],
        ));
    } else {
        assert(due.skip(0) =~= due);
    }
}

pub(crate) proof fn lemma_delivered_sound<
    N: Scalar,
    G: Game<N>,
    E: StateEncoder<State = G::State>,
    W: Reward<N, Event = G::Event>,
    X: Exp<N>,
    M: GammaSource<N, SplitMix64>,
>(
    rules: Rules<N, G, E, W, X, M>,
    ti: usize,
    m: TreeModel<G::State, E::Feature, N>,
    due: Seq<(usize, usize, usize)>,
    rows: Seq<Seq<N>>,
)
    requires
        life_sound(rules, m, Seq::empty(), due),
    ensures
        forall|next: TreeModel<G::State, E::Feature, N>| #[trigger]
            delivered(rules, ti, m, due, rows, next) ==> rests_sound(rules, next),
        forall|f: Fault| #[trigger]
            undeliverable(rules, ti, m, due, rows, f) ==> f != Fault::Tree,
{
    assert forall|next: TreeModel<G::State, E::Feature, N>| #[trigger]
        delivered(rules, ti, m, due, rows, next) implies rests_sound(rules, next) by {
        let course = choose|course: Seq<TreeModel<G::State, E::Feature, N>>| #[trigger]
            deliveries(rules, ti, due, rows, course) && course[0] == m && course.last() == next;
        assert(due.take(due.len() as int) =~= due);
        lemma_course_sound(rules, ti, due, rows, due.len() as int, course, due.len() as int);
        assert(due.skip(due.len() as int) =~= Seq::empty());
    }
    assert forall|f: Fault| #[trigger] undeliverable(rules, ti, m, due, rows, f) implies f
        != Fault::Tree by {
        let (i, mid) = choose|i: int, mid: TreeModel<G::State, E::Feature, N>|
            0 <= i < due.len() && #[trigger] delivered(rules, ti, m, due.take(i), rows, mid)
                && if due[i].0 < rows.len() {
                refused(rules, ti, mid, due[i].1, due[i].2, rows[due[i].0 as int], f)
            } else {
                f == Fault::RowCount
            };
        if due[i].0 < rows.len() {
            let part = due.take(i);
            let course = choose|course: Seq<TreeModel<G::State, E::Feature, N>>| #[trigger]
                deliveries(rules, ti, part, rows, course) && course[0] == m && course.last() == mid;
            lemma_course_sound(rules, ti, due, rows, i, course, i);
            let left = due.skip(i);
            assert(left[0] == due[i]);
            lemma_took_in(
                rules,
                ti,
                mid,
                Seq::empty(),
                left,
                due[i].1,
                due[i].2,
                rows[due[i].0 as int],
                Seq::empty(),
                left.skip(1),
            );
        }
    }
}

/// Every tree of a pool is sound.
pub open spec fn all_rest_sound<
    N: Scalar,
    G: Game<N>,
    E: StateEncoder<State = G::State>,
    W: Reward<N, Event = G::Event>,
    X: Exp<N>,
    M: GammaSource<N, SplitMix64>,
>(rules: Rules<N, G, E, W, X, M>, trees: Seq<TreeModel<G::State, E::Feature, N>>) -> bool {
    forall|ti: int| 0 <= ti < trees.len() ==> rests_sound(rules, #[trigger] trees[ti])
}

pub(crate) proof fn lemma_staged_sound<
    N: Scalar,
    G: Game<N>,
    E: StateEncoder<State = G::State>,
    W: Reward<N, Event = G::Event>,
    X: Exp<N>,
    M: GammaSource<N, SplitMix64>,
    B: Batch<E::Feature, N>,
>(
    rules: Rules<N, G, E, W, X, M>,
    trees: Seq<TreeModel<G::State, E::Feature, N>>,
    batch: B,
    lives: Seq<Life<G::State, E::Feature, N, B>>,
    ti: int,
)
    requires
        fits(rules),
        all_rest_sound(rules, trees),
        staged_trees(rules, trees, batch, lives),
        0 <= ti < lives.len() <= trees.len(),
    ensures
        life_sound(rules, lives[ti].m, Seq::empty(), lives[ti].due),
{
    assert(staged_at(rules, trees, batch, lives, ti));
    assert(rests_sound(rules, trees[ti]));
    lemma_reached_sound(rules, ti as usize, entry(trees, batch, lives, ti), lives[ti]);
    assert(lives[ti].asks =~= Seq::empty());
}

pub(crate) proof fn lemma_rounds_sound<
    N: Scalar,
    G: Game<N>,
    E: StateEncoder<State = G::State>,
    W: Reward<N, Event = G::Event>,
    X: Exp<N>,
    M: GammaSource<N, SplitMix64>,
    B: Batch<E::Feature, N>,
>(
    rules: Rules<N, G, E, W, X, M>,
    start: Stage<G::State, E::Feature, N, B>,
    stages: Seq<Stage<G::State, E::Feature, N, B>>,
    j: int,
)
    requires
        fits(rules),
        all_rest_sound(rules, start.trees),
        rounds_run(rules, start, stages),
        0 <= j < stages.len(),
    ensures
        all_rest_sound(rules, stages[j].trees),
    decreases j,
{
    if j > 0 {
        lemma_rounds_sound(rules, start, stages, j - 1);
        assert(round_at(rules, stages, j - 1));
        let a = stages[j - 1];
        let b = stages[j - 1 + 1];
        let (lives, rows) = choose|
            lives: Seq<Life<G::State, E::Feature, N, B>>,
            rows: Seq<Seq<N>>,
        | #[trigger]
            round_committed(rules, a, lives, rows, b.batch) && all_delivered(
                rules,
                lives,
                rows,
                b.trees,
            );
        assert forall|ti: int| 0 <= ti < b.trees.len() implies rests_sound(
            rules,
            #[trigger] b.trees[ti],
        ) by {
            lemma_staged_sound(rules, a.trees, a.batch, lives, ti);
            assert(lives[ti].m == lives[ti].m);
            lemma_delivered_sound(rules, ti as usize, lives[ti].m, lives[ti].due, rows);
            assert(delivered(
                rules,
                ti as usize,
                lives[ti].m,
                lives[ti].due,
                rows,
                b.trees[ti],
            ));
        }
    }
}

pub(crate) proof fn lemma_start_sound<
    N: Scalar,
    G: Game<N>,
    E: StateEncoder<State = G::State>,
    W: Reward<N, Event = G::Event>,
    X: Exp<N>,
    M: GammaSource<N, SplitMix64>,
    B: Batch<E::Feature, N>,
>(
    rules: Rules<N, G, E, W, X, M>,
    batch: B,
    requests: Seq<(G::State, usize)>,
    seed: u64,
    force_maxn: bool,
)
    requires
        fits(rules),
        poolable(
            *rules.ctx.game,
            *rules.ctx.enc,
            rules.ctx.guidance,
            requests,
            seed,
            force_maxn,
        ),
    ensures
        all_rest_sound(rules, pool_start(rules, batch, requests, seed, force_maxn).trees),
{
    let trees = pool_start(rules, batch, requests, seed, force_maxn).trees;
    assert forall|ti: int| 0 <= ti < trees.len() implies rests_sound(rules, #[trigger] trees[ti]) by {
        assert(request_tree::<N, G, E>(
            *rules.ctx.game,
            *rules.ctx.enc,
            requests,
            ti,
            seed,
            force_maxn,
        ) is Ok);
        law_roots_are_sound(
            rules,
            requests[ti].0,
            requests[ti].1,
            chance_stream(seed, ti as usize),
            force_maxn,
        );
    }
}

/// No pool is lost in its trees: whatever a pool fails with, where every mover has a move and its
/// counts can be kept, it is not a tree that does not hold together.
pub proof fn law_pools_are_never_lost<
    N: Scalar,
    G: Game<N>,
    E: StateEncoder<State = G::State>,
    W: Reward<N, Event = G::Event>,
    X: Exp<N>,
    M: GammaSource<N, SplitMix64>,
    B: Batch<E::Feature, N>,
>(
    rules: Rules<N, G, E, W, X, M>,
    batch: B,
    requests: Seq<(G::State, usize)>,
    seed: u64,
    force_maxn: bool,
    f: Fault,
)
    requires
        fits(rules),
        pool_failed(rules, batch, requests, seed, force_maxn, f),
    ensures
        f != Fault::Tree,
{
    let game = *rules.ctx.game;
    let enc = *rules.ctx.enc;
    if unpoolable(game, enc, rules.ctx.guidance, requests, seed, force_maxn, f) {
        if game.spec_num_agents() > 0 && game.spec_perfect_information() && !all_rooted::<N, G, E>(
            game,
            enc,
            requests,
            seed,
            force_maxn,
        ) {
            let ti = choose|ti: int| #[trigger]
                first_rootless::<N, G, E>(game, enc, requests, ti, seed, force_maxn, f);
            law_roots_are_sound(
                rules,
                requests[ti].0,
                requests[ti].1,
                chance_stream(seed, ti as usize),
                force_maxn,
            );
        }
    } else {
        let start = pool_start(rules, batch, requests, seed, force_maxn);
        lemma_start_sound(rules, batch, requests, seed, force_maxn);
        let stages = choose|stages: Seq<Stage<G::State, E::Feature, N, B>>| #[trigger]
            rounds_run(rules, start, stages) && broken_off(rules, stages.last(), f);
        lemma_rounds_sound(rules, start, stages, stages.len() - 1);
        let a = stages.last();
        if all_grown(a.trees, rules.num_simulations) {
            let ti = choose|ti: int|
                0 <= ti < a.trees.len() && evaluated_as(#[trigger] a.trees[ti], rules.actions)
                    == Err::<EvaluationModel<N>, _>(f);
            lemma_tally_faults(a.trees[ti], rules.actions);
        } else if call_ensures(B::is_empty, (&a.batch,), true) && unstageable(
            rules,
            a.trees,
            a.batch,
            f,
        ) {
            let (lives, life) = choose|
                lives: Seq<Life<G::State, E::Feature, N, B>>,
                life: Life<G::State, E::Feature, N, B>,
            |
                #![trigger staged_trees(rules, a.trees, a.batch, lives), stuck(rules, lives.len() as usize, life, f)]
                {
                    &&& lives.len() < a.trees.len()
                    &&& staged_trees(rules, a.trees, a.batch, lives)
                    &&& reaches(
                        rules,
                        lives.len() as usize,
                        entry(a.trees, a.batch, lives, lives.len() as int),
                        life,
                    )
                    &&& stuck(rules, lives.len() as usize, life, f)
                };
            let ti = lives.len() as int;
            assert(rests_sound(rules, a.trees[ti]));
            lemma_reached_sound(
                rules,
                ti as usize,
                entry(a.trees, a.batch, lives, ti),
                life,
            );
            law_turns_are_sound(rules, ti as usize, life);
        } else if f != Fault::BatchInUse {
            let (lives, rows, next, ti) = choose|
                lives: Seq<Life<G::State, E::Feature, N, B>>,
                rows: Seq<Seq<N>>,
                next: B,
                ti: int,
            |
                #![trigger round_committed(rules, a, lives, rows, next), lives[ti]]
                round_committed(rules, a, lives, rows, next) && 0 <= ti < lives.len()
                    && undeliverable(
                    rules,
                    ti as usize,
                    lives[ti].m,
                    lives[ti].due,
                    rows,
                    f,
                );
            lemma_staged_sound(rules, a.trees, a.batch, lives, ti);
            lemma_delivered_sound(rules, ti as usize, lives[ti].m, lives[ti].due, rows);
        }
    }
}

pub(crate) proof fn lemma_tally_faults<S, F, N: Scalar>(m: TreeModel<S, F, N>, actions: usize)
    ensures
        evaluated_as(m, actions) matches Err(f) ==> f != Fault::Tree,
{
    if m.arena.len() > 0 && asked_table(m) < m.arena[0].tables.len() {
        let blank = spec_filled(N::spec_zero(), actions as nat);
        lemma_tallied_faults(m.arena[0].tables[asked_table(m) as int].arms, 0, blank, blank);
    }
}

pub(crate) proof fn lemma_tallied_faults<N: Scalar>(
    arms: Seq<Arm<N>>,
    i: nat,
    values: Seq<N>,
    visits: Seq<N>,
)
    ensures
        tallied(arms, i, values, visits) matches Err(f) ==> f == Fault::ActionRange,
    decreases arms.len() - i,
{
    if i < arms.len() && arms[i as int].action < values.len() {
        let arm = arms[i as int];
        let n = N::spec_count(arm.visits as u64);
        lemma_tallied_faults(
            arms,
            i + 1,
            if arm.visits > 0 {
                values.update(arm.action as int, arm.value_sum.spec_over(n))
            } else {
                values
            },
            visits.update(arm.action as int, n),
        );
    }
}

/// The sum of the first `n` counts.
pub open spec fn total(counts: Seq<u32>, n: nat) -> nat
    decreases n,
{
    if n == 0 {
        0
    } else {
        total(counts, (n - 1) as nat) + counts[n - 1] as nat
    }
}

pub(crate) proof fn lemma_total<N>(arms: Seq<Arm<N>>, counts: Seq<u32>, n: nat)
    requires
        n <= arms.len() == counts.len(),
        forall|i: int| 0 <= i < n ==> #[trigger] counts[i] == arms[i].visits,
    ensures
        total(counts, n) == arm_visits(arms, n),
    decreases n,
{
    if n > 0 {
        lemma_total(arms, counts, (n - 1) as nat);
        assert(counts[n - 1] == arms[n - 1].visits);
    }
}

pub(crate) proof fn lemma_tallied_visits<N: Scalar>(
    arms: Seq<Arm<N>>,
    i: nat,
    values: Seq<N>,
    visits: Seq<N>,
    k: int,
)
    requires
        0 <= k < arms.len(),
        values.len() == visits.len(),
        forall|x: int, y: int| 0 <= x < y < arms.len() ==> arms[x].action != arms[y].action,
        k < i ==> arms[k].action < visits.len() && visits[arms[k].action as int] == N::spec_count(
            arms[k].visits as u64,
        ),
    ensures
        tallied(arms, i, values, visits) matches Ok((v, n)) ==> arms[k].action < n.len()
            && n[arms[k].action as int] == N::spec_count(arms[k].visits as u64),
    decreases arms.len() - i,
{
    if i < arms.len() && arms[i as int].action < values.len() {
        let arm = arms[i as int];
        let n = N::spec_count(arm.visits as u64);
        lemma_tallied_visits(
            arms,
            i + 1,
            if arm.visits > 0 {
                values.update(arm.action as int, arm.value_sum.spec_over(n))
            } else {
                values
            },
            visits.update(arm.action as int, n),
            k,
        );
    }
}

/// `counts` are the visits that a search tells, of each legal action.
pub open spec fn visits_told<N: Scalar>(e: EvaluationModel<N>, counts: Seq<u32>) -> bool {
    &&& counts.len() == e.legal.len()
    &&& e.legal.no_duplicates() ==> forall|i: int|
        0 <= i < counts.len() ==> (#[trigger] e.legal[i]) < e.visits.len()
            && e.visits[e.legal[i] as int] == N::spec_count(counts[i] as u64)
}

pub(crate) proof fn lemma_visits_told<S, F, N: Scalar>(
    m: TreeModel<S, F, N>,
    actions: usize,
    e: EvaluationModel<N>,
    counts: Seq<u32>,
)
    requires
        evaluated_as(m, actions) == Ok::<_, Fault>(e),
        counts.len() == m.arena[0].tables[asked_table(m) as int].arms.len(),
        forall|i: int|
            0 <= i < counts.len() ==> #[trigger] counts[i]
                == m.arena[0].tables[asked_table(m) as int].arms[i].visits,
    ensures
        visits_told(e, counts),
{
    let arms = m.arena[0].tables[asked_table(m) as int].arms;
    let blank = spec_filled(N::spec_zero(), actions as nat);
    assert(e.legal.len() == arms.len());
    if e.legal.no_duplicates() {
        assert forall|x: int, y: int| 0 <= x < y < arms.len() implies arms[x].action
            != arms[y].action by {
            assert(e.legal[x] == arms[x].action && e.legal[y] == arms[y].action);
        }
        assert forall|i: int| 0 <= i < counts.len() implies (#[trigger] e.legal[i])
            < e.visits.len() && e.visits[e.legal[i] as int] == N::spec_count(
            counts[i] as u64,
        ) by {
            lemma_tallied_visits(arms, 0, blank, blank, i);
            assert(e.legal[i] == arms[i].action);
            assert(counts[i] == arms[i].visits);
        }
    }
}

/// The visits that a search tells of its root add up to the simulations that were asked for; under
/// PUCT to one fewer, since the first simulation evaluates the root.
pub proof fn law_root_visits_add_up<
    N: Scalar,
    G: Game<N>,
    E: StateEncoder<State = G::State>,
    W: Reward<N, Event = G::Event>,
    X: Exp<N>,
    M: GammaSource<N, SplitMix64>,
    B: Batch<E::Feature, N>,
>(
    rules: Rules<N, G, E, W, X, M>,
    source: (B, B),
    requests: Seq<(G::State, usize)>,
    seed: u64,
    force_maxn: bool,
    out: Seq<SearchEvaluation<N>>,
    ti: int,
) -> (counts: Seq<u32>)
    requires
        fits(rules),
        rules.ctx.max_depth > 0,
        pool_ran(rules, source, requests, seed, force_maxn, out),
        0 <= ti < out.len(),
    ensures
        visits_told(out[ti]@, counts),
        total(counts, counts.len()) + if rules.ctx.guidance is Puct && rules.num_simulations > 0 {
            1int
        } else {
            0int
        } == rules.num_simulations,
{
    let start = pool_start(rules, source.0, requests, seed, force_maxn);
    lemma_start_sound(rules, source.0, requests, seed, force_maxn);
    let stages = choose|stages: Seq<Stage<G::State, E::Feature, N, B>>| #[trigger]
        rounds_run(rules, start, stages) && stages.last().batch == source.1 && told(
            stages.last().trees,
            rules.num_simulations,
            rules.actions,
            out,
        );
    lemma_rounds_sound(rules, start, stages, stages.len() - 1);
    let m = stages.last().trees[ti];
    let e = out[ti]@;
    assert(rests_sound(rules, m));
    assert(evaluated_as(m, rules.actions) == Ok::<_, Fault>(e));
    let table = m.arena[0].tables[asked_table(m) as int];
    let arms = table.arms;
    let counts = arms.map_values(|a: Arm<N>| a.visits);
    lemma_total(arms, counts, arms.len());
    assert(node_sound(
        *rules.ctx.game,
        rules.ctx.chance,
        m.mode,
        m.n_agents as nat,
        m.arena.len(),
        0,
        m.arena[0],
    ));
    assert(table_sound(table));
    assert(m.arena[0].tables[asked_table(m) as int].total_visits == table.total_visits);
    lemma_visits_told(m, rules.actions, e, counts);
    counts
}

/// The logarithms of a search reach as far as its simulations do.
pub(crate) proof fn lemma_logs_fit<N: Scalar, K: Ln<N>>(
    maths: K,
    guidance: Guidance<N>,
    num_simulations: usize,
    logs: Seq<N>,
)
    requires
        log_choice(maths, guidance, num_simulations, logs),
        num_simulations > 0,
    ensures
        guidance is Uct ==> 1 < logs.len() && num_simulations - 1 < logs.len(),
{
}

/// No pooled search is lost in its tree.
pub proof fn law_searches_are_never_lost<
    N: Scalar,
    G: Game<N>,
    E: StateEncoder<State = G::State>,
    W: Reward<N, Event = G::Event>,
    K: Exp<N> + Ln<N> + GammaSource<N, SplitMix64>,
    B: Batch<E::Feature, N>,
>(
    game: &G,
    enc: &E,
    reward: &W,
    num_simulations: usize,
    gamma: N,
    max_depth: i32,
    guidance: Guidance<N>,
    chance: ChanceMode,
    maths: &K,
    batch: B,
    requests: Seq<(G::State, usize)>,
    seed: u64,
    force_maxn: bool,
    f: Fault,
)
    requires
        lively::<N, G>(*game),
        MAX_ENUMERATED_OUTCOMES * game.spec_num_agents() <= usize::MAX,
        1 + num_simulations * growth() <= usize::MAX,
        search_failed(
            game,
            enc,
            reward,
            num_simulations,
            gamma,
            max_depth,
            guidance,
            chance,
            maths,
            batch,
            requests,
            seed,
            force_maxn,
            f,
        ),
    ensures
        f != Fault::Tree,
{
    let logs = choose|logs: &[N]|
        log_choice(*maths, guidance, num_simulations, logs@) && #[trigger] pool_failed(
            made_rules(
                game,
                enc,
                reward,
                num_simulations,
                gamma,
                max_depth,
                guidance,
                chance,
                logs,
                maths,
            ),
            batch,
            requests,
            seed,
            force_maxn,
            f,
        );
    if num_simulations > 0 {
        lemma_logs_fit(*maths, guidance, num_simulations, logs@);
    }
    law_pools_are_never_lost(
        made_rules(
            game,
            enc,
            reward,
            num_simulations,
            gamma,
            max_depth,
            guidance,
            chance,
            logs,
            maths,
        ),
        batch,
        requests,
        seed,
        force_maxn,
        f,
    );
}

/// The visits that pooled searches tell of their roots add up to the simulations that were asked
/// for; under PUCT to one fewer.
pub proof fn law_search_visits_add_up<
    N: Scalar,
    G: Game<N>,
    E: StateEncoder<State = G::State>,
    W: Reward<N, Event = G::Event>,
    K: Exp<N> + Ln<N> + GammaSource<N, SplitMix64>,
    B: Batch<E::Feature, N>,
>(
    game: &G,
    enc: &E,
    reward: &W,
    num_simulations: usize,
    gamma: N,
    max_depth: i32,
    guidance: Guidance<N>,
    chance: ChanceMode,
    maths: &K,
    source: (B, B),
    requests: Seq<(G::State, usize)>,
    seed: u64,
    force_maxn: bool,
    out: Seq<SearchEvaluation<N>>,
    ti: int,
) -> (counts: Seq<u32>)
    requires
        lively::<N, G>(*game),
        MAX_ENUMERATED_OUTCOMES * game.spec_num_agents() <= usize::MAX,
        1 + num_simulations * growth() <= usize::MAX,
        max_depth > 0,
        searched(
            game,
            enc,
            reward,
            num_simulations,
            gamma,
            max_depth,
            guidance,
            chance,
            maths,
            source,
            requests,
            seed,
            force_maxn,
            out,
        ),
        0 <= ti < out.len(),
    ensures
        visits_told(out[ti]@, counts),
        total(counts, counts.len()) + if guidance is Puct && num_simulations > 0 {
            1int
        } else {
            0int
        } == num_simulations,
{
    let logs = choose|logs: &[N]|
        log_choice(*maths, guidance, num_simulations, logs@) && #[trigger] pool_ran(
            made_rules(
                game,
                enc,
                reward,
                num_simulations,
                gamma,
                max_depth,
                guidance,
                chance,
                logs,
                maths,
            ),
            source,
            requests,
            seed,
            force_maxn,
            out,
        );
    if num_simulations > 0 {
        lemma_logs_fit(*maths, guidance, num_simulations, logs@);
    }
    law_root_visits_add_up(
        made_rules(
            game,
            enc,
            reward,
            num_simulations,
            gamma,
            max_depth,
            guidance,
            chance,
            logs,
            maths,
        ),
        source,
        requests,
        seed,
        force_maxn,
        out,
        ti,
    )
}

} // verus!
