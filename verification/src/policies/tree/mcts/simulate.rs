//! One simulation: down the tree, and back up at once where no network row is needed.

use vstd::prelude::*;

use super::backup::{backup_leaf_values, backup_terminal, fan_backprop};
#[allow(unused_imports)]
use super::backup::{fan_backed_up, leaf_backed_up, no_values, spec_backup};
use super::grow::{select_expand, Ctx, Reached};
#[allow(unused_imports)]
use super::grow::spec_select_expand;
use super::tree::{Kind, Node, PendingWork, Tree, TreeMode};
#[allow(unused_imports)]
use super::tree::{
    link_models, node_models, row_models, same_counts, KindModel, LinkModel, NodeModel, TreeModel,
};
use crate::encoder::StateEncoder;
use crate::fault::Fault;
use crate::game::Game;
use crate::num::Scalar;
use crate::reward::Reward;

verus! {

/// A count after `by` more.
pub open spec fn counted(count: usize, by: nat) -> Result<usize, Fault> {
    if count + by <= usize::MAX {
        Ok((count + by) as usize)
    } else {
        Err(Fault::VisitCount)
    }
}

/// Adds to a count.
pub fn bump(count: usize, by: usize) -> (r: Result<usize, Fault>)
    ensures
        r == counted(count, by as nat),
{
    match count.checked_add(by) {
        Some(n) => Ok(n),
        None => Err(Fault::VisitCount),
    }
}

/// The rows of node `ni`, each as the node and the row's place in it.
pub open spec fn rows_at<S, F, N>(node: NodeModel<S, F, N>, ni: usize) -> Seq<(usize, usize)> {
    Seq::new(node.rows.len(), |s: int| (ni, s as usize))
}

/// The rows of the nodes behind `links`, from link `i` on, terminal nodes left out.
pub open spec fn rows_behind<S, F, N>(
    arena: Seq<NodeModel<S, F, N>>,
    links: Seq<LinkModel<N>>,
    i: nat,
    acc: Seq<(usize, usize)>,
) -> Result<Seq<(usize, usize)>, Fault>
    decreases links.len() - i,
{
    if i >= links.len() {
        Ok(acc)
    } else {
        match links[i as int].child {
            None => Err(Fault::Tree),
            Some(c) => if c >= arena.len() {
                Err(Fault::Tree)
            } else if arena[c as int].terminal {
                rows_behind(arena, links, i + 1, acc)
            } else {
                rows_behind(arena, links, i + 1, acc + rows_at(arena[c as int], c))
            },
        }
    }
}

/// A tree that waits for the rows `asks`, `work` to be done with the last of them.
pub open spec fn awaiting_rows<S, F, N>(
    m: TreeModel<S, F, N>,
    work: Option<PendingWork>,
    asks: Seq<(usize, usize)>,
) -> Result<(TreeModel<S, F, N>, Seq<(usize, usize)>), Fault> {
    if asks.len() == 0 {
        Err(Fault::Tree)
    } else {
        match counted(m.extra_eval_rows, (asks.len() - 1) as nat) {
            Err(f) => Err(f),
            Ok(extra) => Ok(
                (
                    TreeModel {
                        extra_eval_rows: extra,
                        pending: match work {
                            Some(w) => Some((w, asks.len() as usize)),
                            None => m.pending,
                        },
                        ..m
                    },
                    asks,
                ),
            ),
        }
    }
}

/// A backed-up tree, which asks for nothing.
pub open spec fn content<S, F, N>(r: Result<TreeModel<S, F, N>, Fault>) -> Result<
    (TreeModel<S, F, N>, Seq<(usize, usize)>),
    Fault,
> {
    match r {
        Err(f) => Err(f),
        Ok(m) => Ok((m, Seq::empty())),
    }
}

/// What a simulation that has reached its end makes of the tree, and the rows that it asks for.
///
/// It ends at a terminal, whose outcome is backed up; or at the depth cap, where the node's own
/// values are; or at a node whose rows are asked for, one for each agent where all are valued at
/// once; or at a fan of outcomes, with the rows of all of them.
pub open spec fn settled_end<S, F, N: Scalar>(
    gamma: N,
    reached: Reached,
    m: TreeModel<S, F, N>,
) -> Result<(TreeModel<S, F, N>, Seq<(usize, usize)>), Fault> {
    let node = m.arena[m.leaf as int];
    match reached {
        Reached::Terminal => match counted(m.terminal_sims, 1) {
            Err(f) => Err(f),
            Ok(n) => content(
                spec_backup(
                    gamma,
                    TreeModel { terminal_sims: n, ..m },
                    no_values(m.mode, m.n_agents as nat),
                ),
            ),
        },
        Reached::DepthCapped => match counted(m.depthcap_sims, 1) {
            Err(f) => Err(f),
            Ok(n) => content(leaf_backed_up(gamma, TreeModel { depthcap_sims: n, ..m })),
        },
        Reached::Eval => awaiting_rows(
            m,
            if node.kind is Simultaneous || m.mode == TreeMode::SeqMaxN {
                Some(PendingWork::NodeEval(m.leaf))
            } else {
                None
            },
            rows_at(node, m.leaf),
        ),
        Reached::Fan => match rows_behind(m.arena, node.links, 0, Seq::empty()) {
            Err(f) => Err(f),
            Ok(asks) => if asks.len() == 0 {
                match counted(m.terminal_sims, 1) {
                    Err(f) => Err(f),
                    Ok(n) => content(fan_backed_up(gamma, TreeModel { terminal_sims: n, ..m })),
                }
            } else {
                awaiting_rows(m, Some(PendingWork::Fan), asks)
            },
        },
    }
}

/// The tree after one more simulation, and the rows that it asks for.
#[verifier::opaque]
pub open spec fn spec_simulate<
    N: Scalar,
    G: Game<N>,
    E: StateEncoder<State = G::State>,
    W: Reward<N, Event = G::Event>,
>(
    ctx: Ctx<N, G, E, W>,
    m: TreeModel<G::State, E::Feature, N>,
) -> Result<(TreeModel<G::State, E::Feature, N>, Seq<(usize, usize)>), Fault> {
    match counted(m.sims, 1) {
        Err(f) => Err(f),
        Ok(sims) => match spec_select_expand(ctx, TreeModel { sims, ..m }) {
            Err(f) => Err(f),
            Ok((reached, grown)) => settled_end(ctx.gamma, reached, grown),
        },
    }
}

/// `b` is `a` after one more simulation, which asks for `asks` rows: the simulation is counted,
/// and so is its end, or the rows that it takes beyond the first.
pub open spec fn simulation_counted<S, F, N>(
    a: TreeModel<S, F, N>,
    b: TreeModel<S, F, N>,
    asks: nat,
) -> bool {
    &&& b.sims == a.sims + 1
    &&& b.requester == a.requester
    &&& b.mode == a.mode
    &&& b.n_agents == a.n_agents
    &&& b.shared_rows == a.shared_rows
    &&& b.fresh_rows == a.fresh_rows
    &&& b.hit_rows == a.hit_rows
    &&& b.terminal_sims + b.depthcap_sims - b.extra_eval_rows + asks == a.terminal_sims
        + a.depthcap_sims - a.extra_eval_rows + 1
}

fn list_rows<S, F, N>(node: &Node<S, F, N>, ni: usize, acc: &mut Vec<(usize, usize)>)
    ensures
        final(acc)@ == old(acc)@ + rows_at(node@, ni),
{
    let n = node.rows.len();
    let mut s: usize = 0;
    while s < n
        invariant
            s <= n == node@.rows.len(),
            acc@.len() == old(acc)@.len() + s,
            forall|k: int| 0 <= k < old(acc)@.len() ==> #[trigger] acc@[k] == old(acc)@[k],
            forall|k: int|
                old(acc)@.len() <= k < acc@.len() ==> #[trigger] acc@[k] == (
                    ni,
                    (k - old(acc)@.len()) as usize,
                ),
        decreases n - s,
    {
        acc.push((ni, s));
        s = s + 1;
    }
    assert(acc@ =~= old(acc)@ + rows_at(node@, ni));
}

#[verifier::loop_isolation(false)]
fn list_fan_rows<S, F, N>(t: &Tree<S, F, N>, cni: usize) -> (r: Result<Vec<(usize, usize)>, Fault>)
    requires
        cni < t@.arena.len(),
    ensures
        match r {
            Ok(asks) => rows_behind(
                t@.arena,
                t@.arena[cni as int].links,
                0,
                Seq::empty(),
            ) == Ok::<_, Fault>(asks@),
            Err(f) => rows_behind(
                t@.arena,
                t@.arena[cni as int].links,
                0,
                Seq::empty(),
            ) == Err::<Seq<(usize, usize)>, _>(f),
        },
{
    let ghost arena = t@.arena;
    let ghost links = arena[cni as int].links;
    assert(arena[cni as int] == t.arena@[cni as int]@);
    let ghost goal = rows_behind(arena, links, 0, Seq::empty());
    let mut asks: Vec<(usize, usize)> = Vec::new();
    assert(asks@ =~= Seq::empty());
    let n = t.arena[cni].links.len();
    let mut i: usize = 0;
    while i < n
        invariant
            i <= n == links.len(),
            rows_behind(arena, links, i as nat, asks@) == goal,
        decreases n - i,
    {
        assert(links[i as int] == t.arena@[cni as int].links@[i as int]@);
        match t.arena[cni].links[i].child {
            None => return Err(Fault::Tree),
            Some(c) => {
                if c >= t.arena.len() {
                    return Err(Fault::Tree);
                }
                assert(arena[c as int] == t.arena@[c as int]@);
                if !t.arena[c].terminal {
                    list_rows(&t.arena[c], c, &mut asks);
                }
            },
        }
        i = i + 1;
    }
    Ok(asks)
}

fn await_rows<S, F, N>(
    t: &mut Tree<S, F, N>,
    work: Option<PendingWork>,
    asks: &Vec<(usize, usize)>,
) -> (r: Result<(), Fault>)
    ensures
        match r {
            Ok(_) => awaiting_rows(old(t)@, work, asks@) == Ok::<_, Fault>((final(t)@, asks@)),
            Err(f) => awaiting_rows(old(t)@, work, asks@) == Err::<
                (TreeModel<S, F, N>, Seq<(usize, usize)>),
                _,
            >(f),
        },
{
    if asks.len() == 0 {
        return Err(Fault::Tree);
    }
    let extra = match bump(t.extra_eval_rows, asks.len() - 1) {
        Ok(extra) => extra,
        Err(f) => return Err(f),
    };
    t.extra_eval_rows = extra;
    match work {
        Some(w) => {
            t.pending = Some((w, asks.len()));
        },
        None => {},
    }
    Ok(())
}

fn settle_end<S, F, N: Scalar>(t: &mut Tree<S, F, N>, gamma: N, reached: Reached) -> (r: Result<
    Vec<(usize, usize)>,
    Fault,
>)
    requires
        old(t)@.leaf < old(t)@.arena.len(),
        old(t)@.sims > 0,
    ensures
        match r {
            Ok(asks) => settled_end(gamma, reached, old(t)@) == Ok::<_, Fault>((final(t)@, asks@))
                && simulation_counted(
                TreeModel { sims: (old(t)@.sims - 1) as usize, ..old(t)@ },
                final(t)@,
                asks@.len(),
            ),
            Err(f) => settled_end(gamma, reached, old(t)@) == Err::<
                (TreeModel<S, F, N>, Seq<(usize, usize)>),
                _,
            >(f),
        },
{
    let leaf = t.leaf;
    assert(t@.arena[leaf as int] == t.arena@[leaf as int]@);
    let mut asks: Vec<(usize, usize)> = Vec::new();
    assert(asks@ =~= Seq::empty());
    match reached {
        Reached::Terminal => {
            t.terminal_sims = match bump(t.terminal_sims, 1) {
                Ok(n) => n,
                Err(f) => return Err(f),
            };
            match backup_terminal(t, gamma) {
                Ok(_) => Ok(asks),
                Err(f) => Err(f),
            }
        },
        Reached::DepthCapped => {
            t.depthcap_sims = match bump(t.depthcap_sims, 1) {
                Ok(n) => n,
                Err(f) => return Err(f),
            };
            match backup_leaf_values(t, gamma) {
                Ok(_) => Ok(asks),
                Err(f) => Err(f),
            }
        },
        Reached::Eval => {
            let multi = matches!(&t.arena[leaf].kind, Kind::Simultaneous) || matches!(
                t.mode,
                TreeMode::SeqMaxN
            );
            list_rows(&t.arena[leaf], leaf, &mut asks);
            assert(asks@ =~= rows_at(t@.arena[leaf as int], leaf));
            let work = if multi {
                Some(PendingWork::NodeEval(leaf))
            } else {
                None
            };
            match await_rows(t, work, &asks) {
                Ok(_) => Ok(asks),
                Err(f) => Err(f),
            }
        },
        Reached::Fan => {
            let asks = match list_fan_rows(t, leaf) {
                Ok(asks) => asks,
                Err(f) => return Err(f),
            };
            if asks.len() == 0 {
                assert(asks@ =~= Seq::empty());
                t.terminal_sims = match bump(t.terminal_sims, 1) {
                    Ok(n) => n,
                    Err(f) => return Err(f),
                };
                return match fan_backprop(t, gamma) {
                    Ok(_) => Ok(asks),
                    Err(f) => Err(f),
                };
            }
            match await_rows(t, Some(PendingWork::Fan), &asks) {
                Ok(_) => Ok(asks),
                Err(f) => Err(f),
            }
        },
    }
}

/// Runs one simulation, and lists the rows that it asks for.
pub fn simulate<
    N: Scalar,
    G: Game<N>,
    E: StateEncoder<State = G::State>,
    W: Reward<N, Event = G::Event>,
>(
    t: &mut Tree<G::State, E::Feature, N>,
    ctx: &Ctx<N, G, E, W>,
) -> (r: Result<Vec<(usize, usize)>, Fault>)
    ensures
        match r {
            Ok(asks) => spec_simulate(*ctx, old(t)@) == Ok::<_, Fault>((final(t)@, asks@))
                && simulation_counted(old(t)@, final(t)@, asks@.len()),
            Err(f) => spec_simulate(*ctx, old(t)@) == Err::<
                (TreeModel<G::State, E::Feature, N>, Seq<(usize, usize)>),
                _,
            >(f),
        },
{
    reveal(spec_simulate);
    t.sims = match bump(t.sims, 1) {
        Ok(n) => n,
        Err(f) => return Err(f),
    };
    let reached = match select_expand(t, ctx) {
        Ok(reached) => reached,
        Err(f) => return Err(f),
    };
    settle_end(t, ctx.gamma, reached)
}

} // verus!
