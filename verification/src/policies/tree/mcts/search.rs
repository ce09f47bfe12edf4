//! Pooled searches, from roots to evaluations.

use vstd::prelude::*;

use super::leaves::{new_decision, new_simultaneous};
#[allow(unused_imports)]
use super::leaves::{decision_node, sim_node};
use super::pool::{Batch, Rules};
#[allow(unused_imports)]
use super::pool::{commits, delivered, reaches, stuck, undeliverable, Life};
use super::round::{deliver, stage_tree};
#[allow(unused_imports)]
use super::round::{balanced, resting};
use super::select::Guidance;
use super::tree::{Arm, Kind, Tree, TreeMode};
#[allow(unused_imports)]
use super::tree::{NodeModel, TreeModel};
use crate::encoder::StateEncoder;
use crate::fault::Fault;
use crate::game::{Actor, Game};
use crate::num::Scalar;
use crate::policies::tree::evaluation::SearchEvaluation;
#[allow(unused_imports)]
use crate::policies::tree::evaluation::EvaluationModel;
use crate::policies::tree::expectimax::evaluate::Exp;
use crate::policies::tree::expectimax::tree::SearchStats;
use crate::reward::Reward;
use crate::rng::{GammaSource, SplitMix64, GOLDEN};
#[allow(unused_imports)]
use crate::rng::generator;
#[allow(unused_imports)]
use crate::stats::search_balanced;
use crate::util::filled;
#[allow(unused_imports)]
use crate::util::{matrix, spec_filled, viewed};

verus! {

/// How a search that starts at a decision backs up.
pub open spec fn root_mode(sequential: bool, n: nat, force_maxn: bool) -> TreeMode {
    if !sequential {
        TreeMode::Sim
    } else if n > 2 || (force_maxn && n == 2) {
        TreeMode::SeqMaxN
    } else {
        TreeMode::SeqNegamax
    }
}

/// A tree of one node.
pub open spec fn planted<S, F, N>(
    root: NodeModel<S, F, N>,
    mode: TreeMode,
    n_agents: usize,
    requester: usize,
    rng: SplitMix64,
) -> TreeModel<S, F, N> {
    TreeModel {
        arena: seq![root],
        sims: 0,
        path: Seq::empty(),
        leaf: 0,
        requester,
        mode,
        n_agents,
        max_depth_seen: 0,
        rng,
        pending: None,
        terminal_sims: 0,
        depthcap_sims: 0,
        shared_rows: 0,
        fresh_rows: 0,
        hit_rows: 0,
        extra_eval_rows: 0,
        pend_seed: Seq::empty(),
    }
}

/// The tree of a request, before its first simulation. Its root is a decision: chance is settled
/// before any policy sees a state.
pub open spec fn rooted_tree<N: Scalar, G: Game<N>, E: StateEncoder<State = G::State>>(
    game: G,
    enc: E,
    state: G::State,
    requester: usize,
    chance_seed: u64,
    force_maxn: bool,
) -> Result<TreeModel<G::State, E::Feature, N>, Fault> {
    let n = game.spec_num_agents();
    match game.spec_actor(state) {
        Actor::Agent(actor) => {
            let mode = root_mode(true, n as nat, force_maxn);
            Ok(
                planted(
                    decision_node(game, enc, state, actor, 0, mode),
                    mode,
                    n,
                    requester,
                    generator(chance_seed),
                ),
            )
        },
        Actor::Simultaneous => match sim_node(game, enc, state, 0) {
            Err(f) => Err(f),
            Ok(root) => Ok(planted(root, TreeMode::Sim, n, requester, generator(chance_seed))),
        },
        Actor::Chance => Err(Fault::ChanceRoot),
    }
}

fn new_tree<N: Scalar, G: Game<N>, E: StateEncoder<State = G::State>>(
    game: &G,
    enc: &E,
    state: G::State,
    requester: usize,
    chance_seed: u64,
    force_maxn: bool,
) -> (r: Result<Tree<G::State, E::Feature, N>, Fault>)
    ensures
        viewed(r) == rooted_tree(*game, *enc, state, requester, chance_seed, force_maxn),
{
    let n = game.num_agents();
    let (root, mode) = match game.actor(&state) {
        Actor::Agent(actor) => {
            let mode = if n > 2 || (force_maxn && n == 2) {
                TreeMode::SeqMaxN
            } else {
                TreeMode::SeqNegamax
            };
            (new_decision(game, enc, state, actor, 0, mode), mode)
        },
        Actor::Simultaneous => match new_simultaneous(game, enc, state, 0) {
            Ok(root) => (root, TreeMode::Sim),
            Err(f) => return Err(f),
        },
        Actor::Chance => return Err(Fault::ChanceRoot),
    };
    let ghost model = root@;
    let mut arena = Vec::new();
    arena.push(root);
    let t = Tree {
        arena,
        sims: 0,
        path: Vec::new(),
        leaf: 0,
        requester,
        mode,
        n_agents: n,
        max_depth_seen: 0,
        rng: SplitMix64::new(chance_seed),
        pending: None,
        terminal_sims: 0,
        depthcap_sims: 0,
        shared_rows: 0,
        fresh_rows: 0,
        hit_rows: 0,
        extra_eval_rows: 0,
        pend_seed: Vec::new(),
    };
    assert(t@.arena =~= seq![model]);
    assert(t@.path =~= Seq::empty());
    assert(t@.pend_seed =~= Seq::empty());
    Ok(t)
}

/// Where the chance draws of tree `ti` come from: a stream of its own for each tree.
pub open spec fn chance_stream(seed: u64, ti: usize) -> u64 {
    seed ^ 0x53A3_C5A9_1D87_2F6B ^ vstd::wrapping::u64_specs::wrapping_mul(ti as u64, GOLDEN)
}

/// Values and visits by action, from the arms of a table.
pub open spec fn tallied<N: Scalar>(
    arms: Seq<Arm<N>>,
    i: nat,
    values: Seq<N>,
    visits: Seq<N>,
) -> Result<(Seq<N>, Seq<N>), Fault>
    decreases arms.len() - i,
{
    if i >= arms.len() {
        Ok((values, visits))
    } else {
        let arm = arms[i as int];
        let n = N::spec_count(arm.visits as u64);
        if arm.action >= values.len() {
            Err(Fault::ActionRange)
        } else {
            tallied(
                arms,
                i + 1,
                if arm.visits > 0 {
                    values.update(arm.action as int, arm.value_sum.spec_over(n))
                } else {
                    values
                },
                visits.update(arm.action as int, n),
            )
        }
    }
}

/// The table that speaks for a request.
pub open spec fn asked_table<S, F, N>(m: TreeModel<S, F, N>) -> nat {
    if m.arena[0].kind is Simultaneous {
        m.requester as nat
    } else {
        0
    }
}

/// What a finished tree says of its root.
pub open spec fn evaluated_as<S, F, N: Scalar>(m: TreeModel<S, F, N>, actions: usize) -> Result<
    EvaluationModel<N>,
    Fault,
> {
    if m.arena.len() == 0 || asked_table(m) >= m.arena[0].tables.len() {
        Err(Fault::AgentRange)
    } else {
        let arms = m.arena[0].tables[asked_table(m) as int].arms;
        let blank = spec_filled(N::spec_zero(), actions as nat);
        match tallied(arms, 0, blank, blank) {
            Err(f) => Err(f),
            Ok((values, visits)) => Ok(
                EvaluationModel {
                    values: seq![values],
                    visits,
                    legal: arms.map_values(|a: Arm<N>| a.action),
                    stats: SearchStats {
                        max_depth: m.max_depth_seen,
                        expansions: m.sims,
                        leaves: m.sims,
                        rounds: m.sims,
                        sigma_sum: N::spec_zero(),
                        terminal_sims: m.terminal_sims,
                        depthcap_sims: m.depthcap_sims,
                        shared_rows: m.shared_rows,
                        fresh_rows: m.fresh_rows,
                        hit_rows: m.hit_rows,
                        extra_eval_rows: m.extra_eval_rows,
                    },
                },
            ),
        }
    }
}

proof fn lemma_tallied_elsewhere<N: Scalar>(
    arms: Seq<Arm<N>>,
    i: nat,
    values: Seq<N>,
    visits: Seq<N>,
    a: int,
)
    requires
        0 <= a < values.len() == visits.len(),
        forall|k: int| i <= k < arms.len() ==> (#[trigger] arms[k]).action != a,
    ensures
        tallied(arms, i, values, visits) matches Ok((v, n)) ==> {
            &&& v.len() == n.len() == values.len()
            &&& v[a] == values[a]
            &&& n[a] == visits[a]
        },
    decreases arms.len() - i,
{
    if i < arms.len() {
        let arm = arms[i as int];
        let n = N::spec_count(arm.visits as u64);
        if arm.action < values.len() {
            lemma_tallied_elsewhere(
                arms,
                i + 1,
                if arm.visits > 0 {
                    values.update(arm.action as int, arm.value_sum.spec_over(n))
                } else {
                    values
                },
                visits.update(arm.action as int, n),
                a,
            );
        }
    }
}

/// An action that is not legal at the root has neither value nor visits.
pub proof fn law_illegal_actions_are_blank<S, F, N: Scalar>(
    m: TreeModel<S, F, N>,
    actions: usize,
    e: EvaluationModel<N>,
    a: int,
)
    requires
        evaluated_as(m, actions) == Ok::<_, Fault>(e),
        0 <= a < actions,
        !e.legal.contains(a as usize),
    ensures
        e.values.len() == 1,
        e.values[0][a] == N::spec_zero(),
        e.visits[a] == N::spec_zero(),
{
    let arms = m.arena[0].tables[asked_table(m) as int].arms;
    let blank = spec_filled(N::spec_zero(), actions as nat);
    assert forall|k: int| 0 <= k < arms.len() implies (#[trigger] arms[k]).action != a by {
        assert(e.legal[k] == arms[k].action);
    }
    lemma_tallied_elsewhere(arms, 0, blank, blank, a);
}

/// Reads a finished tree.
#[verifier::loop_isolation(false)]
pub fn evaluation<S, F, N: Scalar>(t: &Tree<S, F, N>, actions: usize) -> (r: Result<
    SearchEvaluation<N>,
    Fault,
>)
    ensures
        viewed(r) == evaluated_as(t@, actions),
{
    if t.arena.len() == 0 {
        return Err(Fault::AgentRange);
    }
    assert(t@.arena[0] == t.arena@[0]@);
    let at = if matches!(&t.arena[0].kind, Kind::Simultaneous) {
        t.requester
    } else {
        0
    };
    if at >= t.arena[0].tables.len() {
        return Err(Fault::AgentRange);
    }
    assert(t@.arena[0].tables[at as int] == t.arena@[0].tables@[at as int]@);
    let arms = &t.arena[0].tables[at].arms;
    let mut row = filled(N::zero(), actions);
    let mut visits = filled(N::zero(), actions);
    let mut legal: Vec<usize> = Vec::new();
    let ghost goal = tallied(arms@, 0, row@, visits@);
    let mut i: usize = 0;
    while i < arms.len()
        invariant
            i <= arms@.len(),
            row@.len() == actions,
            visits@.len() == actions,
            tallied(arms@, i as nat, row@, visits@) == goal,
            legal@.len() == i,
            forall|k: int| 0 <= k < i ==> #[trigger] legal@[k] == arms@[k].action,
        decreases arms@.len() - i,
    {
        let arm = arms[i];
        let n = N::count(arm.visits as u64);
        if arm.action >= actions {
            return Err(Fault::ActionRange);
        }
        if arm.visits > 0 {
            row.set(arm.action, arm.value_sum.over(n));
        }
        visits.set(arm.action, n);
        legal.push(arm.action);
        i = i + 1;
    }
    assert(legal@ =~= arms@.map_values(|a: Arm<N>| a.action));
    let ghost shown = row@;
    let mut values: Vec<Vec<N>> = Vec::new();
    values.push(row);
    assert(matrix(values@) =~= seq![shown]);
    Ok(
        SearchEvaluation {
            values,
            visits,
            legal,
            stats: SearchStats {
                max_depth: t.max_depth_seen,
                expansions: t.sims,
                leaves: t.sims,
                rounds: t.sims,
                sigma_sum: N::zero(),
                terminal_sims: t.terminal_sims,
                depthcap_sims: t.depthcap_sims,
                shared_rows: t.shared_rows,
                fresh_rows: t.fresh_rows,
                hit_rows: t.hit_rows,
                extra_eval_rows: t.extra_eval_rows,
            },
        },
    )
}

/// A pooled search whose round loop is owned by the caller: [`PooledSearch::stage_round`] drives
/// every tree until it stages rows, or finishes; the caller commits the batch however it likes; and
/// [`PooledSearch::apply_rows`] distributes the results. Schedulers can interleave rounds of
/// several pools.
pub struct PooledSearch<
    'c,
    N: Scalar,
    G: Game<N>,
    E: StateEncoder<State = G::State>,
    W: Reward<N, Event = G::Event>,
    X: Exp<N>,
    M: GammaSource<N, SplitMix64>,
> {
    pub rules: Rules<'c, N, G, E, W, X, M>,
    pub trees: Vec<Tree<G::State, E::Feature, N>>,
    /// The rows staged for each tree, as ticket, node and row.
    pub due: Vec<Vec<(usize, usize, usize)>>,
    pub tickets: usize,
    pub awaiting: bool,
}

/// The start of request `ti`.
pub open spec fn request_tree<N: Scalar, G: Game<N>, E: StateEncoder<State = G::State>>(
    game: G,
    enc: E,
    requests: Seq<(G::State, usize)>,
    ti: int,
    seed: u64,
    force_maxn: bool,
) -> Result<TreeModel<G::State, E::Feature, N>, Fault> {
    rooted_tree(
        game,
        enc,
        requests[ti].0,
        requests[ti].1,
        chance_stream(seed, ti as usize),
        force_maxn,
    )
}

/// Request `ti` is the first that has no tree, for the reason `f`.
pub open spec fn first_rootless<N: Scalar, G: Game<N>, E: StateEncoder<State = G::State>>(
    game: G,
    enc: E,
    requests: Seq<(G::State, usize)>,
    ti: int,
    seed: u64,
    force_maxn: bool,
    f: Fault,
) -> bool {
    &&& 0 <= ti < requests.len()
    &&& request_tree::<N, G, E>(game, enc, requests, ti, seed, force_maxn) == Err::<
        TreeModel<G::State, E::Feature, N>,
        _,
    >(f)
    &&& forall|k: int|
        0 <= k < ti ==> (#[trigger] request_tree::<N, G, E>(
            game,
            enc,
            requests,
            k,
            seed,
            force_maxn,
        )) is Ok
}

/// Every request has a tree.
pub open spec fn all_rooted<N: Scalar, G: Game<N>, E: StateEncoder<State = G::State>>(
    game: G,
    enc: E,
    requests: Seq<(G::State, usize)>,
    seed: u64,
    force_maxn: bool,
) -> bool {
    forall|k: int|
        0 <= k < requests.len() ==> (#[trigger] request_tree::<N, G, E>(
            game,
            enc,
            requests,
            k,
            seed,
            force_maxn,
        )) is Ok
}

/// Some request is for a tree that backs up every agent's value.
pub open spec fn some_maxn<N: Scalar, G: Game<N>, E: StateEncoder<State = G::State>>(
    game: G,
    enc: E,
    requests: Seq<(G::State, usize)>,
    seed: u64,
    force_maxn: bool,
) -> bool {
    exists|k: int|
        0 <= k < requests.len() && ((#[trigger] request_tree::<N, G, E>(
            game,
            enc,
            requests,
            k,
            seed,
            force_maxn,
        )) matches Ok(m) && m.mode == TreeMode::SeqMaxN)
}

/// Why requests cannot be pooled: the game has no agents; it hides information, on which search
/// would be clairvoyant; a root has no tree; or UCT is asked to value agents who do not move, which
/// its action values cannot.
pub open spec fn unpoolable<N: Scalar, G: Game<N>, E: StateEncoder<State = G::State>>(
    game: G,
    enc: E,
    guidance: Guidance<N>,
    requests: Seq<(G::State, usize)>,
    seed: u64,
    force_maxn: bool,
    f: Fault,
) -> bool {
    if game.spec_num_agents() == 0 {
        f == Fault::NoAgents
    } else if !game.spec_perfect_information() {
        f == Fault::HiddenInformation
    } else if !all_rooted::<N, G, E>(game, enc, requests, seed, force_maxn) {
        exists|ti: int| #[trigger]
            first_rootless::<N, G, E>(game, enc, requests, ti, seed, force_maxn, f)
    } else {
        guidance is Uct && some_maxn::<N, G, E>(game, enc, requests, seed, force_maxn) && f
            == Fault::UctAgents
    }
}

/// Requests can be pooled.
pub open spec fn poolable<N: Scalar, G: Game<N>, E: StateEncoder<State = G::State>>(
    game: G,
    enc: E,
    guidance: Guidance<N>,
    requests: Seq<(G::State, usize)>,
    seed: u64,
    force_maxn: bool,
) -> bool {
    &&& game.spec_num_agents() > 0
    &&& game.spec_perfect_information()
    &&& all_rooted::<N, G, E>(game, enc, requests, seed, force_maxn)
    &&& !(guidance is Uct && some_maxn::<N, G, E>(game, enc, requests, seed, force_maxn))
}

#[verifier::loop_isolation(false)]
fn plant<N: Scalar, G: Game<N>, E: StateEncoder<State = G::State>>(
    game: &G,
    enc: &E,
    uct: bool,
    requests: Vec<(G::State, usize)>,
    seed: u64,
    force_maxn: bool,
) -> (r: Result<Vec<Tree<G::State, E::Feature, N>>, Fault>)
    ensures
        match r {
            Ok(trees) => {
                &&& trees@.len() == requests@.len()
                &&& forall|k: int|
                    0 <= k < requests@.len() ==> request_tree::<N, G, E>(
                        *game,
                        *enc,
                        requests@,
                        k,
                        seed,
                        force_maxn,
                    ) == Ok::<_, Fault>((#[trigger] trees@[k])@)
                &&& !(uct && some_maxn::<N, G, E>(*game, *enc, requests@, seed, force_maxn))
            },
            Err(f) => {
                ||| exists|ti: int| #[trigger]
                    first_rootless::<N, G, E>(*game, *enc, requests@, ti, seed, force_maxn, f)
                ||| all_rooted::<N, G, E>(*game, *enc, requests@, seed, force_maxn) && uct
                    && some_maxn::<N, G, E>(*game, *enc, requests@, seed, force_maxn) && f
                    == Fault::UctAgents
            },
        },
{
    let ghost all = requests@;
    let n = requests.len();
    let mut trees: Vec<Tree<G::State, E::Feature, N>> = Vec::new();
    let mut maxn = false;
    let mut ti: usize = 0;
    for request in it: requests
        invariant
            it.seq() == all,
            all.len() == n,
            ti == it.index(),
            trees@.len() == ti,
            forall|k: int|
                0 <= k < ti ==> request_tree::<N, G, E>(*game, *enc, all, k, seed, force_maxn)
                    == Ok::<_, Fault>((#[trigger] trees@[k])@),
            maxn == exists|k: int| 0 <= k < ti && (#[trigger] trees@[k])@.mode == TreeMode::SeqMaxN,
    {
        let (state, agent) = request;
        let chance_seed = seed ^ 0x53A3_C5A9_1D87_2F6B ^ (ti as u64).wrapping_mul(GOLDEN);
        match new_tree(game, enc, state, agent, chance_seed, force_maxn) {
            Err(f) => {
                assert forall|k: int| 0 <= k < ti implies (#[trigger] request_tree::<N, G, E>(
                    *game,
                    *enc,
                    all,
                    k,
                    seed,
                    force_maxn,
                )) is Ok by {
                    assert(trees@[k]@ == trees@[k]@);
                }
                assert(first_rootless::<N, G, E>(
                    *game,
                    *enc,
                    all,
                    ti as int,
                    seed,
                    force_maxn,
                    f,
                ));
                return Err(f);
            },
            Ok(tree) => {
                let mode = tree.mode;
                let ghost before = trees@;
                trees.push(tree);
                assert forall|k: int| 0 <= k < ti implies #[trigger] trees@[k] == before[k] by {}
                if matches!(mode, TreeMode::SeqMaxN) {
                    assert(trees@[ti as int]@.mode == TreeMode::SeqMaxN);
                    maxn = true;
                }
                proof {
                    if exists|k: int|
                        0 <= k < ti + 1 && (#[trigger] trees@[k])@.mode == TreeMode::SeqMaxN {
                        let k = choose|k: int|
                            0 <= k < ti + 1 && (#[trigger] trees@[k])@.mode == TreeMode::SeqMaxN;
                        if k < ti {
                            assert(before[k]@.mode == TreeMode::SeqMaxN);
                        }
                    }
                    if exists|k: int| 0 <= k < ti && (#[trigger] before[k])@.mode
                        == TreeMode::SeqMaxN {
                        let k = choose|k: int|
                            0 <= k < ti && (#[trigger] before[k])@.mode == TreeMode::SeqMaxN;
                        assert(trees@[k]@.mode == TreeMode::SeqMaxN);
                    }
                }
            },
        }
        ti = ti + 1;
    }
    assert forall|k: int| 0 <= k < all.len() implies (#[trigger] request_tree::<N, G, E>(
        *game,
        *enc,
        all,
        k,
        seed,
        force_maxn,
    )) == Ok::<_, Fault>(trees@[k]@) by {}
    assert(maxn == some_maxn::<N, G, E>(*game, *enc, all, seed, force_maxn)) by {
        if maxn {
            let k = choose|k: int|
                0 <= k < ti && (#[trigger] trees@[k])@.mode == TreeMode::SeqMaxN;
            assert(request_tree::<N, G, E>(*game, *enc, all, k, seed, force_maxn) is Ok);
        }
        if some_maxn::<N, G, E>(*game, *enc, all, seed, force_maxn) {
            let k = choose|k: int|
                0 <= k < all.len() && ((#[trigger] request_tree::<N, G, E>(
                    *game,
                    *enc,
                    all,
                    k,
                    seed,
                    force_maxn,
                )) matches Ok(m) && m.mode == TreeMode::SeqMaxN);
            assert(trees@[k]@.mode == TreeMode::SeqMaxN);
        }
    }
    if uct && maxn {
        return Err(Fault::UctAgents);
    }
    Ok(trees)
}

/// How many simulations the trees from the `i`-th on have still to run.
pub open spec fn unspent<S, F, N>(trees: Seq<Tree<S, F, N>>, num: usize, i: nat) -> int
    decreases trees.len() - i,
{
    if i >= trees.len() {
        0
    } else {
        (num - trees[i as int]@.sims) + unspent(trees, num, i + 1)
    }
}

proof fn lemma_spent<S, F, N>(
    a: Seq<Tree<S, F, N>>,
    b: Seq<Tree<S, F, N>>,
    num: usize,
    i: nat,
)
    requires
        a.len() == b.len(),
        forall|k: int|
            0 <= k < a.len() ==> (#[trigger] a[k])@.sims <= b[k]@.sims && b[k]@.sims <= num,
    ensures
        0 <= unspent(b, num, i) <= unspent(a, num, i),
        (exists|k: int| i <= k < a.len() && (#[trigger] a[k])@.sims < b[k]@.sims) ==> unspent(
            b,
            num,
            i,
        ) < unspent(a, num, i),
    decreases a.len() - i,
{
    if i < a.len() {
        lemma_spent(a, b, num, i + 1);
        assert(a[i as int]@.sims <= b[i as int]@.sims);
    }
}

/// The trees of a pool as mathematical values.
pub open spec fn forest<S, F, N>(trees: Seq<Tree<S, F, N>>) -> Seq<TreeModel<S, F, N>> {
    Seq::new(trees.len(), |ti: int| trees[ti]@)
}

/// Tree `ti` as its turns in a round begin, after those of the trees before it have ended in
/// `lives`: the round's first ticket is 0, and each tree gets the batch that the one before left.
pub open spec fn entry<S, F, N, B>(
    trees: Seq<TreeModel<S, F, N>>,
    batch: B,
    lives: Seq<Life<S, F, N, B>>,
    ti: int,
) -> Life<S, F, N, B> {
    resting(trees[ti], Seq::empty(), tickets_after(lives, ti), batch_after(batch, lives, ti))
}

/// How many tickets the first `n` trees were given.
pub open spec fn tickets_after<S, F, N, B>(lives: Seq<Life<S, F, N, B>>, n: int) -> usize {
    if n <= 0 {
        0
    } else {
        lives[n - 1].tickets
    }
}

/// The batch as the first `n` trees left it.
pub open spec fn batch_after<S, F, N, B>(batch: B, lives: Seq<Life<S, F, N, B>>, n: int) -> B {
    if n <= 0 {
        batch
    } else {
        lives[n - 1].batch
    }
}

/// Tree `ti` has taken its turns in a round: it waits for rows, or has run all its simulations.
pub open spec fn staged_at<
    N: Scalar,
    G: Game<N>,
    E: StateEncoder<State = G::State>,
    W: Reward<N, Event = G::Event>,
    X: Exp<N>,
    M: GammaSource<N, SplitMix64>,
    B: Batch<E::Feature, N>,
>(
    rules: Rules<N, G, E, W, X, M>,
    trees: Seq<TreeModel<G::State, E::Feature, N>>,
    batch: B,
    lives: Seq<Life<G::State, E::Feature, N, B>>,
    ti: int,
) -> bool {
    &&& reaches(rules, ti as usize, entry(trees, batch, lives, ti), lives[ti])
    &&& lives[ti].asks.len() == 0
    &&& lives[ti].due.len() > 0 || lives[ti].m.sims == rules.num_simulations
}

/// The first trees of a pool have taken their turns in a round, one after the other.
pub open spec fn staged_trees<
    N: Scalar,
    G: Game<N>,
    E: StateEncoder<State = G::State>,
    W: Reward<N, Event = G::Event>,
    X: Exp<N>,
    M: GammaSource<N, SplitMix64>,
    B: Batch<E::Feature, N>,
>(
    rules: Rules<N, G, E, W, X, M>,
    trees: Seq<TreeModel<G::State, E::Feature, N>>,
    batch: B,
    lives: Seq<Life<G::State, E::Feature, N, B>>,
) -> bool {
    forall|ti: int|
        0 <= ti < lives.len() ==> #[trigger] staged_at(rules, trees, batch, lives, ti)
}

/// Why a round cannot be staged: the trees before it have taken their turns, and a tree cannot go
/// on.
pub open spec fn unstageable<
    N: Scalar,
    G: Game<N>,
    E: StateEncoder<State = G::State>,
    W: Reward<N, Event = G::Event>,
    X: Exp<N>,
    M: GammaSource<N, SplitMix64>,
    B: Batch<E::Feature, N>,
>(
    rules: Rules<N, G, E, W, X, M>,
    trees: Seq<TreeModel<G::State, E::Feature, N>>,
    batch: B,
    f: Fault,
) -> bool {
    exists|lives: Seq<Life<G::State, E::Feature, N, B>>, life: Life<G::State, E::Feature, N, B>|
        #![trigger staged_trees(rules, trees, batch, lives), stuck(rules, lives.len() as usize, life, f)]
        {
            &&& lives.len() < trees.len()
            &&& staged_trees(rules, trees, batch, lives)
            &&& reaches(
                rules,
                lives.len() as usize,
                entry(trees, batch, lives, lives.len() as int),
                life,
            )
            &&& stuck(rules, lives.len() as usize, life, f)
        }
}

impl<
    'c,
    N: Scalar,
    G: Game<N>,
    E: StateEncoder<State = G::State>,
    W: Reward<N, Event = G::Event>,
    X: Exp<N>,
    M: GammaSource<N, SplitMix64>,
> PooledSearch<'c, N, G, E, W, X, M> {
    /// Every tree's accounts are in order, and rows are due only while a round is outstanding.
    pub open spec fn wf(self) -> bool {
        &&& self.due@.len() == self.trees@.len()
        &&& forall|ti: int|
            0 <= ti < self.trees@.len() ==> {
                &&& balanced((#[trigger] self.trees@[ti])@, 0)
                &&& self.trees@[ti]@.sims <= self.rules.num_simulations
            }
        &&& !self.awaiting ==> forall|ti: int|
            0 <= ti < self.due@.len() ==> (#[trigger] self.due@[ti])@.len() == 0
    }

    /// The pool holds trees whose turns in a round ended in `lives`.
    pub open spec fn holds<B>(self, lives: Seq<Life<G::State, E::Feature, N, B>>) -> bool {
        &&& lives.len() == self.trees@.len() == self.due@.len()
        &&& forall|ti: int|
            #![trigger lives[ti]]
            #![trigger self.trees@[ti]]
            0 <= ti < lives.len() ==> lives[ti].m == self.trees@[ti]@ && lives[ti].due
                == self.due@[ti]@
        &&& self.tickets == tickets_after(lives, lives.len() as int)
    }

    /// The pool holds `trees` after their turns in a round, which began with `batch` and left
    /// `after`.
    pub open spec fn staged_from<B: Batch<E::Feature, N>>(
        self,
        trees: Seq<TreeModel<G::State, E::Feature, N>>,
        batch: B,
        after: B,
    ) -> bool {
        exists|lives: Seq<Life<G::State, E::Feature, N, B>>| #[trigger]
            self.holds(lives) && staged_trees(self.rules, trees, batch, lives) && after
                == batch_after(batch, lives, lives.len() as int)
    }

    /// Every tree has run all its simulations, and no round is outstanding.
    pub open spec fn spec_finished(self) -> bool {
        !self.awaiting && forall|ti: int|
            0 <= ti < self.trees@.len() ==> (#[trigger] self.trees@[ti])@.sims
                >= self.rules.num_simulations
    }

    /// A pool of one tree for each request, a state and the agent that asks.
    pub fn new(
        rules: Rules<'c, N, G, E, W, X, M>,
        seed: u64,
        requests: Vec<(G::State, usize)>,
        force_maxn: bool,
    ) -> (r: Result<Self, Fault>)
        ensures
            match r {
                Ok(pool) => {
                    &&& poolable(
                        *rules.ctx.game,
                        *rules.ctx.enc,
                        rules.ctx.guidance,
                        requests@,
                        seed,
                        force_maxn,
                    )
                    &&& pool.wf()
                    &&& !pool.awaiting
                    &&& pool.rules == rules
                    &&& pool.trees@.len() == requests@.len()
                    &&& forall|k: int|
                        0 <= k < requests@.len() ==> request_tree::<N, G, E>(
                            *rules.ctx.game,
                            *rules.ctx.enc,
                            requests@,
                            k,
                            seed,
                            force_maxn,
                        ) == Ok::<_, Fault>((#[trigger] pool.trees@[k])@)
                },
                Err(f) => unpoolable(
                    *rules.ctx.game,
                    *rules.ctx.enc,
                    rules.ctx.guidance,
                    requests@,
                    seed,
                    force_maxn,
                    f,
                ),
            },
    {
        if rules.ctx.game.num_agents() == 0 {
            return Err(Fault::NoAgents);
        }
        if !rules.ctx.game.perfect_information() {
            return Err(Fault::HiddenInformation);
        }
        let ghost all = requests@;
        let n = requests.len();
        let uct = matches!(&rules.ctx.guidance, Guidance::Uct { .. });
        let trees = match plant(rules.ctx.game, rules.ctx.enc, uct, requests, seed, force_maxn) {
            Ok(trees) => trees,
            Err(f) => return Err(f),
        };
        assert forall|k: int| 0 <= k < all.len() implies (#[trigger] request_tree::<N, G, E>(
            *rules.ctx.game,
            *rules.ctx.enc,
            all,
            k,
            seed,
            force_maxn,
        )) is Ok by {
            assert(trees@[k]@ == trees@[k]@);
        }
        let mut due: Vec<Vec<(usize, usize, usize)>> = Vec::new();
        let mut i: usize = 0;
        while i < n
            invariant
                i <= n,
                due@.len() == i,
                forall|k: int| 0 <= k < i ==> (#[trigger] due@[k])@.len() == 0,
            decreases n - i,
        {
            due.push(Vec::new());
            i = i + 1;
        }
        Ok(PooledSearch { rules, trees, due, tickets: 0, awaiting: false })
    }

    pub fn finished(&self) -> (r: bool)
        ensures
            r == self.spec_finished(),
    {
        if self.awaiting {
            return false;
        }
        let mut i: usize = 0;
        while i < self.trees.len()
            invariant
                i <= self.trees@.len(),
                forall|k: int|
                    0 <= k < i ==> (#[trigger] self.trees@[k])@.sims >= self.rules.num_simulations,
            decreases self.trees@.len() - i,
        {
            if self.trees[i].sims < self.rules.num_simulations {
                assert(self.trees@[i as int]@.sims < self.rules.num_simulations);
                return false;
            }
            i = i + 1;
        }
        true
    }

    /// Drives every unfinished tree until it stages rows into `batch` or completes its budget.
    /// Rounds alternate strictly: every round staged is answered by
    /// [`PooledSearch::apply_rows`] before the next, and the batch must be fresh, since tickets are
    /// numbered from the round's start.
    #[verifier::loop_isolation(false)]
    pub fn stage_round<B: Batch<E::Feature, N>>(&mut self, batch: B) -> (r: (Result<(), Fault>, B))
        requires
            old(self).wf(),
        ensures
            match r.0 {
                Ok(_) => {
                    &&& !old(self).awaiting
                    &&& call_ensures(B::is_empty, (&batch,), true)
                    &&& final(self).wf()
                    &&& final(self).awaiting
                    &&& final(self).rules == old(self).rules
                    &&& final(self).trees@.len() == old(self).trees@.len()
                    &&& final(self).staged_from(forest(old(self).trees@), batch, r.1)
                    &&& forall|ti: int|
                        #![trigger final(self).trees@[ti]]
                        0 <= ti < old(self).trees@.len() ==> {
                            &&& final(self).trees@[ti]@.sims >= old(self).trees@[ti]@.sims
                            &&& old(self).trees@[ti]@.sims < old(self).rules.num_simulations
                                ==> final(self).trees@[ti]@.sims > old(self).trees@[ti]@.sims
                        }
                },
                Err(f) => {
                    ||| old(self).awaiting && f == Fault::RoundOrder
                    ||| !old(self).awaiting && call_ensures(B::is_empty, (&batch,), false) && f
                        == Fault::BatchInUse
                    ||| !old(self).awaiting && call_ensures(B::is_empty, (&batch,), true)
                        && unstageable(old(self).rules, forest(old(self).trees@), batch, f)
                },
            },
    {
        let ghost starts = forest(self.trees@);
        if self.awaiting {
            return (Err(Fault::RoundOrder), batch);
        }
        if !batch.is_empty() {
            return (Err(Fault::BatchInUse), batch);
        }
        let n = self.trees.len();
        let mut current = batch;
        let ghost mut lives: Seq<Life<G::State, E::Feature, N, B>> = Seq::empty();
        self.tickets = 0;
        let mut ti: usize = 0;
        while ti < n
            invariant
                ti <= n == self.trees@.len() == self.due@.len() == old(self).trees@.len(),
                self.rules == old(self).rules,
                !self.awaiting,
                lives.len() == ti,
                staged_trees(self.rules, starts, batch, lives),
                self.tickets == tickets_after(lives, ti as int),
                current == batch_after(batch, lives, ti as int),
                forall|k: int|
                    ti <= k < n ==> #[trigger] self.trees@[k] == old(self).trees@[k]
                        && self.due@[k] == old(self).due@[k],
                forall|k: int|
                    0 <= k < ti ==> {
                        &&& lives[k].m == (#[trigger] self.trees@[k])@
                        &&& lives[k].due == self.due@[k]@
                        &&& balanced(self.trees@[k]@, 0)
                        &&& self.trees@[k]@.sims <= self.rules.num_simulations
                        &&& self.trees@[k]@.sims >= old(self).trees@[k]@.sims
                        &&& old(self).trees@[k]@.sims < self.rules.num_simulations
                            ==> self.trees@[k]@.sims > old(self).trees@[k]@.sims
                    },
            decreases n - ti,
        {
            let ghost before_trees = self.trees@;
            let ghost before_due = self.due@;
            let tickets = self.tickets;
            assert(self.trees@[ti as int] == old(self).trees@[ti as int]);
            assert(old(self).due@[ti as int]@ =~= Seq::empty());
            assert(entry(starts, batch, lives, ti as int) == resting(
                self.trees@[ti as int]@,
                self.due@[ti as int]@,
                tickets,
                current,
            ));
            let (outcome, next) = stage_tree(
                &mut self.trees[ti],
                &mut self.due[ti],
                &self.rules,
                ti,
                tickets,
                current,
            );
            current = next;
            match outcome {
                Err(f) => {
                    proof {
                        let life = choose|life: Life<G::State, E::Feature, N, B>|
                            reaches(self.rules, ti, entry(starts, batch, lives, ti as int), life)
                                && #[trigger] stuck(self.rules, ti, life, f);
                        assert(stuck(self.rules, lives.len() as usize, life, f));
                        assert(unstageable(self.rules, starts, batch, f));
                    }
                    return (Err(f), current);
                },
                Ok(after) => {
                    self.tickets = after;
                    proof {
                        let held = lives;
                        lives = lives.push(
                            resting(
                                self.trees@[ti as int]@,
                                self.due@[ti as int]@,
                                after,
                                current,
                            ),
                        );
                        assert forall|k: int| 0 <= k < lives.len() implies #[trigger] staged_at(
                            self.rules,
                            starts,
                            batch,
                            lives,
                            k,
                        ) by {
                            assert(entry(starts, batch, lives, k) == entry(starts, batch, held, k));
                            if k < ti {
                                assert(staged_at(self.rules, starts, batch, held, k));
                            }
                        }
                    }
                },
            }
            assert forall|k: int| ti < k < n implies #[trigger] self.trees@[k] == old(self).trees@[k]
                && self.due@[k] == old(self).due@[k] by {
                assert(self.trees@[k] == before_trees[k]);
                assert(self.due@[k] == before_due[k]);
            }
            assert forall|k: int| 0 <= k < ti implies #[trigger] self.trees@[k] == before_trees[k]
                && self.due@[k] == before_due[k] by {}
            ti = ti + 1;
        }
        self.awaiting = true;
        assert(self.holds(lives));
        (Ok(()), current)
    }

    /// Distributes one committed round to every tree that staged rows in it.
    #[verifier::loop_isolation(false)]
    pub fn apply_rows(&mut self, rows: &Vec<Vec<N>>) -> (r: Result<(), Fault>)
        requires
            old(self).wf(),
        ensures
            match r {
                Ok(_) => {
                    &&& old(self).awaiting
                    &&& final(self).wf()
                    &&& !final(self).awaiting
                    &&& final(self).rules == old(self).rules
                    &&& final(self).trees@.len() == old(self).trees@.len()
                    &&& forall|ti: int|
                        #![trigger final(self).trees@[ti]]
                        0 <= ti < old(self).trees@.len() ==> {
                            &&& delivered(
                                old(self).rules,
                                ti as usize,
                                old(self).trees@[ti]@,
                                old(self).due@[ti]@,
                                matrix(rows@),
                                final(self).trees@[ti]@,
                            )
                            &&& final(self).trees@[ti]@.sims == old(self).trees@[ti]@.sims
                        }
                },
                Err(f) => {
                    ||| !old(self).awaiting && f == Fault::RoundOrder
                    ||| old(self).awaiting && exists|ti: int|
                        0 <= ti < old(self).trees@.len() && undeliverable(
                            old(self).rules,
                            ti as usize,
                            (#[trigger] old(self).trees@[ti])@,
                            old(self).due@[ti]@,
                            matrix(rows@),
                            f,
                        )
                },
            },
    {
        if !self.awaiting {
            return Err(Fault::RoundOrder);
        }
        self.awaiting = false;
        let n = self.trees.len();
        let mut ti: usize = 0;
        while ti < n
            invariant
                ti <= n == self.trees@.len() == self.due@.len() == old(self).trees@.len(),
                self.rules == old(self).rules,
                self.tickets == old(self).tickets,
                !self.awaiting,
                forall|k: int|
                    ti <= k < n ==> #[trigger] self.trees@[k] == old(self).trees@[k]
                        && self.due@[k] == old(self).due@[k],
                forall|k: int|
                    0 <= k < ti ==> {
                        &&& delivered(
                            self.rules,
                            k as usize,
                            old(self).trees@[k]@,
                            old(self).due@[k]@,
                            matrix(rows@),
                            (#[trigger] self.trees@[k])@,
                        )
                        &&& balanced(self.trees@[k]@, 0)
                        &&& self.trees@[k]@.sims == old(self).trees@[k]@.sims
                    },
                forall|k: int| 0 <= k < ti ==> (#[trigger] self.due@[k])@.len() == 0,
            decreases n - ti,
        {
            let ghost before_trees = self.trees@;
            let ghost before_due = self.due@;
            assert(self.trees@[ti as int] == old(self).trees@[ti as int]);
            match deliver(&mut self.trees[ti], &self.due[ti], &self.rules, ti, rows) {
                Err(f) => {
                    assert(undeliverable(
                        self.rules,
                        ti as int as usize,
                        old(self).trees@[ti as int]@,
                        old(self).due@[ti as int]@,
                        matrix(rows@),
                        f,
                    ));
                    return Err(f);
                },
                Ok(_) => {},
            }
            let none: Vec<(usize, usize, usize)> = Vec::new();
            assert(none@ =~= Seq::empty());
            self.due.set(ti, none);
            assert forall|k: int| ti < k < n implies #[trigger] self.trees@[k] == old(self).trees@[k]
                && self.due@[k] == old(self).due@[k] by {
                assert(self.trees@[k] == before_trees[k]);
                assert(self.due@[k] == before_due[k]);
            }
            assert forall|k: int| 0 <= k < ti implies #[trigger] self.trees@[k] == before_trees[k]
                && self.due@[k] == before_due[k] by {}
            ti = ti + 1;
        }

        Ok(())
    }

    /// What the finished trees say, one evaluation for each request.
    #[verifier::loop_isolation(false)]
    pub fn into_evaluations(self) -> (r: Result<Vec<SearchEvaluation<N>>, Fault>)
        ensures
            match r {
                Ok(out) => {
                    &&& self.spec_finished()
                    &&& out@.len() == self.trees@.len()
                    &&& forall|ti: int|
                        0 <= ti < out@.len() ==> evaluated_as(
                            self.trees@[ti]@,
                            self.rules.actions,
                        ) == Ok::<_, Fault>((#[trigger] out@[ti])@)
                },
                Err(f) => {
                    ||| !self.spec_finished() && f == Fault::RoundOrder
                    ||| self.spec_finished() && exists|ti: int|
                        0 <= ti < self.trees@.len() && evaluated_as(
                            (#[trigger] self.trees@[ti])@,
                            self.rules.actions,
                        ) == Err::<EvaluationModel<N>, _>(f)
                },
            },
    {
        if !self.finished() {
            return Err(Fault::RoundOrder);
        }
        let mut out: Vec<SearchEvaluation<N>> = Vec::new();
        let mut ti: usize = 0;
        while ti < self.trees.len()
            invariant
                ti <= self.trees@.len(),
                out@.len() == ti,
                forall|k: int|
                    0 <= k < ti ==> evaluated_as(self.trees@[k]@, self.rules.actions) == Ok::<
                        _,
                        Fault,
                    >((#[trigger] out@[k])@),
            decreases self.trees@.len() - ti,
        {
            match evaluation(&self.trees[ti], self.rules.actions) {
                Ok(e) => out.push(e),
                Err(f) => {
                    assert(evaluated_as(self.trees@[ti as int]@, self.rules.actions) is Err);
                    return Err(f);
                },
            }
            ti = ti + 1;
        }
        Ok(out)
    }
}

/// The trees that requests start.
pub open spec fn request_trees<N: Scalar, G: Game<N>, E: StateEncoder<State = G::State>>(
    game: G,
    enc: E,
    requests: Seq<(G::State, usize)>,
    seed: u64,
    force_maxn: bool,
) -> Seq<TreeModel<G::State, E::Feature, N>> {
    Seq::new(
        requests.len(),
        |ti: int|
            request_tree::<N, G, E>(game, enc, requests, ti, seed, force_maxn)->Ok_0,
    )
}

/// A pool between two rounds: its trees, and the batch for the next.
pub struct Stage<S, F, N, B> {
    pub trees: Seq<TreeModel<S, F, N>>,
    pub batch: B,
}

/// Every tree has run all its simulations.
pub open spec fn all_grown<S, F, N>(trees: Seq<TreeModel<S, F, N>>, num_simulations: usize) -> bool {
    forall|ti: int| 0 <= ti < trees.len() ==> (#[trigger] trees[ti]).sims >= num_simulations
}

/// Every tree has taken in the rows that were due to it.
pub open spec fn all_delivered<
    N: Scalar,
    G: Game<N>,
    E: StateEncoder<State = G::State>,
    W: Reward<N, Event = G::Event>,
    X: Exp<N>,
    M: GammaSource<N, SplitMix64>,
    B: Batch<E::Feature, N>,
>(
    rules: Rules<N, G, E, W, X, M>,
    lives: Seq<Life<G::State, E::Feature, N, B>>,
    rows: Seq<Seq<N>>,
    trees: Seq<TreeModel<G::State, E::Feature, N>>,
) -> bool {
    &&& trees.len() == lives.len()
    &&& forall|ti: int|
        0 <= ti < lives.len() ==> delivered(
            rules,
            ti as usize,
            (#[trigger] lives[ti]).m,
            lives[ti].due,
            rows,
            trees[ti],
        )
}

/// A pool's turns in a round ended in `lives`, its empty batch was staged into and committed, and
/// the commit gave `rows` and the batch `next`.
pub open spec fn round_committed<
    N: Scalar,
    G: Game<N>,
    E: StateEncoder<State = G::State>,
    W: Reward<N, Event = G::Event>,
    X: Exp<N>,
    M: GammaSource<N, SplitMix64>,
    B: Batch<E::Feature, N>,
>(
    rules: Rules<N, G, E, W, X, M>,
    a: Stage<G::State, E::Feature, N, B>,
    lives: Seq<Life<G::State, E::Feature, N, B>>,
    rows: Seq<Seq<N>>,
    next: B,
) -> bool {
    &&& call_ensures(B::is_empty, (&a.batch,), true)
    &&& lives.len() == a.trees.len()
    &&& staged_trees(rules, a.trees, a.batch, lives)
    &&& commits(batch_after(a.batch, lives, lives.len() as int), rows, next)
}

/// `b` is a pool one round after `a`.
pub open spec fn round_run<
    N: Scalar,
    G: Game<N>,
    E: StateEncoder<State = G::State>,
    W: Reward<N, Event = G::Event>,
    X: Exp<N>,
    M: GammaSource<N, SplitMix64>,
    B: Batch<E::Feature, N>,
>(
    rules: Rules<N, G, E, W, X, M>,
    a: Stage<G::State, E::Feature, N, B>,
    b: Stage<G::State, E::Feature, N, B>,
) -> bool {
    exists|lives: Seq<Life<G::State, E::Feature, N, B>>, rows: Seq<Seq<N>>| #[trigger]
        round_committed(rules, a, lives, rows, b.batch) && all_delivered(
            rules,
            lives,
            rows,
            b.trees,
        )
}

/// Why a pool cannot run its next round: its batch is in use, a tree cannot go on, or a row that
/// was committed cannot be delivered.
pub open spec fn round_unrun<
    N: Scalar,
    G: Game<N>,
    E: StateEncoder<State = G::State>,
    W: Reward<N, Event = G::Event>,
    X: Exp<N>,
    M: GammaSource<N, SplitMix64>,
    B: Batch<E::Feature, N>,
>(
    rules: Rules<N, G, E, W, X, M>,
    a: Stage<G::State, E::Feature, N, B>,
    f: Fault,
) -> bool {
    ||| f == Fault::BatchInUse && call_ensures(B::is_empty, (&a.batch,), false)
    ||| call_ensures(B::is_empty, (&a.batch,), true) && unstageable(rules, a.trees, a.batch, f)
    ||| exists|lives: Seq<Life<G::State, E::Feature, N, B>>, rows: Seq<Seq<N>>, next: B, ti: int|
        #![trigger round_committed(rules, a, lives, rows, next), lives[ti]]
        round_committed(rules, a, lives, rows, next) && 0 <= ti < lives.len() && undeliverable(
            rules,
            ti as usize,
            lives[ti].m,
            lives[ti].due,
            rows,
            f,
        )
}

/// Stage `j` was not the last, and the next is one round after it.
pub open spec fn round_at<
    N: Scalar,
    G: Game<N>,
    E: StateEncoder<State = G::State>,
    W: Reward<N, Event = G::Event>,
    X: Exp<N>,
    M: GammaSource<N, SplitMix64>,
    B: Batch<E::Feature, N>,
>(
    rules: Rules<N, G, E, W, X, M>,
    stages: Seq<Stage<G::State, E::Feature, N, B>>,
    j: int,
) -> bool {
    !all_grown(stages[j].trees, rules.num_simulations) && round_run(
        rules,
        stages[j],
        stages[j + 1],
    )
}

/// The stages of a pool, round by round: each round begins with the batch that the commit before
/// it handed on.
pub open spec fn rounds_run<
    N: Scalar,
    G: Game<N>,
    E: StateEncoder<State = G::State>,
    W: Reward<N, Event = G::Event>,
    X: Exp<N>,
    M: GammaSource<N, SplitMix64>,
    B: Batch<E::Feature, N>,
>(
    rules: Rules<N, G, E, W, X, M>,
    start: Stage<G::State, E::Feature, N, B>,
    stages: Seq<Stage<G::State, E::Feature, N, B>>,
) -> bool {
    &&& stages.len() > 0
    &&& stages[0] == start
    &&& forall|j: int| 0 <= j < stages.len() - 1 ==> #[trigger] round_at(rules, stages, j)
}

/// `out` is what trees say that have run all their simulations, with their accounts in order.
pub open spec fn told<S, F, N: Scalar>(
    trees: Seq<TreeModel<S, F, N>>,
    num_simulations: usize,
    actions: usize,
    out: Seq<SearchEvaluation<N>>,
) -> bool {
    &&& out.len() == trees.len()
    &&& forall|ti: int|
        0 <= ti < out.len() ==> {
            &&& trees[ti].sims == num_simulations
            &&& trees[ti].accounted()
            &&& evaluated_as(trees[ti], actions) == Ok::<_, Fault>((#[trigger] out[ti])@)
        }
}

/// Where a pool starts.
pub open spec fn pool_start<
    N: Scalar,
    G: Game<N>,
    E: StateEncoder<State = G::State>,
    W: Reward<N, Event = G::Event>,
    X: Exp<N>,
    M: GammaSource<N, SplitMix64>,
    B: Batch<E::Feature, N>,
>(
    rules: Rules<N, G, E, W, X, M>,
    batch: B,
    requests: Seq<(G::State, usize)>,
    seed: u64,
    force_maxn: bool,
) -> Stage<G::State, E::Feature, N, B> {
    Stage {
        trees: request_trees::<N, G, E>(
            *rules.ctx.game,
            *rules.ctx.enc,
            requests,
            seed,
            force_maxn,
        ),
        batch,
    }
}

/// What a pool says of its requests, when it began with the first batch of `source` and left
/// the second: of each, what its
/// own tree says when the rounds have run all its simulations.
pub open spec fn pool_ran<
    N: Scalar,
    G: Game<N>,
    E: StateEncoder<State = G::State>,
    W: Reward<N, Event = G::Event>,
    X: Exp<N>,
    M: GammaSource<N, SplitMix64>,
    B: Batch<E::Feature, N>,
>(
    rules: Rules<N, G, E, W, X, M>,
    source: (B, B),
    requests: Seq<(G::State, usize)>,
    seed: u64,
    force_maxn: bool,
    out: Seq<SearchEvaluation<N>>,
) -> bool {
    let start = pool_start(rules, source.0, requests, seed, force_maxn);
    &&& poolable(
        *rules.ctx.game,
        *rules.ctx.enc,
        rules.ctx.guidance,
        requests,
        seed,
        force_maxn,
    )
    &&& out.len() == requests.len()
    &&& exists|stages: Seq<Stage<G::State, E::Feature, N, B>>| #[trigger]
        rounds_run(rules, start, stages) && stages.last().batch == source.1 && told(
            stages.last().trees,
            rules.num_simulations,
            rules.actions,
            out,
        )
}

proof fn lemma_pool_ran<
    N: Scalar,
    G: Game<N>,
    E: StateEncoder<State = G::State>,
    W: Reward<N, Event = G::Event>,
    X: Exp<N>,
    M: GammaSource<N, SplitMix64>,
    B: Batch<E::Feature, N>,
>(
    rules: Rules<N, G, E, W, X, M>,
    source: (B, B),
    requests: Seq<(G::State, usize)>,
    seed: u64,
    force_maxn: bool,
    stages: Seq<Stage<G::State, E::Feature, N, B>>,
    out: Seq<SearchEvaluation<N>>,
)
    requires
        poolable(
            *rules.ctx.game,
            *rules.ctx.enc,
            rules.ctx.guidance,
            requests,
            seed,
            force_maxn,
        ),
        out.len() == requests.len(),
        rounds_run(rules, pool_start(rules, source.0, requests, seed, force_maxn), stages),
        stages.last().batch == source.1,
        told(stages.last().trees, rules.num_simulations, rules.actions, out),
    ensures
        pool_ran(rules, source, requests, seed, force_maxn, out),
{
}

/// The accounts of a pool are in order: every search tells the fates of as many simulations as were
/// asked for.
pub proof fn law_pool_balances<
    N: Scalar,
    G: Game<N>,
    E: StateEncoder<State = G::State>,
    W: Reward<N, Event = G::Event>,
    X: Exp<N>,
    M: GammaSource<N, SplitMix64>,
    B: Batch<E::Feature, N>,
>(
    rules: Rules<N, G, E, W, X, M>,
    source: (B, B),
    requests: Seq<(G::State, usize)>,
    seed: u64,
    force_maxn: bool,
    out: Seq<SearchEvaluation<N>>,
)
    requires
        pool_ran(rules, source, requests, seed, force_maxn, out),
    ensures
        forall|ti: int|
            0 <= ti < out.len() ==> search_balanced(
                (#[trigger] out[ti])@,
                rules.num_simulations as int,
            ),
{
}

/// Why a pool may fail: the requests cannot be pooled, a round cannot be run, or a finished tree
/// cannot be read.
pub open spec fn pool_failed<
    N: Scalar,
    G: Game<N>,
    E: StateEncoder<State = G::State>,
    W: Reward<N, Event = G::Event>,
    X: Exp<N>,
    M: GammaSource<N, SplitMix64>,
    B: Batch<E::Feature, N>,
>(
    rules: Rules<N, G, E, W, X, M>,
    batch: B,
    requests: Seq<(G::State, usize)>,
    seed: u64,
    force_maxn: bool,
    f: Fault,
) -> bool {
    let start = pool_start(rules, batch, requests, seed, force_maxn);
    ||| unpoolable(
        *rules.ctx.game,
        *rules.ctx.enc,
        rules.ctx.guidance,
        requests,
        seed,
        force_maxn,
        f,
    )
    ||| poolable(
        *rules.ctx.game,
        *rules.ctx.enc,
        rules.ctx.guidance,
        requests,
        seed,
        force_maxn,
    ) && exists|stages: Seq<Stage<G::State, E::Feature, N, B>>| #[trigger]
        rounds_run(rules, start, stages) && broken_off(rules, stages.last(), f)
}

/// A pool ends here, with `f`.
pub open spec fn broken_off<
    N: Scalar,
    G: Game<N>,
    E: StateEncoder<State = G::State>,
    W: Reward<N, Event = G::Event>,
    X: Exp<N>,
    M: GammaSource<N, SplitMix64>,
    B: Batch<E::Feature, N>,
>(
    rules: Rules<N, G, E, W, X, M>,
    a: Stage<G::State, E::Feature, N, B>,
    f: Fault,
) -> bool {
    if all_grown(a.trees, rules.num_simulations) {
        exists|ti: int|
            0 <= ti < a.trees.len() && evaluated_as(#[trigger] a.trees[ti], rules.actions) == Err::<
                EvaluationModel<N>,
                _,
            >(f)
    } else {
        round_unrun(rules, a, f)
    }
}

/// A pool without requests succeeds where a pool can be made at all, whatever its batch; and one
/// without simulations fails only where its requests cannot be pooled or a root cannot be read.
pub proof fn law_idle_pools_use_no_batch<
    N: Scalar,
    G: Game<N>,
    E: StateEncoder<State = G::State>,
    W: Reward<N, Event = G::Event>,
    X: Exp<N>,
    M: GammaSource<N, SplitMix64>,
    B: Batch<E::Feature, N>,
>(
    rules: Rules<N, G, E, W, X, M>,
    batch: B,
    requests: Seq<(G::State, usize)>,
    seed: u64,
    force_maxn: bool,
    f: Fault,
)
    requires
        poolable(
            *rules.ctx.game,
            *rules.ctx.enc,
            rules.ctx.guidance,
            requests,
            seed,
            force_maxn,
        ),
        requests.len() == 0 || rules.num_simulations == 0,
        pool_failed(rules, batch, requests, seed, force_maxn, f),
    ensures
        requests.len() > 0,
        exists|ti: int|
            0 <= ti < requests.len() && evaluated_as(
                #[trigger] pool_start(rules, batch, requests, seed, force_maxn).trees[ti],
                rules.actions,
            ) == Err::<EvaluationModel<N>, _>(f),
{
    let start = pool_start(rules, batch, requests, seed, force_maxn);
    assert(all_grown(start.trees, rules.num_simulations));
    let game = *rules.ctx.game;
    let enc = *rules.ctx.enc;
    if !unpoolable(game, enc, rules.ctx.guidance, requests, seed, force_maxn, f) {
        let stages = choose|stages: Seq<Stage<G::State, E::Feature, N, B>>| #[trigger]
            rounds_run(rules, start, stages) && broken_off(rules, stages.last(), f);
        if stages.len() > 1 {
            assert(round_at(rules, stages, 0));
        }
        assert(stages.last() == start);
    }
}

impl<
    'c,
    N: Scalar,
    G: Game<N>,
    E: StateEncoder<State = G::State>,
    W: Reward<N, Event = G::Event>,
    X: Exp<N>,
    M: GammaSource<N, SplitMix64>,
> PooledSearch<'c, N, G, E, W, X, M> {
    /// The pool between two rounds.
    pub open spec fn stage<B>(self, batch: B) -> Stage<G::State, E::Feature, N, B> {
        Stage { trees: forest(self.trees@), batch }
    }

    /// Stages a round, commits it and applies it.
    fn play_round<B: Batch<E::Feature, N>>(&mut self, batch: B) -> (r: (Result<(), Fault>, B))
        requires
            old(self).wf(),
            !old(self).awaiting,
            !old(self).spec_finished(),
        ensures
            match r.0 {
                Ok(_) => {
                    &&& final(self).wf()
                    &&& !final(self).awaiting
                    &&& final(self).rules == old(self).rules
                    &&& final(self).trees@.len() == old(self).trees@.len()
                    &&& round_run(old(self).rules, old(self).stage(batch), final(self).stage(r.1))
                    &&& 0 <= unspent(
                        final(self).trees@,
                        old(self).rules.num_simulations,
                        0,
                    ) < unspent(old(self).trees@, old(self).rules.num_simulations, 0)
                },
                Err(f) => round_unrun(old(self).rules, old(self).stage(batch), f),
            },
    {
        let ghost before = *self;
        let ghost num = self.rules.num_simulations;
        let ghost a = self.stage(batch);
        let (outcome, next) = self.stage_round(batch);
        match outcome {
            Err(f) => return (Err(f), next),
            Ok(_) => {},
        }
        let ghost mid = *self;
        let ghost lives = choose|lives: Seq<Life<G::State, E::Feature, N, B>>| #[trigger]
            mid.holds(lives) && staged_trees(mid.rules, a.trees, batch, lives) && next
                == batch_after(batch, lives, lives.len() as int);
        let (after, rows) = next.commit();
        let ghost given = matrix(rows@);
        assert(round_committed(mid.rules, a, lives, given, after)) by {
            assert(commits(next, given, after));
        }
        match self.apply_rows(&rows) {
            Err(f) => {
                proof {
                    let ti = choose|ti: int|
                        0 <= ti < mid.trees@.len() && undeliverable(
                            mid.rules,
                            ti as usize,
                            (#[trigger] mid.trees@[ti])@,
                            mid.due@[ti]@,
                            given,
                            f,
                        );
                    assert(lives[ti].m == mid.trees@[ti]@);
                }
                return (Err(f), after);
            },
            Ok(_) => {},
        }
        proof {
            assert forall|ti: int| 0 <= ti < lives.len() implies delivered(
                mid.rules,
                ti as usize,
                (#[trigger] lives[ti]).m,
                lives[ti].due,
                given,
                forest(self.trees@)[ti],
            ) by {
                assert(self.trees@[ti]@.sims == mid.trees@[ti]@.sims);
            }
            let b = self.stage(after);
            assert(round_committed(mid.rules, a, lives, given, b.batch));
            assert(all_delivered(mid.rules, lives, given, b.trees));
            assert(round_run(mid.rules, a, b));
            let k = choose|k: int|
                0 <= k < before.trees@.len() && (#[trigger] before.trees@[k])@.sims < num;
            assert(before.trees@[k]@.sims < mid.trees@[k]@.sims);
            assert forall|k: int| 0 <= k < before.trees@.len() implies (
            #[trigger] before.trees@[k])@.sims <= self.trees@[k]@.sims && self.trees@[k]@.sims
                <= num by {
                assert(mid.trees@[k]@.sims >= before.trees@[k]@.sims);
                assert(self.trees@[k]@.sims == mid.trees@[k]@.sims);
            }
            assert(self.trees@[k]@.sims == mid.trees@[k]@.sims);
            lemma_spent(before.trees@, self.trees@, num, 0);
        }
        (Ok(()), after)
    }
}

/// Reads the trees of a finished pool.
fn tell_pool<
    N: Scalar,
    G: Game<N>,
    E: StateEncoder<State = G::State>,
    W: Reward<N, Event = G::Event>,
    X: Exp<N>,
    M: GammaSource<N, SplitMix64>,
>(pool: PooledSearch<N, G, E, W, X, M>) -> (r: Result<Vec<SearchEvaluation<N>>, Fault>)
    requires
        pool.wf(),
        pool.spec_finished(),
    ensures
        all_grown(forest(pool.trees@), pool.rules.num_simulations),
        match r {
            Ok(out) => told(
                forest(pool.trees@),
                pool.rules.num_simulations,
                pool.rules.actions,
                out@,
            ),
            Err(f) => exists|ti: int|
                0 <= ti < pool.trees@.len() && evaluated_as(
                    #[trigger] forest(pool.trees@)[ti],
                    pool.rules.actions,
                ) == Err::<EvaluationModel<N>, _>(f),
        },
{
    let ghost end = pool;
    let ghost trees = forest(pool.trees@);
    let ghost num = pool.rules.num_simulations;
    proof {
        assert forall|ti: int| 0 <= ti < trees.len() implies (#[trigger] trees[ti]).sims >= num by {
            assert(end.trees@[ti]@.sims >= num);
        }
    }
    match pool.into_evaluations() {
        Ok(out) => {
            assert forall|ti: int| 0 <= ti < out@.len() implies {
                &&& trees[ti].sims == num
                &&& trees[ti].accounted()
                &&& evaluated_as(trees[ti], end.rules.actions) == Ok::<_, Fault>(
                    (#[trigger] out@[ti])@,
                )
            } by {
                assert(balanced(end.trees@[ti]@, 0));
            }
            Ok(out)
        },
        Err(f) => {
            proof {
                let ti = choose|ti: int|
                    0 <= ti < end.trees@.len() && evaluated_as(
                        (#[trigger] end.trees@[ti])@,
                        end.rules.actions,
                    ) == Err::<EvaluationModel<N>, _>(f);
                assert(trees[ti] == end.trees@[ti]@);
            }
            Err(f)
        },
    }
}

/// Runs a pool to its end.
#[verifier::spinoff_prover]
#[verifier::rlimit(40)]
pub fn run_pool<
    N: Scalar,
    G: Game<N>,
    E: StateEncoder<State = G::State>,
    W: Reward<N, Event = G::Event>,
    X: Exp<N>,
    M: GammaSource<N, SplitMix64>,
    B: Batch<E::Feature, N>,
>(
    rules: Rules<N, G, E, W, X, M>,
    seed: u64,
    requests: Vec<(G::State, usize)>,
    force_maxn: bool,
    batch: B,
) -> (r: (Result<Vec<SearchEvaluation<N>>, Fault>, B))
    ensures
        match r.0 {
            Ok(out) => pool_ran(rules, (batch, r.1), requests@, seed, force_maxn, out@),
            Err(f) => pool_failed(rules, batch, requests@, seed, force_maxn, f),
        },
{
    let ghost all = requests@;
    let ghost held = rules;
    let ghost start = pool_start(rules, batch, all, seed, force_maxn);
    let mut pool = match PooledSearch::new(rules, seed, requests, force_maxn) {
        Ok(pool) => pool,
        Err(f) => return (Err(f), batch),
    };
    let mut current = batch;
    assert(pool.stage(current).trees =~= start.trees) by {
        assert forall|ti: int| 0 <= ti < all.len() implies pool.stage(current).trees[ti]
            == start.trees[ti] by {
            assert(pool.trees@[ti]@ == pool.trees@[ti]@);
        }
    }
    let ghost mut stages = seq![start];
    while !pool.finished()
        invariant
            pool.wf(),
            !pool.awaiting,
            pool.rules == held,
            pool.trees@.len() == all.len(),
            rounds_run(held, start, stages),
            stages.last() == pool.stage(current),
            poolable(
                *rules.ctx.game,
                *rules.ctx.enc,
                rules.ctx.guidance,
                all,
                seed,
                force_maxn,
            ),
            start == pool_start(rules, batch, all, seed, force_maxn),
            held == rules,
            all == requests@,
        decreases unspent(pool.trees@, held.num_simulations, 0),
    {
        let ghost a = pool.stage(current);
        let ghost earlier = stages;
        proof {
            let k = choose|k: int|
                0 <= k < pool.trees@.len() && (#[trigger] pool.trees@[k])@.sims
                    < held.num_simulations;
            assert(a.trees[k].sims < held.num_simulations);
        }
        let (outcome, next) = pool.play_round(current);
        current = next;
        match outcome {
            Err(f) => {
                assert(broken_off(held, stages.last(), f));
                return (Err(f), current);
            },
            Ok(_) => {},
        }
        proof {
            stages = stages.push(pool.stage(current));
            assert forall|j: int| 0 <= j < stages.len() - 1 implies #[trigger] round_at(
                held,
                stages,
                j,
            ) by {
                if j < earlier.len() - 1 {
                    assert(round_at(held, earlier, j));
                } else {
                    assert(stages[j] == a && stages[j + 1] == pool.stage(current));
                }
            }
        }
    }
    let ghost last = stages.last();
    match tell_pool(pool) {
        Ok(out) => {
            proof {
                lemma_pool_ran(held, (batch, current), all, seed, force_maxn, stages, out@);
            }
            (Ok(out), current)
        },
        Err(f) => {
            assert(broken_off(held, last, f));
            (Err(f), current)
        },
    }
}

} // verus!
