//! Searches run in lockstep, with each round's network rows pooled.

use vstd::prelude::*;

use super::backup::{finish, SearchResult};
#[allow(unused_imports)]
use super::backup::{result_model, spec_finish};
use super::evaluate::{evaluate, read_beliefs, Exp};
#[allow(unused_imports)]
use super::evaluate::{beliefs, believed, spec_evaluate, unreadable};
use super::frontier::expand_round;
#[allow(unused_imports)]
use super::frontier::spec_expand_round;
use super::tree::{find_leaf_player, Ctx, Search, SearchConfig};
#[allow(unused_imports)]
use super::tree::{leaf_player, opened, SearchModel, SearchStats};
use crate::encoder::StateEncoder;
use crate::fault::Fault;
use crate::game::Game;
use crate::num::Scalar;
use crate::parallel::{read_all, run_all, Job, Reading};
use crate::reward::Reward;
use crate::util::append;

verus! {

/// The value network: one row of numbers for each observation row. `players` routes them.
/// It is handed on with its answer.
pub trait Infer<F, N>: Sized {
    fn infer(self, players: &[usize], obs: Vec<F>, n_rows: usize) -> (Self, Vec<N>);
}

/// A network is asked for rows, each for a player, answers, and is handed on.
pub open spec fn infers<F, N, I: Infer<F, N>>(
    before: I,
    players: Seq<usize>,
    obs: Seq<Seq<F>>,
    out: Seq<N>,
    after: I,
) -> bool {
    exists|all: &[usize], flat: Vec<F>, n: usize, given: Vec<N>|
        {
            &&& all@ == players
            &&& flat@ == in_line(obs)
            &&& n == players.len()
            &&& given@ == out
            &&& #[trigger] call_ensures(I::infer, (before, all, flat, n), (after, given))
        }
}

/// How many rows a search asks for in a round.
pub open spec fn asked<S, F, N>(m: SearchModel<S, F, N>) -> nat {
    m.opp_obs.len() + m.new_leaves.len()
}

/// The searches that take part in a pool's next round.
pub open spec fn due<S, F, N: Scalar>(searches: Seq<SearchModel<S, F, N>>, budget: usize) -> Seq<
    bool,
> {
    Seq::new(searches.len(), |i: int| searches[i].active(budget))
}

/// Some search takes part.
pub open spec fn any_due(took: Seq<bool>) -> bool {
    exists|i: int| 0 <= i < took.len() && #[trigger] took[i]
}

/// Every search is sound.
pub open spec fn all_sound<S, F, N: Scalar>(
    searches: Seq<SearchModel<S, F, N>>,
    budget: usize,
) -> bool {
    forall|i: int| 0 <= i < searches.len() ==> (#[trigger] searches[i]).wf(budget)
}

/// Every search that is due has opened a round.
pub open spec fn opened_all<
    N: Scalar,
    G: Game<N>,
    E: StateEncoder<State = G::State>,
    W: Reward<N, Event = G::Event>,
>(
    ctx: Ctx<N, G, E, W>,
    first: bool,
    searches: Seq<SearchModel<G::State, E::Feature, N>>,
    opens: Seq<SearchModel<G::State, E::Feature, N>>,
) -> bool {
    &&& opens.len() == searches.len()
    &&& forall|i: int|
        0 <= i < searches.len() ==> if searches[i].active(ctx.cfg.expansion_budget) {
            &&& spec_expand_round(ctx, searches[i], first) == Ok::<_, Fault>(#[trigger] opens[i])
            &&& opens[i].mid_round()
        } else {
            opens[i] == searches[i]
        }
}

/// How many heads the answer to a pool's rows has.
pub open spec fn pool_heads<N: Scalar, G: Game<N>, F>(
    game: G,
    cfg: SearchConfig<N>,
    opens: Seq<SearchModel<G::State, F, N>>,
    took: Seq<bool>,
    out: Seq<N>,
) -> nat {
    head_count(
        out.len(),
        pooled_players(game, cfg, opens, took, opens.len()).len(),
        game.spec_action_count() as nat,
    )
}

/// The rows of search `i` out of the answer to a pool's rows.
pub open spec fn pool_answer<N: Scalar, G: Game<N>, F>(
    game: G,
    cfg: SearchConfig<N>,
    opens: Seq<SearchModel<G::State, F, N>>,
    took: Seq<bool>,
    out: Seq<N>,
    i: int,
) -> Seq<N> {
    lane_rows(
        out,
        pooled_players(game, cfg, opens, took, i as nat).len(),
        asked(opens[i]),
        pool_heads(game, cfg, opens, took, out) * (game.spec_action_count() as nat),
    )
}

/// `after` is an open search that has taken in its rows, with beliefs that they give.
pub open spec fn taken_in<
    N: Scalar,
    G: Game<N>,
    E: StateEncoder<State = G::State>,
    W: Reward<N, Event = G::Event>,
    X: Exp<N>,
>(
    ctx: Ctx<N, G, E, W>,
    exp: X,
    open: SearchModel<G::State, E::Feature, N>,
    rows: Seq<N>,
    k: nat,
    after: SearchModel<G::State, E::Feature, N>,
) -> bool {
    exists|probs: Seq<Seq<N>>| #[trigger]
        believed(ctx, exp, open, rows, k, probs) && spec_evaluate(
            ctx,
            open,
            rows,
            k as usize,
            probs,
        ) == Ok::<_, Fault>(after)
}

/// Why an open search cannot take in its rows.
pub open spec fn refuses<
    N: Scalar,
    G: Game<N>,
    E: StateEncoder<State = G::State>,
    W: Reward<N, Event = G::Event>,
    X: Exp<N>,
>(
    ctx: Ctx<N, G, E, W>,
    exp: X,
    open: SearchModel<G::State, E::Feature, N>,
    rows: Seq<N>,
    k: nat,
    f: Fault,
) -> bool {
    ||| unreadable(ctx, open, f)
    ||| exists|probs: Seq<Seq<N>>| #[trigger]
        believed(ctx, exp, open, rows, k, probs) && spec_evaluate(
            ctx,
            open,
            rows,
            k as usize,
            probs,
        ) == Err::<SearchModel<G::State, E::Feature, N>, _>(f)
}

/// Search `i` takes part in a round, and asks for rows.
pub open spec fn asks<S, F, N>(
    opens: Seq<SearchModel<S, F, N>>,
    took: Seq<bool>,
    i: int,
) -> bool {
    took[i] && asked(opens[i]) > 0
}

/// Every search of a pool has closed its round, on an answer to all its rows: one that asked for
/// rows has taken in its own, and no other has changed.
pub open spec fn closed_all<
    N: Scalar,
    G: Game<N>,
    E: StateEncoder<State = G::State>,
    W: Reward<N, Event = G::Event>,
    X: Exp<N>,
>(
    ctx: Ctx<N, G, E, W>,
    exp: X,
    opens: Seq<SearchModel<G::State, E::Feature, N>>,
    took: Seq<bool>,
    out: Seq<N>,
    next: Seq<SearchModel<G::State, E::Feature, N>>,
) -> bool {
    &&& next.len() == opens.len()
    &&& forall|i: int|
        0 <= i < opens.len() ==> if asks(opens, took, i) {
            taken_in(
                ctx,
                exp,
                opens[i],
                pool_answer(*ctx.game, ctx.cfg, opens, took, out, i),
                pool_heads(*ctx.game, ctx.cfg, opens, took, out),
                #[trigger] next[i],
            )
        } else {
            next[i] == opens[i]
        }
}

/// A pool's network is asked for all the rows of a round at once.
pub open spec fn pool_asked<N: Scalar, G: Game<N>, F, I: Infer<F, N>>(
    game: G,
    cfg: SearchConfig<N>,
    opens: Seq<SearchModel<G::State, F, N>>,
    took: Seq<bool>,
    net: I,
    out: Seq<N>,
    after: I,
) -> bool {
    &&& game.spec_action_count() > 0
    &&& infers(
        net,
        pooled_players(game, cfg, opens, took, opens.len()),
        pooled_obs(opens, took, opens.len()),
        out,
        after,
    )
}

/// A pool closes its open round: where it asks for no row, nothing changes and the network is not
/// asked; else the network is asked once.
pub open spec fn pool_closed<
    N: Scalar,
    G: Game<N>,
    E: StateEncoder<State = G::State>,
    W: Reward<N, Event = G::Event>,
    X: Exp<N>,
    I: Infer<E::Feature, N>,
>(
    ctx: Ctx<N, G, E, W>,
    exp: X,
    opens: Seq<SearchModel<G::State, E::Feature, N>>,
    took: Seq<bool>,
    nets: (I, I),
    next: Seq<SearchModel<G::State, E::Feature, N>>,
) -> bool {
    if pooled_players(*ctx.game, ctx.cfg, opens, took, opens.len()).len() == 0 {
        next == opens && nets.1 == nets.0
    } else {
        exists|out: Seq<N>| #[trigger]
            pool_asked(*ctx.game, ctx.cfg, opens, took, nets.0, out, nets.1) && closed_all(
                ctx,
                exp,
                opens,
                took,
                out,
                next,
            )
    }
}

/// Why a pool cannot close its open round: there is no action for which the network could answer, or
/// a search cannot take in its rows.
pub open spec fn pool_unclosed<
    N: Scalar,
    G: Game<N>,
    E: StateEncoder<State = G::State>,
    W: Reward<N, Event = G::Event>,
    X: Exp<N>,
    I: Infer<E::Feature, N>,
>(
    ctx: Ctx<N, G, E, W>,
    exp: X,
    opens: Seq<SearchModel<G::State, E::Feature, N>>,
    took: Seq<bool>,
    net: I,
    f: Fault,
) -> bool {
    &&& pooled_players(*ctx.game, ctx.cfg, opens, took, opens.len()).len() > 0
    &&& {
        ||| ctx.game.spec_action_count() == 0 && f == Fault::ActionRange
        ||| exists|out: Seq<N>, after: I, i: int|
            #![trigger pool_asked(*ctx.game, ctx.cfg, opens, took, net, out, after), opens[i]]
            {
                &&& pool_asked(*ctx.game, ctx.cfg, opens, took, net, out, after)
                &&& 0 <= i < opens.len()
                &&& asks(opens, took, i)
                &&& refuses(
                    ctx,
                    exp,
                    opens[i],
                    pool_answer(*ctx.game, ctx.cfg, opens, took, out, i),
                    pool_heads(*ctx.game, ctx.cfg, opens, took, out),
                    f,
                )
            }
    }
}

/// A pool between two rounds: its searches, and the network for the next.
#[verifier::ext_equal]
pub struct Stage<S, F, N, I> {
    pub searches: Seq<SearchModel<S, F, N>>,
    pub net: I,
}

/// `b` is a pool one round after `a`: the searches that were due have expanded, their rows have been
/// asked for in one call, and each has taken in its own.
pub open spec fn round_played<
    N: Scalar,
    G: Game<N>,
    E: StateEncoder<State = G::State>,
    W: Reward<N, Event = G::Event>,
    X: Exp<N>,
    I: Infer<E::Feature, N>,
>(
    ctx: Ctx<N, G, E, W>,
    exp: X,
    first: bool,
    a: Stage<G::State, E::Feature, N, I>,
    b: Stage<G::State, E::Feature, N, I>,
) -> bool {
    let took = due(a.searches, ctx.cfg.expansion_budget);
    &&& any_due(took)
    &&& all_sound(a.searches, ctx.cfg.expansion_budget)
    &&& exists|opens: Seq<SearchModel<G::State, E::Feature, N>>| #[trigger]
        opened_all(ctx, first, a.searches, opens) && pool_closed(
            ctx,
            exp,
            opens,
            took,
            (a.net, b.net),
            b.searches,
        )
}

/// Why a pool cannot play its next round: a search cannot expand, or the round cannot be closed.
pub open spec fn round_unplayed<
    N: Scalar,
    G: Game<N>,
    E: StateEncoder<State = G::State>,
    W: Reward<N, Event = G::Event>,
    X: Exp<N>,
    I: Infer<E::Feature, N>,
>(
    ctx: Ctx<N, G, E, W>,
    exp: X,
    first: bool,
    a: Stage<G::State, E::Feature, N, I>,
    f: Fault,
) -> bool {
    let took = due(a.searches, ctx.cfg.expansion_budget);
    ||| exists|i: int|
        0 <= i < a.searches.len() && took[i] && spec_expand_round(
            ctx,
            #[trigger] a.searches[i],
            first,
        ) == Err::<SearchModel<G::State, E::Feature, N>, _>(f)
    ||| exists|opens: Seq<SearchModel<G::State, E::Feature, N>>| #[trigger]
        opened_all(ctx, first, a.searches, opens) && pool_unclosed(
            ctx,
            exp,
            opens,
            took,
            a.net,
            f,
        )
}

/// Stage `j + 1` is one round after stage `j`.
pub open spec fn round_at<
    N: Scalar,
    G: Game<N>,
    E: StateEncoder<State = G::State>,
    W: Reward<N, Event = G::Event>,
    X: Exp<N>,
    I: Infer<E::Feature, N>,
>(
    ctx: Ctx<N, G, E, W>,
    exp: X,
    stages: Seq<Stage<G::State, E::Feature, N, I>>,
    j: int,
) -> bool {
    round_played(ctx, exp, j == 0, stages[j], stages[j + 1])
}

/// The stages of a pool, round by round: each round asks the network that the one before handed on.
pub open spec fn rounds_played<
    N: Scalar,
    G: Game<N>,
    E: StateEncoder<State = G::State>,
    W: Reward<N, Event = G::Event>,
    X: Exp<N>,
    I: Infer<E::Feature, N>,
>(
    ctx: Ctx<N, G, E, W>,
    exp: X,
    start: Stage<G::State, E::Feature, N, I>,
    stages: Seq<Stage<G::State, E::Feature, N, I>>,
) -> bool {
    &&& stages.len() > 0
    &&& stages[0] == start
    &&& forall|j: int| 0 <= j < stages.len() - 1 ==> #[trigger] round_at(ctx, exp, stages, j)
}

/// What a search says, as a mathematical value.
pub type Said<F, N> = (Seq<Seq<N>>, Seq<(Seq<F>, Seq<Seq<N>>)>, SearchStats<N>);

/// `out` is what searches say that are over, within their budget.
pub open spec fn read_off<N: Scalar, G: Game<N>, F>(
    game: G,
    cfg: SearchConfig<N>,
    searches: Seq<SearchModel<G::State, F, N>>,
    collect_interior: bool,
    out: Seq<Said<F, N>>,
) -> bool {
    &&& out.len() == searches.len()
    &&& forall|i: int|
        0 <= i < out.len() ==> {
            &&& searches[i].stats.rounds <= searches[i].stats.expansions <= cfg.expansion_budget
            &&& spec_finish(game, cfg, searches[i], collect_interior) == Ok::<_, Fault>(
                #[trigger] out[i],
            )
        }
}

/// `out` is what pooled searches of the requests give, each in its place, when the network was
/// handed in as the first of `nets` and back as the second: the rounds ran for as long as a search
/// was due.
pub open spec fn searched<
    N: Scalar,
    G: Game<N>,
    E: StateEncoder<State = G::State>,
    W: Reward<N, Event = G::Event>,
    X: Exp<N>,
    I: Infer<E::Feature, N>,
>(
    ctx: Ctx<N, G, E, W>,
    exp: X,
    nets: (I, I),
    requests: Seq<(G::State, usize)>,
    seed: u64,
    collect_interior: bool,
    out: Seq<Said<E::Feature, N>>,
) -> bool {
    exists|stages: Seq<Stage<G::State, E::Feature, N, I>>| #[trigger]
        rounds_played(ctx, exp, pool_start(requests, seed, nets.0), stages) && {
            let last = stages.last();
            &&& last.net == nets.1
            &&& out.len() == requests.len()
            &&& !any_due(due(last.searches, ctx.cfg.expansion_budget))
            &&& read_off(*ctx.game, ctx.cfg, last.searches, collect_interior, out)
        }
}

/// Why pooled searches of the requests fail: in a round, or when one of them is read off.
pub open spec fn search_fails<
    N: Scalar,
    G: Game<N>,
    E: StateEncoder<State = G::State>,
    W: Reward<N, Event = G::Event>,
    X: Exp<N>,
    I: Infer<E::Feature, N>,
>(
    ctx: Ctx<N, G, E, W>,
    exp: X,
    net: I,
    requests: Seq<(G::State, usize)>,
    seed: u64,
    collect_interior: bool,
    f: Fault,
) -> bool {
    exists|stages: Seq<Stage<G::State, E::Feature, N, I>>| #[trigger]
        rounds_played(ctx, exp, pool_start(requests, seed, net), stages) && {
            let last = stages.last();
            if any_due(due(last.searches, ctx.cfg.expansion_budget)) {
                round_unplayed(ctx, exp, stages.len() == 1, last, f)
            } else {
                exists|i: int|
                    0 <= i < last.searches.len() && spec_finish(
                        *ctx.game,
                        ctx.cfg,
                        #[trigger] last.searches[i],
                        collect_interior,
                    ) == Err::<Said<E::Feature, N>, _>(f)
            }
        }
}

/// Where pooled searches start.
pub open spec fn pool_start<S, F, N: Scalar, I>(
    requests: Seq<(S, usize)>,
    seed: u64,
    net: I,
) -> Stage<S, F, N, I> {
    Stage { searches: Seq::new(requests.len(), |i: int| lane_start(requests, seed, i)), net }
}

/// Searches keep to their budget: each expands no more nodes, and in no more rounds than nodes.
pub proof fn law_searches_keep_to_their_budget<
    N: Scalar,
    G: Game<N>,
    E: StateEncoder<State = G::State>,
    W: Reward<N, Event = G::Event>,
    X: Exp<N>,
    I: Infer<E::Feature, N>,
>(
    ctx: Ctx<N, G, E, W>,
    exp: X,
    nets: (I, I),
    requests: Seq<(G::State, usize)>,
    seed: u64,
    collect_interior: bool,
    out: Seq<Said<E::Feature, N>>,
)
    requires
        searched(ctx, exp, nets, requests, seed, collect_interior, out),
    ensures
        forall|i: int|
            0 <= i < out.len() ==> (#[trigger] out[i]).2.rounds <= out[i].2.expansions
                <= ctx.cfg.expansion_budget,
{
    reveal(spec_finish);
}

/// One search of a pool, and what stopped it.
pub struct Lane<S, F, N> {
    pub search: Search<S, F, N>,
    pub fault: Option<Fault>,
}

/// A lane that can go on.
pub open spec fn lane_ready<S, F, N: Scalar>(
    lane: Lane<S, F, N>,
    budget: usize,
) -> bool {
    &&& lane.fault is None
    &&& lane.search@.wf(budget)
}

/// The searches of lanes.
pub open spec fn lane_models<S, F, N>(lanes: Seq<Lane<S, F, N>>) -> Seq<SearchModel<S, F, N>> {
    Seq::new(lanes.len(), |i: int| lanes[i].search@)
}

/// Opens a round on every lane that is due.
pub struct OpenRound<'a, N, G, E, W> {
    pub ctx: &'a Ctx<'a, N, G, E, W>,
    pub first: bool,
}

impl<
    'a,
    N: Scalar,
    G: Game<N> + Sync,
    E: StateEncoder<State = G::State> + Sync,
    W: Reward<N, Event = G::Event> + Sync,
> Job<Lane<G::State, E::Feature, N>> for OpenRound<'a, N, G, E, W> {
    open spec fn ready(&self, i: int, item: Lane<G::State, E::Feature, N>) -> bool {
        &&& lane_ready(item, self.ctx.cfg.expansion_budget)
        &&& item.search@.active(self.ctx.cfg.expansion_budget) ==> self.ctx.cfg.top_k > 0
    }

    open spec fn did(
        &self,
        i: int,
        before: Lane<G::State, E::Feature, N>,
        after: Lane<G::State, E::Feature, N>,
    ) -> bool {
        let budget = self.ctx.cfg.expansion_budget;
        let m = before.search@;
        if m.active(budget) {
            match spec_expand_round(*self.ctx, m, self.first) {
                Ok(open) => {
                    &&& after.search@ == open
                    &&& lane_ready(after, budget)
                    &&& open.mid_round()
                    &&& open.stats.expansions > m.stats.expansions
                },
                Err(f) => after.fault == Some(f),
            }
        } else {
            after.search@ == m && after.fault is None
        }
    }

    fn run(&self, i: usize, item: &mut Lane<G::State, E::Feature, N>) {
        if item.search.active(self.ctx.cfg.expansion_budget) {
            match expand_round(&mut item.search, self.ctx, self.first) {
                Ok(_) => {},
                Err(f) => {
                    item.fault = Some(f);
                },
            }
        }
    }
}

/// The rows of one lane out of a pool's.
pub open spec fn lane_rows<N>(rows: Seq<N>, start: nat, n: nat, stride: nat) -> Seq<N> {
    rows.subrange((start * stride) as int, ((start + n) * stride) as int)
}

/// Closes a round on every lane that took part.
pub struct CloseRound<'a, N, G, E, W, X> {
    pub ctx: &'a Ctx<'a, N, G, E, W>,
    pub exp: &'a X,
    pub rows: &'a [N],
    pub took: &'a Vec<bool>,
    pub starts: &'a Vec<usize>,
    pub k: usize,
    pub total: usize,
}

impl<
    'a,
    N: Scalar,
    G: Game<N> + Sync,
    E: StateEncoder<State = G::State> + Sync,
    W: Reward<N, Event = G::Event> + Sync,
    X: Exp<N> + Sync,
> Job<Lane<G::State, E::Feature, N>> for CloseRound<'a, N, G, E, W, X> {
    open spec fn ready(&self, i: int, item: Lane<G::State, E::Feature, N>) -> bool {
        &&& i < self.took@.len() == self.starts@.len()
        &&& self.total * (self.k * self.ctx.game.spec_action_count()) <= self.rows@.len()
        &&& self.took@[i] ==> {
            &&& lane_ready(item, self.ctx.cfg.expansion_budget)
            &&& item.search@.mid_round()
            &&& self.starts@[i] + asked(item.search@) <= self.total
        }
    }

    open spec fn did(
        &self,
        i: int,
        before: Lane<G::State, E::Feature, N>,
        after: Lane<G::State, E::Feature, N>,
    ) -> bool {
        let open = before.search@;
        let stride = (self.k * self.ctx.game.spec_action_count()) as nat;
        let rows = lane_rows(self.rows@, self.starts@[i] as nat, asked(open), stride);
        if !self.took@[i] || asked(open) == 0 {
            after == before
        } else {
            match after.fault {
                None => {
                    &&& lane_ready(
                        after,
                        self.ctx.cfg.expansion_budget)
                    &&& after.search@.stats.expansions == open.stats.expansions
                    &&& exists|probs: Seq<Seq<N>>| #[trigger]
                        believed(*self.ctx, *self.exp, open, rows, self.k as nat, probs)
                            && spec_evaluate(*self.ctx, open, rows, self.k, probs) == Ok::<
                            _,
                            Fault,
                        >(after.search@)
                },
                Some(f) => {
                    ||| unreadable(*self.ctx, open, f)
                    ||| exists|probs: Seq<Seq<N>>| #[trigger]
                        believed(*self.ctx, *self.exp, open, rows, self.k as nat, probs)
                            && spec_evaluate(*self.ctx, open, rows, self.k, probs) == Err::<
                            SearchModel<G::State, E::Feature, N>,
                            _,
                        >(f)
                },
            }
        }
    }

    fn run(&self, i: usize, item: &mut Lane<G::State, E::Feature, N>) {
        if !self.took[i] {
            return;
        }
        let a = self.ctx.game.action_count();
        let n = item.search.opp_obs.len() + item.search.new_leaves.len();
        if n == 0 {
            return;
        }
        let start = self.starts[i];
        let len = self.rows.len();
        let ghost stride = (self.k * a) as nat;
        proof {
            let total = self.total as nat;
            assert(0 <= start * stride <= (start + n) * stride <= total * stride) by (nonlinear_arith)
                requires
                    0 <= start,
                    0 <= n,
                    start + n <= total,
                    0 <= stride,
            ;
            assert((start + n) * stride - start * stride == n * stride) by (nonlinear_arith);
            assert(stride <= (start + n) * stride) by (nonlinear_arith)
                requires
                    start + n >= 1,
                    0 <= stride,
            ;
        }
        let width = self.k * a;
        let rows = vstd::slice::slice_subrange(self.rows, start * width, (start + n) * width);
        let ghost open = item.search@;
        assert(rows@ == lane_rows(self.rows@, start as nat, asked(open), stride));
        proof {
            assert(open.opp_legal.len() * stride <= rows@.len()) by (nonlinear_arith)
                requires
                    open.opp_legal.len() <= n,
                    rows@.len() == n * stride,
                    0 <= stride,
            ;
        }
        match read_beliefs(&item.search, self.ctx, self.exp, rows, self.k) {
            Err(f) => {
                item.fault = Some(f);
            },
            Ok(probs) => {
                match evaluate(&mut item.search, self.ctx, rows, self.k, &probs) {
                    Ok(_) => {},
                    Err(f) => {
                        item.fault = Some(f);
                    },
                }
            },
        }
    }
}

/// Reads a finished lane.
pub struct Finish<'a, N, G, E, W> {
    pub ctx: &'a Ctx<'a, N, G, E, W>,
    pub collect_interior: bool,
}

impl<
    'a,
    N: Scalar,
    G: Game<N> + Sync,
    E: StateEncoder<State = G::State> + Sync,
    W: Reward<N, Event = G::Event> + Sync,
> Reading<
    Lane<G::State, E::Feature, N>,
    Result<SearchResult<E::Feature, N>, Fault>,
> for Finish<'a, N, G, E, W> {
    open spec fn readable(&self, item: Lane<G::State, E::Feature, N>) -> bool {
        item.search@.arena.len() > 0
    }

    open spec fn reads(
        &self,
        item: Lane<G::State, E::Feature, N>,
        out: Result<SearchResult<E::Feature, N>, Fault>,
    ) -> bool {
        match out {
            Ok(out) => spec_finish(
                *self.ctx.game,
                self.ctx.cfg,
                item.search@,
                self.collect_interior,
            ) == Ok::<_, Fault>(result_model(out)),
            Err(f) => spec_finish(
                *self.ctx.game,
                self.ctx.cfg,
                item.search@,
                self.collect_interior,
            ) == Err::<
                (Seq<Seq<N>>, Seq<(Seq<E::Feature>, Seq<Seq<N>>)>, SearchStats<N>),
                _,
            >(f),
        }
    }

    fn read(&self, item: Lane<G::State, E::Feature, N>) -> (r: Result<
        SearchResult<E::Feature, N>,
        Fault,
    >) {
        finish(self.ctx.game, &self.ctx.cfg, &item.search, self.collect_interior)
    }
}

/// The first `n` rows, one behind the other.
pub open spec fn laid_out<F>(rows: Seq<Seq<F>>, n: nat) -> Seq<F>
    decreases n,
{
    if n == 0 {
        Seq::empty()
    } else {
        laid_out(rows, (n - 1) as nat) + rows[n - 1]
    }
}

/// Rows, one behind the other.
pub open spec fn in_line<F>(rows: Seq<Seq<F>>) -> Seq<F> {
    laid_out(rows, rows.len())
}

proof fn lemma_laid_out<F>(a: Seq<Seq<F>>, b: Seq<Seq<F>>, n: nat)
    requires
        n <= a.len(),
        n <= b.len(),
        forall|i: int| 0 <= i < n ==> a[i] == b[i],
    ensures
        laid_out(a, n) == laid_out(b, n),
    decreases n,
{
    if n > 0 {
        lemma_laid_out(a, b, (n - 1) as nat);
    }
}

proof fn lemma_in_line<F>(a: Seq<Seq<F>>, b: Seq<Seq<F>>)
    ensures
        in_line(a + b) == in_line(a) + in_line(b),
    decreases b.len(),
{
    if b.len() == 0 {
        assert(a + b =~= a);
        assert(in_line(a) + in_line(b) =~= in_line(a));
    } else {
        let short = b.drop_last();
        lemma_in_line(a, short);
        lemma_laid_out(a + b, a + short, (a + short).len());
        lemma_laid_out(b, short, short.len());
        assert(in_line(a + b) =~= in_line(a + short) + b.last());
        assert(in_line(b) =~= in_line(short) + b.last());
    }
}

/// The observations of a search's new leaves.
pub open spec fn leaf_rows<S, F, N>(m: SearchModel<S, F, N>) -> Seq<Seq<F>> {
    Seq::new(m.new_leaves.len(), |j: int| m.arena[m.new_leaves[j] as int].obs)
}

/// Whom each row of a search is for: the co-movers first, then whoever values each leaf.
pub open spec fn lane_players<N: Scalar, G: Game<N>, F>(
    game: G,
    cfg: SearchConfig<N>,
    m: SearchModel<G::State, F, N>,
) -> Seq<usize> {
    m.opp_legal.map_values(|l: (usize, Seq<usize>)| l.0) + leaf_players(
        game,
        cfg,
        m,
        m.new_leaves.len(),
    )
}

/// Whom the rows of the first `n` new leaves are for.
pub open spec fn leaf_players<N: Scalar, G: Game<N>, F>(
    game: G,
    cfg: SearchConfig<N>,
    m: SearchModel<G::State, F, N>,
    n: nat,
) -> Seq<usize> {
    Seq::new(
        n,
        |j: int| leaf_player(game, cfg, m.arena[m.new_leaves[j] as int].state, m.agent),
    )
}

/// The rows of a search in a round: the co-movers' first, then its leaves'.
pub open spec fn lane_obs<S, F, N>(m: SearchModel<S, F, N>) -> Seq<Seq<F>> {
    m.opp_obs + leaf_rows(m)
}

/// Whom each row of the first `n` searches of a pool is for.
pub open spec fn pooled_players<N: Scalar, G: Game<N>, F>(
    game: G,
    cfg: SearchConfig<N>,
    opens: Seq<SearchModel<G::State, F, N>>,
    took: Seq<bool>,
    n: nat,
) -> Seq<usize>
    decreases n,
{
    if n == 0 {
        Seq::empty()
    } else {
        let before = pooled_players(game, cfg, opens, took, (n - 1) as nat);
        if took[n - 1] {
            before + lane_players(game, cfg, opens[n - 1])
        } else {
            before
        }
    }
}

/// The rows of the first `n` searches of a pool.
pub open spec fn pooled_obs<S, F, N>(
    opens: Seq<SearchModel<S, F, N>>,
    took: Seq<bool>,
    n: nat,
) -> Seq<Seq<F>>
    decreases n,
{
    if n == 0 {
        Seq::empty()
    } else {
        let before = pooled_obs(opens, took, (n - 1) as nat);
        if took[n - 1] {
            before + lane_obs(opens[n - 1])
        } else {
            before
        }
    }
}

/// One round's rows of a whole pool.
pub struct Pool<F> {
    pub players: Vec<usize>,
    pub obs: Vec<F>,
    /// Where each lane's rows begin.
    pub starts: Vec<usize>,
}

/// The pool holds the rows of the searches that took part, one search after the other.
pub open spec fn pools<N: Scalar, G: Game<N>, F>(
    game: G,
    cfg: SearchConfig<N>,
    pool: Pool<F>,
    opens: Seq<SearchModel<G::State, F, N>>,
    took: Seq<bool>,
) -> bool {
    &&& pool.players@ == pooled_players(game, cfg, opens, took, opens.len())
    &&& pool.obs@ == in_line(pooled_obs(opens, took, opens.len()))
    &&& pool.starts@.len() == opens.len()
    &&& forall|i: int|
        0 <= i < opens.len() ==> (#[trigger] pool.starts@[i]) == pooled_players(
            game,
            cfg,
            opens,
            took,
            i as nat,
        ).len() && (took[i] ==> pool.starts@[i] + asked(opens[i]) <= pool.players@.len())
}

fn lay_out_lane<N: Scalar, G: Game<N>, F: Copy>(
    game: &G,
    cfg: &SearchConfig<N>,
    search: &Search<G::State, F, N>,
    players: &mut Vec<usize>,
    obs: &mut Vec<F>,
)
    requires
        search@.mid_round(),
    ensures
        final(players)@ == old(players)@ + lane_players(*game, *cfg, search@),
        final(obs)@ == old(obs)@ + in_line(lane_obs(search@)),
{
    let ghost m = search@;
    let mut i: usize = 0;
    while i < search.opp_obs.len()
        invariant
            i <= m.opp_obs.len(),
            m == search@,
            m.mid_round(),
            players@ == old(players)@ + m.opp_legal.map_values(
                |l: (usize, Seq<usize>)| l.0,
            ).take(i as int),
            obs@ == old(obs)@ + laid_out(m.opp_obs, i as nat),
        decreases m.opp_obs.len() - i,
    {
        assert(m.opp_obs[i as int] == search.opp_obs@[i as int]@);
        assert(m.opp_legal[i as int].0 == search.opp_legal@[i as int].0);
        append(obs, &search.opp_obs[i]);
        players.push(search.opp_legal[i].0);
        i = i + 1;
        assert(obs@ =~= old(obs)@ + laid_out(m.opp_obs, i as nat));
        assert(players@ =~= old(players)@ + m.opp_legal.map_values(
            |l: (usize, Seq<usize>)| l.0,
        ).take(i as int));
    }
    let mut j: usize = 0;
    while j < search.new_leaves.len()
        invariant
            j <= m.new_leaves.len(),
            m == search@,
            m.mid_round(),
            players@ == old(players)@ + (m.opp_legal.map_values(|l: (usize, Seq<usize>)| l.0)
                + leaf_players(*game, *cfg, m, j as nat)),
            obs@ == old(obs)@ + (laid_out(m.opp_obs, m.opp_obs.len()) + laid_out(
                leaf_rows(m),
                j as nat,
            )),
        decreases m.new_leaves.len() - j,
    {
        let li = search.new_leaves[j];
        assert(m.new_leaves[j as int] < m.arena.len());
        assert(leaf_rows(m)[j as int] == search.arena@[li as int]@.obs);
        append(obs, &search.arena[li].obs);
        assert(m.arena[li as int] == search.arena@[li as int]@);
        players.push(find_leaf_player(game, cfg, &search.arena[li].state, search.agent));
        j = j + 1;
        assert(obs@ =~= old(obs)@ + (laid_out(m.opp_obs, m.opp_obs.len()) + laid_out(
            leaf_rows(m),
            j as nat,
        )));
        assert(players@ =~= old(players)@ + (m.opp_legal.map_values(
            |l: (usize, Seq<usize>)| l.0,
        ) + leaf_players(*game, *cfg, m, j as nat)));
    }
    proof {
        lemma_in_line(m.opp_obs, leaf_rows(m));
    }
}

/// Pools a round's rows, lane by lane.
pub fn pool_rows<N: Scalar, G: Game<N>, F: Copy>(
    game: &G,
    cfg: &SearchConfig<N>,
    lanes: &Vec<Lane<G::State, F, N>>,
    took: &Vec<bool>,
) -> (r: Pool<F>)
    requires
        took@.len() == lanes@.len(),
        forall|i: int|
            0 <= i < lanes@.len() && took@[i] ==> (#[trigger] lanes@[i]).search@.mid_round(),
    ensures
        pools(*game, *cfg, r, lane_models(lanes@), took@),
{
    let ghost opens = lane_models(lanes@);
    let mut players: Vec<usize> = Vec::new();
    let mut obs: Vec<F> = Vec::new();
    let mut starts: Vec<usize> = Vec::new();
    let mut i: usize = 0;
    while i < lanes.len()
        invariant
            i <= lanes@.len() == took@.len(),
            starts@.len() == i,
            opens == lane_models(lanes@),
            forall|k: int|
                0 <= k < lanes@.len() && took@[k] ==> (#[trigger] lanes@[k]).search@.mid_round(),
            players@ == pooled_players(*game, *cfg, opens, took@, i as nat),
            obs@ == in_line(pooled_obs(opens, took@, i as nat)),
            forall|k: int|
                0 <= k < i ==> (#[trigger] starts@[k]) == pooled_players(
                    *game,
                    *cfg,
                    opens,
                    took@,
                    k as nat,
                ).len() && (took@[k] ==> starts@[k] + asked(opens[k]) <= players@.len()),
        decreases lanes@.len() - i,
    {
        starts.push(players.len());
        if took[i] {
            proof {
                lemma_in_line(
                    pooled_obs(opens, took@, i as nat),
                    lane_obs(opens[i as int]),
                );
            }
            lay_out_lane(game, cfg, &lanes[i].search, &mut players, &mut obs);
        }
        i = i + 1;
    }
    Pool { players, obs, starts }
}

/// The expansions that lanes have left, together.
pub open spec fn left<S, F, N>(lanes: Seq<Lane<S, F, N>>, budget: usize, n: nat) -> int
    decreases n,
{
    if n == 0 {
        0
    } else {
        left(lanes, budget, (n - 1) as nat) + (budget - lanes[n - 1].search@.stats.expansions)
    }
}

proof fn lemma_left<S, F, N: Scalar>(
    before: Seq<Lane<S, F, N>>,
    after: Seq<Lane<S, F, N>>,
    budget: usize,
    n: nat,
)
    requires
        n <= before.len(),
        before.len() == after.len(),
        forall|i: int|
            0 <= i < n ==> before[i].search@.stats.expansions <= (
            #[trigger] after[i]).search@.stats.expansions <= budget,
    ensures
        0 <= left(after, budget, n) <= left(before, budget, n),
        (exists|i: int|
            0 <= i < n && before[i].search@.stats.expansions < (
            #[trigger] after[i]).search@.stats.expansions) ==> left(after, budget, n) < left(
            before,
            budget,
            n,
        ),
    decreases n,
{
    if n > 0 {
        lemma_left(before, after, budget, (n - 1) as nat);
        assert(before[n - 1].search@.stats.expansions <= after[n - 1].search@.stats.expansions);
    }
}

/// Where the search of request `i` starts. Each request has its own stream, so its result does not
/// depend on the schedule.
pub open spec fn lane_start<S, F, N: Scalar>(
    requests: Seq<(S, usize)>,
    seed: u64,
    i: int,
) -> SearchModel<S, F, N> {
    opened(
        requests[i].0,
        requests[i].1,
        vstd::wrapping::u64_specs::wrapping_add(seed, i as u64),
    )
}

fn first_fault<S, F, N>(lanes: &Vec<Lane<S, F, N>>) -> (r: Option<(usize, Fault)>)
    ensures
        match r {
            Some((i, f)) => i < lanes@.len() && lanes@[i as int].fault == Some(f),
            None => forall|i: int|
                0 <= i < lanes@.len() ==> (#[trigger] lanes@[i]).fault is None,
        },
{
    let mut i: usize = 0;
    while i < lanes.len()
        invariant
            i <= lanes@.len(),
            forall|k: int| 0 <= k < i ==> (#[trigger] lanes@[k]).fault is None,
        decreases lanes@.len() - i,
    {
        match lanes[i].fault {
            Some(f) => return Some((i, f)),
            None => {},
        }
        i = i + 1;
    }
    None
}

fn active_lanes<S, F, N: Scalar>(lanes: &Vec<Lane<S, F, N>>, budget: usize) -> (r: (
    Vec<bool>,
    usize,
))
    ensures
        r.0@.len() == lanes@.len(),
        forall|i: int|
            0 <= i < lanes@.len() ==> #[trigger] r.0@[i] == lanes@[i].search@.active(budget),
        r.1 == 0 <==> forall|i: int| 0 <= i < lanes@.len() ==> !#[trigger] r.0@[i],
        r.1 <= lanes@.len(),
{
    let mut took: Vec<bool> = Vec::new();
    let mut n: usize = 0;
    let mut i: usize = 0;
    while i < lanes.len()
        invariant
            i <= lanes@.len(),
            took@.len() == i,
            n <= i,
            forall|k: int|
                0 <= k < i ==> #[trigger] took@[k] == lanes@[k].search@.active(budget),
            n == 0 <==> forall|k: int| 0 <= k < i ==> !#[trigger] took@[k],
        decreases lanes@.len() - i,
    {
        let due = lanes[i].search.active(budget);
        let ghost before = took@;
        took.push(due);
        proof {
            if n > 0 {
                let k = choose|k: int| 0 <= k < i && #[trigger] before[k];
                assert(took@[k]);
            }
            assert(took@[i as int] == due);
        }
        if due {
            n = n + 1;
        }
        i = i + 1;
    }
    (took, n)
}

fn open_lanes<S, F, N: Scalar>(requests: Vec<(S, usize)>, seed: u64) -> (r: Vec<Lane<S, F, N>>)
    ensures
        r@.len() == requests@.len(),
        forall|i: int|
            0 <= i < r@.len() ==> (#[trigger] r@[i]).fault is None && r@[i].search@ == lane_start::<
                S,
                F,
                N,
            >(requests@, seed, i) && (forall|budget: usize| #[trigger]
                r@[i].search@.wf(budget)),
{
    let ghost all = requests@;
    let n = requests.len();
    let mut lanes: Vec<Lane<S, F, N>> = Vec::new();
    let mut i: usize = 0;
    for req in it: requests
        invariant
            it.seq() == all,
            i == it.index(),
            all.len() == n,
            lanes@.len() == i,
            forall|k: int|
                0 <= k < i ==> (#[trigger] lanes@[k]).fault is None && lanes@[k].search@
                    == lane_start::<S, F, N>(all, seed, k) && (forall|budget: usize| #[trigger]
                    lanes@[k].search@.wf(budget)),
    {
        assert(req == all[i as int]);
        lanes.push(
            Lane { search: Search::new(req.0, req.1, seed.wrapping_add(i as u64)), fault: None },
        );
        i = i + 1;
    }
    lanes
}

/// What keeps a search from being run at all.
pub open spec fn unsearchable<N: Scalar, G: Game<N>>(game: G) -> Option<Fault> {
    if game.spec_num_agents() == 0 {
        Some(Fault::NoAgents)
    } else if !game.spec_perfect_information() {
        Some(Fault::HiddenInformation)
    } else {
        None
    }
}

/// The head count of a pool's answer: how many whole rows of `a` numbers there are for each
/// observation.
pub open spec fn head_count(len: nat, n_rows: nat, a: nat) -> nat {
    len / n_rows / a
}

proof fn lemma_head_count(len: nat, n_rows: nat, a: nat)
    requires
        n_rows > 0,
        a > 0,
    ensures
        n_rows * (head_count(len, n_rows, a) * a) <= len,
        head_count(len, n_rows, a) * a <= len,
{
    let per = len / n_rows;
    let k = per / a;
    assert(k * a <= per && per <= len && n_rows * (k * a) <= len) by (nonlinear_arith)
        requires
            per == len / n_rows,
            k == per / a,
            n_rows > 0,
            a > 0,
    ;
}

/// A lane whose round was opened, if one was due.
pub open spec fn lane_opened<
    N: Scalar,
    G: Game<N>,
    E: StateEncoder<State = G::State>,
    W: Reward<N, Event = G::Event>,
>(
    ctx: Ctx<N, G, E, W>,
    before: Lane<G::State, E::Feature, N>,
    after: Lane<G::State, E::Feature, N>,
    took: bool,
    first: bool,
) -> bool {
    &&& lane_ready(after, ctx.cfg.expansion_budget)
    &&& took ==> {
        &&& after.search@.mid_round()
        &&& after.search@.stats.expansions > before.search@.stats.expansions
        &&& spec_expand_round(ctx, before.search@, first) == Ok::<_, Fault>(after.search@)
    }
    &&& !took ==> after.search@ == before.search@
}

/// The rounds of `n` searches come to an end: each round expands something, or there is nothing to
/// expand.
pub open spec fn rounds_end<N>(cfg: SearchConfig<N>, n: nat) -> bool {
    cfg.top_k > 0 || cfg.expansion_budget == 0 || n == 0
}

fn open_pool<
    N: Scalar,
    G: Game<N> + Sync,
    E: StateEncoder<State = G::State> + Sync,
    W: Reward<N, Event = G::Event> + Sync,
>(
    lanes: &mut Vec<Lane<G::State, E::Feature, N>>,
    took: &Vec<bool>,
    parallel: bool,
    ctx: &Ctx<N, G, E, W>,
    first: bool,
) -> (r: Result<(), Fault>) where G::State: Send, E::Feature: Send
    requires
        rounds_end(ctx.cfg, old(lanes)@.len()),
        took@.len() == old(lanes)@.len(),
        forall|i: int|
            0 <= i < old(lanes)@.len() ==> lane_ready(
                #[trigger] old(lanes)@[i],
                ctx.cfg.expansion_budget) && took@[i] == old(lanes)@[i].search@.active(ctx.cfg.expansion_budget),
    ensures
        final(lanes)@.len() == old(lanes)@.len(),
        match r {
            Ok(_) => forall|i: int|
                0 <= i < old(lanes)@.len() ==> lane_opened(
                    *ctx,
                    old(lanes)@[i],
                    #[trigger] final(lanes)@[i],
                    took@[i],
                    first,
                ),
            Err(f) => exists|i: int|
                0 <= i < old(lanes)@.len() && took@[i] && spec_expand_round(
                    *ctx,
                    (#[trigger] old(lanes)@[i]).search@,
                    first,
                ) == Err::<SearchModel<G::State, E::Feature, N>, _>(f),
        },
{
    let opener = OpenRound { ctx, first };
    let ghost before = lanes@;
    run_all(lanes, parallel, &opener);
    match first_fault(lanes) {
        Some((i, f)) => {
            assert(opener.did(i as int, before[i as int], lanes@[i as int]));
            assert(lane_ready(
                before[i as int],
                ctx.cfg.expansion_budget));
            Err(f)
        },
        None => {
            assert forall|i: int| 0 <= i < before.len() implies lane_opened(
                *ctx,
                before[i],
                #[trigger] lanes@[i],
                took@[i],
                first,
            ) by {
                assert(opener.did(i, before[i], lanes@[i]));
                assert(lane_ready(
                    before[i],
                    ctx.cfg.expansion_budget));
            }
            Ok(())
        },
    }
}

fn close_pool<
    N: Scalar,
    G: Game<N> + Sync,
    E: StateEncoder<State = G::State> + Sync,
    W: Reward<N, Event = G::Event> + Sync,
    X: Exp<N> + Sync,
    I: Infer<E::Feature, N>,
>(
    lanes: &mut Vec<Lane<G::State, E::Feature, N>>,
    took: &Vec<bool>,
    parallel: bool,
    ctx: &Ctx<N, G, E, W>,
    exp: &X,
    infer: I,
) -> (r: (Result<(), Fault>, I)) where G::State: Send, E::Feature: Send
    requires
        took@.len() == old(lanes)@.len(),
        forall|i: int|
            0 <= i < old(lanes)@.len() ==> lane_ready(
                #[trigger] old(lanes)@[i],
                ctx.cfg.expansion_budget,
            ) && (took@[i] ==> old(lanes)@[i].search@.mid_round()),
    ensures
        final(lanes)@.len() == old(lanes)@.len(),
        match r.0 {
            Ok(_) => {
                &&& pool_closed(
                    *ctx,
                    *exp,
                    lane_models(old(lanes)@),
                    took@,
                    (infer, r.1),
                    lane_models(final(lanes)@),
                )
                &&& forall|i: int|
                    0 <= i < old(lanes)@.len() ==> lane_ready(
                        #[trigger] final(lanes)@[i],
                        ctx.cfg.expansion_budget,
                    ) && final(lanes)@[i].search@.stats.expansions
                        == old(lanes)@[i].search@.stats.expansions
            },
            Err(f) => pool_unclosed(*ctx, *exp, lane_models(old(lanes)@), took@, infer, f),
        },
{
    let a = ctx.game.action_count();
    let ghost before = lanes@;
    let ghost opens = lane_models(before);
    let pool = pool_rows(ctx.game, &ctx.cfg, lanes, took);
    let n_rows = pool.players.len();
    if n_rows == 0 {
        return (Ok(()), infer);
    }
    if a == 0 {
        return (Err(Fault::ActionRange), infer);
    }
    let ghost players = pool.players@;
    let Pool { players: asked_for, obs: asked_rows, starts } = pool;
    let (after, q) = infer.infer(&asked_for, asked_rows, n_rows);
    let k = q.len() / n_rows / a;
    let ghost stride = (k * a) as nat;
    proof {
        lemma_head_count(q@.len(), n_rows as nat, a as nat);
        assert(infers(
            infer,
            players,
            pooled_obs(opens, took@, opens.len()),
            q@,
            after,
        ));
        assert(pool_asked(*ctx.game, ctx.cfg, opens, took@, infer, q@, after));
        assert(k == pool_heads(*ctx.game, ctx.cfg, opens, took@, q@));
    }
    let closer = CloseRound {
        ctx,
        exp,
        rows: q.as_slice(),
        took,
        starts: &starts,
        k,
        total: n_rows,
    };
    assert forall|i: int| 0 <= i < before.len() implies closer.ready(i, #[trigger] lanes@[i]) by {
        assert(opens[i] == before[i].search@);
        assert(starts@[i] == pooled_players(
            *ctx.game,
            ctx.cfg,
            opens,
            took@,
            i as nat,
        ).len());
    }
    run_all(lanes, parallel, &closer);
    assert forall|i: int| 0 <= i < before.len() implies pool_answer(
        *ctx.game,
        ctx.cfg,
        opens,
        took@,
        q@,
        i,
    ) == lane_rows(
        q@,
        (#[trigger] starts@[i]) as nat,
        asked(before[i].search@),
        stride,
    ) by {
        assert(opens[i] == before[i].search@);
    }
    match first_fault(lanes) {
        Some((i, f)) => {
            proof {
                let i = i as int;
                assert(closer.did(i, before[i], lanes@[i]));
                assert(lane_ready(before[i], ctx.cfg.expansion_budget));
                assert(starts@[i] + asked(opens[i]) <= n_rows);
                assert(opens[i] == before[i].search@);
                assert(asks(opens, took@, i));
                assert(refuses(
                    *ctx,
                    *exp,
                    opens[i],
                    pool_answer(*ctx.game, ctx.cfg, opens, took@, q@, i),
                    pool_heads(*ctx.game, ctx.cfg, opens, took@, q@),
                    f,
                ));
            }
            (Err(f), after)
        },
        None => {
            proof {
                let next = lane_models(lanes@);
                assert forall|i: int| 0 <= i < opens.len() implies if asks(opens, took@, i) {
                    taken_in(
                        *ctx,
                        *exp,
                        opens[i],
                        pool_answer(*ctx.game, ctx.cfg, opens, took@, q@, i),
                        pool_heads(*ctx.game, ctx.cfg, opens, took@, q@),
                        #[trigger] next[i],
                    )
                } else {
                    next[i] == opens[i]
                } by {
                    assert(closer.did(i, before[i], lanes@[i]));
                    assert(opens[i] == before[i].search@);
                    assert(starts@[i] == starts@[i]);
                }
                assert(closed_all(*ctx, *exp, opens, took@, q@, next));
                let nets = (infer, after);
                assert(pool_asked(*ctx.game, ctx.cfg, opens, took@, nets.0, q@, nets.1));
                assert(pool_closed(*ctx, *exp, opens, took@, nets, next));
                assert forall|i: int| 0 <= i < before.len() implies lane_ready(
                    #[trigger] lanes@[i],
                    ctx.cfg.expansion_budget,
                ) && lanes@[i].search@.stats.expansions == before[i].search@.stats.expansions by {
                    assert(closer.did(i, before[i], lanes@[i]));
                    assert(lane_ready(before[i], ctx.cfg.expansion_budget));
                }
            }
            (Ok(()), after)
        },
    }
}

/// Plays rounds for as long as a search is due.
fn run_rounds<
    N: Scalar,
    G: Game<N> + Sync,
    E: StateEncoder<State = G::State> + Sync,
    W: Reward<N, Event = G::Event> + Sync,
    X: Exp<N> + Sync,
    I: Infer<E::Feature, N>,
>(
    lanes: &mut Vec<Lane<G::State, E::Feature, N>>,
    ctx: &Ctx<N, G, E, W>,
    exp: &X,
    infer: I,
) -> (r: (Result<(), Fault>, I)) where G::State: Send, E::Feature: Send
    requires
        rounds_end(ctx.cfg, old(lanes)@.len()),
        forall|i: int|
            0 <= i < old(lanes)@.len() ==> lane_ready(
                #[trigger] old(lanes)@[i],
                ctx.cfg.expansion_budget,
            ),
    ensures
        final(lanes)@.len() == old(lanes)@.len(),
        match r.0 {
            Ok(_) => {
                &&& exists|stages: Seq<Stage<G::State, E::Feature, N, I>>| #[trigger]
                    rounds_played(
                        *ctx,
                        *exp,
                        Stage { searches: lane_models(old(lanes)@), net: infer },
                        stages,
                    ) && stages.last() == (Stage {
                        searches: lane_models(final(lanes)@),
                        net: r.1,
                    })
                &&& !any_due(due(lane_models(final(lanes)@), ctx.cfg.expansion_budget))
                &&& forall|i: int|
                    0 <= i < final(lanes)@.len() ==> lane_ready(
                        #[trigger] final(lanes)@[i],
                        ctx.cfg.expansion_budget,
                    )
            },
            Err(f) => exists|stages: Seq<Stage<G::State, E::Feature, N, I>>| #[trigger]
                rounds_played(
                    *ctx,
                    *exp,
                    Stage { searches: lane_models(old(lanes)@), net: infer },
                    stages,
                ) && any_due(due(stages.last().searches, ctx.cfg.expansion_budget))
                    && round_unplayed(*ctx, *exp, stages.len() == 1, stages.last(), f),
        },
{
    let budget = ctx.cfg.expansion_budget;
    let mut current = infer;
    let ghost start = Stage { searches: lane_models(lanes@), net: infer };
    let ghost mut stages: Seq<Stage<G::State, E::Feature, N, I>> = seq![start];
    let mut first = true;
    let (mut took, mut n_active) = active_lanes(lanes, budget);
    while n_active > 0
        invariant
            rounds_end(ctx.cfg, lanes@.len()),
            lanes@.len() == old(lanes)@.len(),
            budget == ctx.cfg.expansion_budget,
            start == (Stage { searches: lane_models(old(lanes)@), net: infer }),
            rounds_played(*ctx, *exp, start, stages),
            stages.last() == (Stage { searches: lane_models(lanes@), net: current }),
            first == (stages.len() == 1),
            forall|i: int|
                0 <= i < lanes@.len() ==> lane_ready(
                    #[trigger] lanes@[i],
                    ctx.cfg.expansion_budget,
                ),
            took@.len() == lanes@.len(),
            forall|i: int|
                0 <= i < lanes@.len() ==> #[trigger] took@[i] == lanes@[i].search@.active(budget),
            n_active == 0 <==> forall|i: int| 0 <= i < lanes@.len() ==> !#[trigger] took@[i],
        decreases left(lanes@, budget, lanes@.len()),
    {
        let parallel = n_active >= 2;
        let ghost before = lanes@;
        let ghost a = stages.last();
        let ghost goes = due(a.searches, budget);
        proof {
            assert(goes =~= took@);
            let j = choose|j: int| 0 <= j < before.len() && #[trigger] took@[j];
            assert(goes[j]);
        }
        match open_pool(lanes, &took, parallel, ctx, first) {
            Ok(_) => {},
            Err(f) => {
                proof {
                    let i = choose|i: int|
                        0 <= i < before.len() && took@[i] && spec_expand_round(
                            *ctx,
                            (#[trigger] before[i]).search@,
                            first,
                        ) == Err::<SearchModel<G::State, E::Feature, N>, _>(f);
                    assert(a.searches[i] == before[i].search@);
                    assert(round_unplayed(*ctx, *exp, first, a, f));
                }
                return (Err(f), current);
            },
        }
        let ghost open = lanes@;
        let ghost opens = lane_models(open);
        proof {
            assert forall|i: int| 0 <= i < open.len() implies lane_ready(
                #[trigger] open[i],
                ctx.cfg.expansion_budget,
            ) && (took@[i] ==> open[i].search@.mid_round()) by {
                assert(lane_opened(*ctx, before[i], open[i], took@[i], first));
            }
            assert forall|i: int| 0 <= i < before.len() implies if a.searches[i].active(budget) {
                &&& spec_expand_round(*ctx, a.searches[i], first) == Ok::<_, Fault>(
                    #[trigger] opens[i],
                )
                &&& opens[i].mid_round()
            } else {
                opens[i] == a.searches[i]
            } by {
                assert(lane_opened(*ctx, before[i], open[i], took@[i], first));
                assert(a.searches[i] == before[i].search@);
            }
            assert(opened_all(*ctx, first, a.searches, opens));
            assert forall|i: int| 0 <= i < a.searches.len() implies (#[trigger] a.searches[i]).wf(
                budget,
            ) by {
                assert(lane_ready(before[i], budget));
            }
        }
        let (closed, next) = close_pool(lanes, &took, parallel, ctx, exp, current);
        current = next;
        match closed {
            Ok(_) => {},
            Err(f) => {
                assert(round_unplayed(*ctx, *exp, first, a, f));
                return (Err(f), current);
            },
        }
        proof {
            let b = Stage { searches: lane_models(lanes@), net: current };
            assert(pool_closed(*ctx, *exp, opens, goes, (a.net, b.net), b.searches));
            assert(round_played(*ctx, *exp, first, a, b));
            let longer = stages.push(b);
            assert forall|j: int| 0 <= j < longer.len() - 1 implies #[trigger] round_at(
                *ctx,
                *exp,
                longer,
                j,
            ) by {
                if j < stages.len() - 1 {
                    assert(round_at(*ctx, *exp, stages, j));
                    assert(longer[j] == stages[j] && longer[j + 1] == stages[j + 1]);
                } else {
                    assert(longer[j] == a && longer[j + 1] == b);
                }
            }
            stages = longer;
            assert forall|i: int|
                0 <= i < before.len() implies before[i].search@.stats.expansions <= (
            #[trigger] lanes@[i]).search@.stats.expansions <= budget by {
                assert(lane_opened(*ctx, before[i], open[i], took@[i], first));
            }
            lemma_left(before, lanes@, budget, before.len());
            let j = choose|j: int| 0 <= j < before.len() && #[trigger] took@[j];
            assert(lane_opened(*ctx, before[j], open[j], took@[j], first));
            assert(before[j].search@.stats.expansions < lanes@[j].search@.stats.expansions);
        }
        first = false;
        let again = active_lanes(lanes, budget);
        took = again.0;
        n_active = again.1;
    }
    proof {
        let goes = due(lane_models(lanes@), budget);
        assert forall|i: int| 0 <= i < goes.len() implies !#[trigger] goes[i] by {
            assert(!took@[i]);
        }
    }
    (Ok(()), current)
}

/// What the lanes of a pool say, each in its place.
fn read_pool<
    N: Scalar,
    G: Game<N> + Sync,
    E: StateEncoder<State = G::State> + Sync,
    W: Reward<N, Event = G::Event> + Sync,
>(
    lanes: Vec<Lane<G::State, E::Feature, N>>,
    ctx: &Ctx<N, G, E, W>,
    collect_interior: bool,
) -> (r: Result<Vec<SearchResult<E::Feature, N>>, Fault>) where G::State: Send, E::Feature: Send
    requires
        forall|i: int|
            0 <= i < lanes@.len() ==> lane_ready(#[trigger] lanes@[i], ctx.cfg.expansion_budget),
    ensures
        match r {
            Ok(out) => read_off(
                *ctx.game,
                ctx.cfg,
                lane_models(lanes@),
                collect_interior,
                all_said(out@),
            ),
            Err(f) => exists|i: int|
                0 <= i < lanes@.len() && spec_finish(
                    *ctx.game,
                    ctx.cfg,
                    #[trigger] lane_models(lanes@)[i],
                    collect_interior,
                ) == Err::<Said<E::Feature, N>, _>(f),
        },
{
    let ghost done = lanes@;
    let ghost searches = lane_models(done);
    let reader = Finish { ctx, collect_interior };
    assert forall|i: int| 0 <= i < done.len() implies reader.readable(#[trigger] done[i]) by {
        assert(lane_ready(done[i], ctx.cfg.expansion_budget));
    }
    let read = read_all(lanes, &reader);
    let ghost all = read@;
    let n = read.len();
    let mut out: Vec<SearchResult<E::Feature, N>> = Vec::new();
    let mut i: usize = 0;
    for one in it: read
        invariant
            it.seq() == all,
            i == it.index(),
            out@.len() == i,
            all.len() == n == done.len(),
            searches == lane_models(done),
            forall|k: int| 0 <= k < done.len() ==> reader.reads(done[k], #[trigger] all[k]),
            forall|k: int|
                0 <= k < done.len() ==> lane_ready(#[trigger] done[k], ctx.cfg.expansion_budget),
            reader == (Finish { ctx, collect_interior }),
            done == lanes@,
            forall|k: int|
                0 <= k < i ==> {
                    &&& searches[k].stats.rounds <= searches[k].stats.expansions
                        <= ctx.cfg.expansion_budget
                    &&& spec_finish(*ctx.game, ctx.cfg, searches[k], collect_interior) == Ok::<
                        _,
                        Fault,
                    >(result_model(#[trigger] out@[k]))
                },
    {
        assert(one == all[i as int]);
        assert(reader.reads(done[i as int], all[i as int]));
        assert(searches[i as int] == done[i as int].search@);
        match one {
            Ok(result) => {
                out.push(result);
            },
            Err(f) => {
                assert(spec_finish(
                    *ctx.game,
                    ctx.cfg,
                    lane_models(done)[i as int],
                    collect_interior,
                ) == Err::<Said<E::Feature, N>, _>(f));
                return Err(f);
            },
        }
        i = i + 1;
    }
    assert forall|k: int| 0 <= k < all_said(out@).len() implies {
        &&& searches[k].stats.rounds <= searches[k].stats.expansions <= ctx.cfg.expansion_budget
        &&& spec_finish(*ctx.game, ctx.cfg, searches[k], collect_interior) == Ok::<_, Fault>(
            #[trigger] all_said(out@)[k],
        )
    } by {
        assert(result_model(out@[k]) == result_model(out@[k]));
    }
    Ok(out)
}

/// What searches say.
pub open spec fn all_said<F, N>(out: Seq<SearchResult<F, N>>) -> Seq<Said<F, N>> {
    Seq::new(out.len(), |i: int| result_model(out[i]))
}

proof fn lemma_searched<
    N: Scalar,
    G: Game<N>,
    E: StateEncoder<State = G::State>,
    W: Reward<N, Event = G::Event>,
    X: Exp<N>,
    I: Infer<E::Feature, N>,
>(
    ctx: Ctx<N, G, E, W>,
    exp: X,
    nets: (I, I),
    requests: Seq<(G::State, usize)>,
    seed: u64,
    collect_interior: bool,
    stages: Seq<Stage<G::State, E::Feature, N, I>>,
    out: Seq<Said<E::Feature, N>>,
)
    requires
        rounds_played(ctx, exp, pool_start(requests, seed, nets.0), stages),
        stages.last().net == nets.1,
        out.len() == requests.len(),
        !any_due(due(stages.last().searches, ctx.cfg.expansion_budget)),
        read_off(*ctx.game, ctx.cfg, stages.last().searches, collect_interior, out),
    ensures
        searched(ctx, exp, nets, requests, seed, collect_interior, out),
{
}

/// Runs searches in lockstep and pools each round's network rows: one call of the network for each
/// round in which a row is asked for.
pub fn search_many<
    N: Scalar,
    G: Game<N> + Sync,
    E: StateEncoder<State = G::State> + Sync,
    W: Reward<N, Event = G::Event> + Sync,
    X: Exp<N> + Sync,
    I: Infer<E::Feature, N>,
>(
    game: &G,
    enc: &E,
    reward: &W,
    cfg: &SearchConfig<N>,
    requests: Vec<(G::State, usize)>,
    collect_interior: bool,
    seed: u64,
    exp: &X,
    infer: I,
) -> (r: (Result<Vec<SearchResult<E::Feature, N>>, Fault>, I)) where G::State: Send, E::Feature: Send
    requires
        rounds_end(*cfg, requests@.len()),
    ensures
        unsearchable(*game) matches Some(f) ==> r.0 == Err::<Vec<SearchResult<E::Feature, N>>, _>(f)
            && r.1 == infer,
        unsearchable(*game) is None ==> match r.0 {
            Ok(out) => searched(
                Ctx { game, enc, reward, cfg: *cfg },
                *exp,
                (infer, r.1),
                requests@,
                seed,
                collect_interior,
                all_said(out@),
            ),
            Err(f) => search_fails(
                Ctx { game, enc, reward, cfg: *cfg },
                *exp,
                infer,
                requests@,
                seed,
                collect_interior,
                f,
            ),
        },
{
    if game.num_agents() == 0 {
        return (Err(Fault::NoAgents), infer);
    }
    if !game.perfect_information() {
        return (Err(Fault::HiddenInformation), infer);
    }
    let ctx = Ctx { game, enc, reward, cfg: *cfg };
    let ghost wanted = requests@;
    let mut lanes: Vec<Lane<G::State, E::Feature, N>> = open_lanes(requests, seed);
    let ghost start = pool_start::<G::State, E::Feature, N, I>(wanted, seed, infer);
    assert(lane_models(lanes@) =~= start.searches);
    let (ran, after) = run_rounds(&mut lanes, &ctx, exp, infer);
    match ran {
        Ok(_) => {},
        Err(f) => return (Err(f), after),
    }
    let ghost stages = choose|stages: Seq<Stage<G::State, E::Feature, N, I>>| #[trigger]
        rounds_played(ctx, *exp, start, stages) && stages.last() == (Stage {
            searches: lane_models(lanes@),
            net: after,
        });
    let r = read_pool(lanes, &ctx, collect_interior);
    match r {
        Ok(out) => {
            proof {
                let nets = (infer, after);
                let said = all_said(out@);
                lemma_searched(ctx, *exp, nets, wanted, seed, collect_interior, stages, said);
            }
            (Ok(out), after)
        },
        Err(f) => {
            assert(rounds_played(ctx, *exp, pool_start(wanted, seed, infer), stages));
            assert(search_fails(ctx, *exp, infer, wanted, seed, collect_interior, f));
            (Err(f), after)
        },
    }
}

} // verus!
