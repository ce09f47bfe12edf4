//! Many searches run together, the network rows of each round asked for at once.
//!
//! A tree lives by turns: it simulates until it asks for rows; each ask is answered from a cache at
//! once or staged in the round's batch; staged rows are delivered when the batch has been
//! committed. What becomes of a tree depends on its own turns alone, whatever it was pooled with.

use vstd::prelude::*;

use super::grow::Ctx;
use super::read::{consume, read_row, role_actions, row_role};
#[allow(unused_imports)]
use super::read::{
    prior_view, role_of, row_read, row_unread, same_accounts, spec_consume, table_actions,
};
use super::select::Guidance;
#[allow(unused_imports)]
use super::simulate::{counted, spec_simulate};
use super::tree::Tree;
#[allow(unused_imports)]
use super::tree::TreeModel;
use crate::encoder::StateEncoder;
use crate::fault::Fault;
use crate::game::Game;
use crate::num::Scalar;
use crate::policies::tree::expectimax::evaluate::Exp;
use crate::reward::Reward;
use crate::rng::{GammaSource, SplitMix64};
#[allow(unused_imports)]
use crate::util::matrix;

verus! {

/// The answer to a row that was asked for: known already, or staged under a ticket.
pub enum Resolve<N> {
    Resolved(Vec<N>),
    Staged(usize),
}

/// An answer as a mathematical value.
#[verifier::ext_equal]
pub enum Reply<N> {
    Resolved(Seq<N>),
    Staged(usize),
}

impl<N> View for Resolve<N> {
    type V = Reply<N>;

    open spec fn view(&self) -> Reply<N> {
        match self {
            Resolve::Resolved(row) => Reply::Resolved(row@),
            Resolve::Staged(ticket) => Reply::Staged(*ticket),
        }
    }
}

/// A round's batch of network rows. An ask hands the batch on, and with it the answer.
pub trait Batch<F, N>: Sized {
    fn is_empty(&self) -> bool;

    fn resolve_or_stage(self, player: usize, obs: &[F]) -> (Self, Resolve<N>);

    /// The rows of the tickets given out, in their order, and the batch for the next round.
    fn commit(self) -> (Self, Vec<Vec<N>>);
}

/// A batch is asked for a row, answers, and is handed on.
pub open spec fn answers<F, N, B: Batch<F, N>>(
    before: B,
    player: usize,
    obs: Seq<F>,
    reply: Reply<N>,
    after: B,
) -> bool {
    exists|row: &[F], answer: Resolve<N>|
        row@ == obs && answer@ == reply && #[trigger] call_ensures(
            B::resolve_or_stage,
            (before, player, row),
            (after, answer),
        )
}

/// A batch is committed, gives its rows, and is handed on.
pub open spec fn commits<F, N, B: Batch<F, N>>(before: B, rows: Seq<Seq<N>>, after: B) -> bool {
    exists|given: Vec<Vec<N>>|
        matrix(given@) == rows && #[trigger] call_ensures(B::commit, (before,), (after, given))
}

/// What a pool consults and never changes.
pub struct Rules<'a, N, G, E, W, X, M> {
    pub ctx: Ctx<'a, N, G, E, W>,
    pub exp: &'a X,
    pub gammas: &'a M,
    pub actions: usize,
    pub num_simulations: usize,
}

/// A tree in a round: what it has still to ask, what has been staged for it, as ticket, node and
/// row, how many tickets the round has given out, and the round's batch.
#[verifier::ext_equal]
pub struct Life<S, F, N, B> {
    pub m: TreeModel<S, F, N>,
    pub asks: Seq<(usize, usize)>,
    pub due: Seq<(usize, usize, usize)>,
    pub tickets: usize,
    pub batch: B,
}

/// Whether all agents' priors at the root are noised.
pub open spec fn noises_all<N>(guidance: Guidance<N>) -> bool {
    match guidance {
        Guidance::Uct { .. } => false,
        Guidance::Puct { noise_all, .. } => noise_all,
    }
}

/// The actions that a row of node `ni` speaks of.
pub open spec fn row_actions<S, F, N>(m: TreeModel<S, F, N>, ni: usize, table: usize) -> Seq<
    usize,
> {
    let tables = m.arena[ni as int].tables;
    if table < tables.len() {
        table_actions(tables[table as int])
    } else {
        Seq::empty()
    }
}

/// What row `slot` of node `ni` may be read as.
pub open spec fn read_at<
    N: Scalar,
    G: Game<N>,
    E: StateEncoder<State = G::State>,
    W: Reward<N, Event = G::Event>,
    X: Exp<N>,
    M: GammaSource<N, SplitMix64>,
>(
    rules: Rules<N, G, E, W, X, M>,
    ti: usize,
    m: TreeModel<G::State, E::Feature, N>,
    ni: usize,
    slot: usize,
    row: Seq<N>,
    value: N,
    prior: Option<Seq<N>>,
) -> bool {
    let role = role_of(m, ni, slot, noises_all(rules.ctx.guidance));
    ni < m.arena.len() && row_read(
        *rules.ctx.enc,
        *rules.exp,
        *rules.gammas,
        rules.ctx.guidance,
        rules.actions as nat,
        role,
        ti,
        slot,
        row_actions(m, ni, role.table),
        row,
        value,
        prior,
    )
}

/// `next` is a tree that has taken in row `slot` of node `ni`.
pub open spec fn took_in<
    N: Scalar,
    G: Game<N>,
    E: StateEncoder<State = G::State>,
    W: Reward<N, Event = G::Event>,
    X: Exp<N>,
    M: GammaSource<N, SplitMix64>,
>(
    rules: Rules<N, G, E, W, X, M>,
    ti: usize,
    m: TreeModel<G::State, E::Feature, N>,
    ni: usize,
    slot: usize,
    row: Seq<N>,
    next: TreeModel<G::State, E::Feature, N>,
) -> bool {
    exists|value: N, prior: Option<Seq<N>>| #[trigger]
        read_at(rules, ti, m, ni, slot, row, value, prior) && spec_consume(
            rules.ctx.gamma,
            m,
            ni,
            slot,
            value,
            prior,
        ) == Ok::<_, Fault>(next)
}

/// Why a row cannot be taken in.
pub open spec fn refused<
    N: Scalar,
    G: Game<N>,
    E: StateEncoder<State = G::State>,
    W: Reward<N, Event = G::Event>,
    X: Exp<N>,
    M: GammaSource<N, SplitMix64>,
>(
    rules: Rules<N, G, E, W, X, M>,
    ti: usize,
    m: TreeModel<G::State, E::Feature, N>,
    ni: usize,
    slot: usize,
    row: Seq<N>,
    f: Fault,
) -> bool {
    let role = role_of(m, ni, slot, noises_all(rules.ctx.guidance));
    ||| ni >= m.arena.len() && f == Fault::Tree
    ||| ni < m.arena.len() && row_unread(
        *rules.ctx.enc,
        rules.ctx.guidance,
        rules.actions as nat,
        role,
        row_actions(m, ni, role.table),
        row,
        f,
    )
    ||| exists|value: N, prior: Option<Seq<N>>| #[trigger]
        read_at(rules, ti, m, ni, slot, row, value, prior) && spec_consume(
            rules.ctx.gamma,
            m,
            ni,
            slot,
            value,
            prior,
        ) == Err::<TreeModel<G::State, E::Feature, N>, _>(f)
}

/// Takes a network row in: reads it, writes it into its node, and does the work that waited for it.
pub fn consume_row<
    N: Scalar,
    G: Game<N>,
    E: StateEncoder<State = G::State>,
    W: Reward<N, Event = G::Event>,
    X: Exp<N>,
    M: GammaSource<N, SplitMix64>,
>(
    t: &mut Tree<G::State, E::Feature, N>,
    rules: &Rules<N, G, E, W, X, M>,
    ti: usize,
    ni: usize,
    slot: usize,
    row: &[N],
) -> (r: Result<(), Fault>)
    ensures
        match r {
            Ok(_) => took_in(*rules, ti, old(t)@, ni, slot, row@, final(t)@) && same_accounts(
                old(t)@,
                final(t)@,
            ),
            Err(f) => refused(*rules, ti, old(t)@, ni, slot, row@, f),
        },
{
    if ni >= t.arena.len() {
        return Err(Fault::Tree);
    }
    assert(t@.arena[ni as int] == t.arena@[ni as int]@);
    let noise_all = match rules.ctx.guidance {
        Guidance::Uct { .. } => false,
        Guidance::Puct { noise_all, .. } => noise_all,
    };
    let role = row_role(t, ni, slot, noise_all);
    let actions = role_actions(&t.arena[ni], role.table);
    let (value, prior) = match read_row(
        rules.ctx.enc,
        rules.exp,
        rules.gammas,
        &rules.ctx.guidance,
        rules.actions,
        &role,
        ti,
        slot,
        &actions,
        row,
    ) {
        Ok(reading) => reading,
        Err(f) => return Err(f),
    };
    assert(read_at(*rules, ti, t@, ni, slot, row@, value, prior_view(prior)));
    consume(t, rules.ctx.gamma, ni, slot, value, &prior)
}

/// A simulation.
pub open spec fn simulated<
    N: Scalar,
    G: Game<N>,
    E: StateEncoder<State = G::State>,
    W: Reward<N, Event = G::Event>,
    X: Exp<N>,
    M: GammaSource<N, SplitMix64>,
    B: Batch<E::Feature, N>,
>(
    rules: Rules<N, G, E, W, X, M>,
    a: Life<G::State, E::Feature, N, B>,
    b: Life<G::State, E::Feature, N, B>,
) -> bool {
    &&& a.asks.len() == 0
    &&& a.due.len() == 0
    &&& a.m.sims < rules.num_simulations
    &&& spec_simulate(rules.ctx, a.m) == Ok::<_, Fault>((b.m, b.asks))
    &&& b.due == a.due
    &&& b.tickets == a.tickets
    &&& b.batch == a.batch
}

/// The row that is asked for next.
pub open spec fn next_row<S, F, N, B>(a: Life<S, F, N, B>) -> (usize, Seq<F>) {
    a.m.arena[a.asks[0].0 as int].rows[a.asks[0].1 as int]
}

/// There is a row to ask for next.
pub open spec fn asking<S, F, N, B>(a: Life<S, F, N, B>) -> bool {
    &&& a.asks.len() > 0
    &&& a.asks[0].0 < a.m.arena.len()
    &&& a.asks[0].1 < a.m.arena[a.asks[0].0 as int].rows.len()
}

/// The next row is asked for, and answered so.
pub open spec fn heard<S, F, N, B: Batch<F, N>>(
    a: Life<S, F, N, B>,
    reply: Reply<N>,
    after: B,
) -> bool {
    asking(a) && answers(a.batch, next_row(a).0, next_row(a).1, reply, after)
}

/// A tree that has one more cache hit.
pub open spec fn with_hit<S, F, N>(m: TreeModel<S, F, N>) -> TreeModel<S, F, N> {
    TreeModel { hit_rows: (m.hit_rows + 1) as usize, ..m }
}

/// An ask that was answered at once.
pub open spec fn hit<
    N: Scalar,
    G: Game<N>,
    E: StateEncoder<State = G::State>,
    W: Reward<N, Event = G::Event>,
    X: Exp<N>,
    M: GammaSource<N, SplitMix64>,
    B: Batch<E::Feature, N>,
>(
    rules: Rules<N, G, E, W, X, M>,
    ti: usize,
    a: Life<G::State, E::Feature, N, B>,
    b: Life<G::State, E::Feature, N, B>,
    row: Seq<N>,
) -> bool {
    &&& heard(a, Reply::Resolved(row), b.batch)
    &&& a.m.hit_rows < usize::MAX
    &&& took_in(rules, ti, with_hit(a.m), a.asks[0].0, a.asks[0].1, row, b.m)
    &&& b.asks == a.asks.skip(1)
    &&& b.due == a.due
    &&& b.tickets == a.tickets
}

/// What becomes of a tree whose ask is staged under `ticket`: a ticket given out before is shared,
/// any other is the next.
pub open spec fn staged<S, F, N, B>(a: Life<S, F, N, B>, ticket: usize, batch: B) -> Result<
    Life<S, F, N, B>,
    Fault,
> {
    let (ni, slot) = a.asks[0];
    if ticket < a.tickets {
        match counted(a.m.shared_rows, 1) {
            Err(f) => Err(f),
            Ok(shared_rows) => Ok(
                Life {
                    m: TreeModel { shared_rows, ..a.m },
                    asks: a.asks.skip(1),
                    due: a.due.push((ticket, ni, slot)),
                    tickets: a.tickets,
                    batch,
                },
            ),
        }
    } else {
        match counted(a.m.fresh_rows, 1) {
            Err(f) => Err(f),
            Ok(fresh_rows) => match counted(a.tickets, 1) {
                Err(f) => Err(f),
                Ok(tickets) => Ok(
                    Life {
                        m: TreeModel { fresh_rows, ..a.m },
                        asks: a.asks.skip(1),
                        due: a.due.push((a.tickets, ni, slot)),
                        tickets,
                        batch,
                    },
                ),
            },
        }
    }
}

/// `b` is a tree one turn after `a`: it has simulated, or its next ask has been answered by the
/// batch.
pub open spec fn turned<
    N: Scalar,
    G: Game<N>,
    E: StateEncoder<State = G::State>,
    W: Reward<N, Event = G::Event>,
    X: Exp<N>,
    M: GammaSource<N, SplitMix64>,
    B: Batch<E::Feature, N>,
>(
    rules: Rules<N, G, E, W, X, M>,
    ti: usize,
    a: Life<G::State, E::Feature, N, B>,
    b: Life<G::State, E::Feature, N, B>,
) -> bool {
    ||| simulated(rules, a, b)
    ||| exists|row: Seq<N>| #[trigger] hit(rules, ti, a, b, row)
    ||| exists|ticket: usize| #[trigger]
        staged(a, ticket, b.batch) == Ok::<_, Fault>(b) && heard(a, Reply::Staged(ticket), b.batch)
}

/// A tree can go from `a` to `b` in turns.
#[verifier::opaque]
pub open spec fn reaches<
    N: Scalar,
    G: Game<N>,
    E: StateEncoder<State = G::State>,
    W: Reward<N, Event = G::Event>,
    X: Exp<N>,
    M: GammaSource<N, SplitMix64>,
    B: Batch<E::Feature, N>,
>(
    rules: Rules<N, G, E, W, X, M>,
    ti: usize,
    a: Life<G::State, E::Feature, N, B>,
    b: Life<G::State, E::Feature, N, B>,
) -> bool {
    exists|trace: Seq<Life<G::State, E::Feature, N, B>>| #[trigger]
        trace_of(rules, ti, trace) && trace[0] == a && trace.last() == b
}

/// Every step of `trace` is a turn.
pub open spec fn trace_of<
    N: Scalar,
    G: Game<N>,
    E: StateEncoder<State = G::State>,
    W: Reward<N, Event = G::Event>,
    X: Exp<N>,
    M: GammaSource<N, SplitMix64>,
    B: Batch<E::Feature, N>,
>(
    rules: Rules<N, G, E, W, X, M>,
    ti: usize,
    trace: Seq<Life<G::State, E::Feature, N, B>>,
) -> bool {
    &&& trace.len() > 0
    &&& forall|i: int|
        0 <= i < trace.len() - 1 ==> turned(rules, ti, #[trigger] trace[i], trace[i + 1])
}

/// Why a tree cannot take its next turn.
#[verifier::opaque]
pub open spec fn stuck<
    N: Scalar,
    G: Game<N>,
    E: StateEncoder<State = G::State>,
    W: Reward<N, Event = G::Event>,
    X: Exp<N>,
    M: GammaSource<N, SplitMix64>,
    B: Batch<E::Feature, N>,
>(
    rules: Rules<N, G, E, W, X, M>,
    ti: usize,
    a: Life<G::State, E::Feature, N, B>,
    f: Fault,
) -> bool {
    ||| {
        &&& a.asks.len() == 0
        &&& a.due.len() == 0
        &&& a.m.sims < rules.num_simulations
        &&& spec_simulate(rules.ctx, a.m) == Err::<
            (TreeModel<G::State, E::Feature, N>, Seq<(usize, usize)>),
            _,
        >(f)
    }
    ||| a.asks.len() > 0 && !asking(a) && f == Fault::Tree
    ||| exists|row: Seq<N>, after: B| #[trigger]
        heard(a, Reply::Resolved(row), after) && if a.m.hit_rows == usize::MAX {
            f == Fault::VisitCount
        } else {
            refused(rules, ti, with_hit(a.m), a.asks[0].0, a.asks[0].1, row, f)
        }
    ||| exists|ticket: usize, after: B| #[trigger]
        heard(a, Reply::Staged(ticket), after) && staged(a, ticket, after) == Err::<Life<G::State, E::Feature, N, B>, _>(f)
}

/// The delivery of a row that is due brings a tree from `a` to `b`.
pub open spec fn delivery<
    N: Scalar,
    G: Game<N>,
    E: StateEncoder<State = G::State>,
    W: Reward<N, Event = G::Event>,
    X: Exp<N>,
    M: GammaSource<N, SplitMix64>,
>(
    rules: Rules<N, G, E, W, X, M>,
    ti: usize,
    due: (usize, usize, usize),
    rows: Seq<Seq<N>>,
    a: TreeModel<G::State, E::Feature, N>,
    b: TreeModel<G::State, E::Feature, N>,
) -> bool {
    due.0 < rows.len() && took_in(rules, ti, a, due.1, due.2, rows[due.0 as int], b)
}

/// The rows that are due are delivered in their order, and bring a tree through `course`.
pub open spec fn deliveries<
    N: Scalar,
    G: Game<N>,
    E: StateEncoder<State = G::State>,
    W: Reward<N, Event = G::Event>,
    X: Exp<N>,
    M: GammaSource<N, SplitMix64>,
>(
    rules: Rules<N, G, E, W, X, M>,
    ti: usize,
    due: Seq<(usize, usize, usize)>,
    rows: Seq<Seq<N>>,
    course: Seq<TreeModel<G::State, E::Feature, N>>,
) -> bool {
    &&& course.len() == due.len() + 1
    &&& forall|i: int|
        0 <= i < due.len() ==> delivery(
            rules,
            ti,
            due[i],
            rows,
            #[trigger] course[i],
            course[i + 1],
        )
}

/// `next` is a tree to which the rows that are due have been delivered, in their order.
pub open spec fn delivered<
    N: Scalar,
    G: Game<N>,
    E: StateEncoder<State = G::State>,
    W: Reward<N, Event = G::Event>,
    X: Exp<N>,
    M: GammaSource<N, SplitMix64>,
>(
    rules: Rules<N, G, E, W, X, M>,
    ti: usize,
    m: TreeModel<G::State, E::Feature, N>,
    due: Seq<(usize, usize, usize)>,
    rows: Seq<Seq<N>>,
    next: TreeModel<G::State, E::Feature, N>,
) -> bool {
    exists|course: Seq<TreeModel<G::State, E::Feature, N>>| #[trigger]
        deliveries(rules, ti, due, rows, course) && course[0] == m && course.last() == next
}

/// Why the rows that are due cannot be delivered: one is missing, or cannot be taken in.
pub open spec fn undeliverable<
    N: Scalar,
    G: Game<N>,
    E: StateEncoder<State = G::State>,
    W: Reward<N, Event = G::Event>,
    X: Exp<N>,
    M: GammaSource<N, SplitMix64>,
>(
    rules: Rules<N, G, E, W, X, M>,
    ti: usize,
    m: TreeModel<G::State, E::Feature, N>,
    due: Seq<(usize, usize, usize)>,
    rows: Seq<Seq<N>>,
    f: Fault,
) -> bool {
    exists|i: int, mid: TreeModel<G::State, E::Feature, N>|
        0 <= i < due.len() && #[trigger] delivered(rules, ti, m, due.take(i), rows, mid)
            && if due[i].0 < rows.len() {
            refused(rules, ti, mid, due[i].1, due[i].2, rows[due[i].0 as int], f)
        } else {
            f == Fault::RowCount
        }
}

/// A tree goes nowhere in no turn.
pub proof fn lemma_reaches_here<
    N: Scalar,
    G: Game<N>,
    E: StateEncoder<State = G::State>,
    W: Reward<N, Event = G::Event>,
    X: Exp<N>,
    M: GammaSource<N, SplitMix64>,
    B: Batch<E::Feature, N>,
>(
    rules: Rules<N, G, E, W, X, M>,
    ti: usize,
    a: Life<G::State, E::Feature, N, B>,
)
    ensures
        reaches(rules, ti, a, a),
{
    reveal(reaches);
    let trace = seq![a];
    assert(trace_of(rules, ti, trace));
}

/// One more turn.
pub proof fn lemma_reaches_step<
    N: Scalar,
    G: Game<N>,
    E: StateEncoder<State = G::State>,
    W: Reward<N, Event = G::Event>,
    X: Exp<N>,
    M: GammaSource<N, SplitMix64>,
    B: Batch<E::Feature, N>,
>(
    rules: Rules<N, G, E, W, X, M>,
    ti: usize,
    a: Life<G::State, E::Feature, N, B>,
    b: Life<G::State, E::Feature, N, B>,
    c: Life<G::State, E::Feature, N, B>,
)
    requires
        reaches(rules, ti, a, b),
        turned(rules, ti, b, c),
    ensures
        reaches(rules, ti, a, c),
{
    reveal(reaches);
    let trace = choose|trace: Seq<Life<G::State, E::Feature, N, B>>| #[trigger]
        trace_of(rules, ti, trace) && trace[0] == a && trace.last() == b;
    let longer = trace.push(c);
    assert forall|i: int| 0 <= i < longer.len() - 1 implies turned(
        rules,
        ti,
        #[trigger] longer[i],
        longer[i + 1],
    ) by {
        if i < trace.len() - 1 {
            assert(longer[i] == trace[i]);
        }
    }
    assert(trace_of(rules, ti, longer));
    assert(longer[0] == a && longer.last() == c);
}

} // verus!
