//! One round of a pooled tree: its asks, and its deliveries.

use vstd::prelude::*;

use super::pool::{consume_row, Batch, Resolve, Rules};
#[allow(unused_imports)]
use super::pool::{
    answers, asking, delivered, deliveries, delivery, heard, hit, lemma_reaches_here,
    lemma_reaches_step, next_row, reaches, refused, simulated, staged, stuck, turned, undeliverable,
    with_hit, Life, Reply,
};
use super::simulate::{bump, simulate};
use super::tree::Tree;
#[allow(unused_imports)]
use super::tree::TreeModel;
use crate::encoder::StateEncoder;
use crate::fault::Fault;
use crate::game::Game;
use crate::num::Scalar;
use crate::policies::tree::expectimax::evaluate::Exp;
use crate::reward::Reward;
use crate::rng::{GammaSource, SplitMix64};
#[allow(unused_imports)]
use crate::util::matrix;

verus! {

/// Every simulation has one fate, but for `open` rows that have not been asked for yet.
pub open spec fn balanced<S, F, N>(m: TreeModel<S, F, N>, open: nat) -> bool {
    m.sims + m.extra_eval_rows == m.fresh_rows + m.hit_rows + m.shared_rows + m.terminal_sims
        + m.depthcap_sims + open
}

/// A tree in the pool, between its asks.
pub open spec fn resting<S, F, N, B>(
    m: TreeModel<S, F, N>,
    due: Seq<(usize, usize, usize)>,
    tickets: usize,
    batch: B,
) -> Life<S, F, N, B> {
    Life { m, asks: Seq::empty(), due, tickets, batch }
}

/// Asks for one row.
fn ask_row<
    N: Scalar,
    G: Game<N>,
    E: StateEncoder<State = G::State>,
    W: Reward<N, Event = G::Event>,
    X: Exp<N>,
    M: GammaSource<N, SplitMix64>,
    B: Batch<E::Feature, N>,
>(
    t: &mut Tree<G::State, E::Feature, N>,
    due: &mut Vec<(usize, usize, usize)>,
    rules: &Rules<N, G, E, W, X, M>,
    ti: usize,
    tickets: usize,
    ask: (usize, usize),
    batch: B,
    Ghost(a): Ghost<Life<G::State, E::Feature, N, B>>,
) -> (r: (Result<usize, Fault>, B))
    requires
        a.m == old(t)@,
        a.asks.len() > 0,
        a.asks[0] == ask,
        a.due == old(due)@,
        a.tickets == tickets,
        a.batch == batch,
        balanced(a.m, a.asks.len()),
    ensures
        match r.0 {
            Ok(after) => {
                let b = Life {
                    m: final(t)@,
                    asks: a.asks.skip(1),
                    due: final(due)@,
                    tickets: after,
                    batch: r.1,
                };
                &&& turned(*rules, ti, a, b)
                &&& balanced(b.m, b.asks.len())
                &&& b.m.sims == a.m.sims
            },
            Err(f) => stuck(*rules, ti, a, f),
        },
{
    reveal(stuck);
    let (ni, slot) = ask;
    if ni >= t.arena.len() {
        return (Err(Fault::Tree), batch);
    }
    assert(t@.arena[ni as int] == t.arena@[ni as int]@);
    if slot >= t.arena[ni].rows.len() {
        return (Err(Fault::Tree), batch);
    }
    assert(t@.arena[ni as int].rows[slot as int] == (
        t.arena@[ni as int].rows@[slot as int].0,
        t.arena@[ni as int].rows@[slot as int].1@,
    ));
    let player = t.arena[ni].rows[slot].0;
    let (next, reply) = batch.resolve_or_stage(player, &t.arena[ni].rows[slot].1);
    assert(asking(a));
    assert(heard(a, reply@, next)) by {
        assert(answers(a.batch, next_row(a).0, next_row(a).1, reply@, next));
    }
    match reply {
        Resolve::Resolved(row) => {
            assert(heard(a, Reply::Resolved(row@), next));
            match t.hit_rows.checked_add(1) {
                Some(n) => {
                    t.hit_rows = n;
                },
                None => return (Err(Fault::VisitCount), next),
            }
            assert(t@ =~= with_hit(a.m));
            match consume_row(t, rules, ti, ni, slot, &row) {
                Ok(_) => {
                    assert(hit(
                        *rules,
                        ti,
                        a,
                        Life { m: t@, asks: a.asks.skip(1), due: due@, tickets, batch: next },
                        row@,
                    ));
                    (Ok(tickets), next)
                },
                Err(f) => {
                    assert(refused(*rules, ti, with_hit(a.m), ni, slot, row@, f));
                    (Err(f), next)
                },
            }
        },
        Resolve::Staged(ticket) => {
            assert(heard(a, Reply::Staged(ticket), next));
            if ticket < tickets {
                match bump(t.shared_rows, 1) {
                    Ok(n) => {
                        t.shared_rows = n;
                    },
                    Err(f) => {
                        assert(staged(a, ticket, next) == Err::<Life<G::State, E::Feature, N, B>, _>(f));
                        return (Err(f), next);
                    },
                }
                due.push((ticket, ni, slot));
                assert(staged(a, ticket, next) == Ok::<_, Fault>(
                    Life { m: t@, asks: a.asks.skip(1), due: due@, tickets, batch: next },
                ));
                (Ok(tickets), next)
            } else {
                match bump(t.fresh_rows, 1) {
                    Ok(n) => {
                        t.fresh_rows = n;
                    },
                    Err(f) => {
                        assert(staged(a, ticket, next) == Err::<Life<G::State, E::Feature, N, B>, _>(f));
                        return (Err(f), next);
                    },
                }
                let after = match bump(tickets, 1) {
                    Ok(n) => n,
                    Err(f) => {
                        assert(staged(a, ticket, next) == Err::<Life<G::State, E::Feature, N, B>, _>(f));
                        return (Err(f), next);
                    },
                };
                due.push((tickets, ni, slot));
                assert(staged(a, ticket, next) == Ok::<_, Fault>(
                    Life { m: t@, asks: a.asks.skip(1), due: due@, tickets: after, batch: next },
                ));
                (Ok(after), next)
            }
        },
    }
}

/// Runs a tree until it waits for rows or has run all its simulations.
#[verifier::loop_isolation(false)]
pub(crate) fn stage_tree<
    N: Scalar,
    G: Game<N>,
    E: StateEncoder<State = G::State>,
    W: Reward<N, Event = G::Event>,
    X: Exp<N>,
    M: GammaSource<N, SplitMix64>,
    B: Batch<E::Feature, N>,
>(
    t: &mut Tree<G::State, E::Feature, N>,
    due: &mut Vec<(usize, usize, usize)>,
    rules: &Rules<N, G, E, W, X, M>,
    ti: usize,
    tickets: usize,
    batch: B,
) -> (r: (Result<usize, Fault>, B))
    requires
        old(due)@.len() == 0,
        balanced(old(t)@, 0),
        old(t)@.sims <= rules.num_simulations,
    ensures
        match r.0 {
            Ok(after) => {
                &&& reaches(
                    *rules,
                    ti,
                    resting(old(t)@, old(due)@, tickets, batch),
                    resting(final(t)@, final(due)@, after, r.1),
                )
                &&& balanced(final(t)@, 0)
                &&& final(t)@.sims <= rules.num_simulations
                &&& final(t)@.sims >= old(t)@.sims
                &&& old(t)@.sims < rules.num_simulations ==> final(t)@.sims > old(t)@.sims
                &&& final(due)@.len() > 0 || final(t)@.sims == rules.num_simulations
            },
            Err(f) => exists|life: Life<G::State, E::Feature, N, B>|
                reaches(
                    *rules,
                    ti,
                    resting(old(t)@, old(due)@, tickets, batch),
                    life,
                ) && #[trigger] stuck(*rules, ti, life, f),
        },
{
    let ghost start = resting(t@, due@, tickets, batch);
    let mut current = batch;
    let mut given_out = tickets;
    proof {
        lemma_reaches_here(*rules, ti, start);
    }
    while due.len() == 0 && t.sims < rules.num_simulations
        invariant
            reaches(*rules, ti, start, resting(t@, due@, given_out, current)),
            balanced(t@, 0),
            old(t)@.sims <= t@.sims <= rules.num_simulations,
            t@.sims == old(t)@.sims ==> due@.len() == 0,
        decreases rules.num_simulations - t.sims,
    {
        let ghost before = resting(t@, due@, given_out, current);
        let ghost sims = t@.sims;
        let asks = match simulate(t, &rules.ctx) {
            Ok(asks) => asks,
            Err(f) => {
                assert(stuck(*rules, ti, before, f)) by {
                    reveal(stuck);
                }
                return (Err(f), current);
            },
        };
        let ghost mut life = Life { m: t@, asks: asks@, due: due@, tickets: given_out, batch: current };
        proof {
            assert(simulated(*rules, before, life));
            lemma_reaches_step(*rules, ti, start, before, life);
        }
        let n = asks.len();
        let mut i: usize = 0;
        assert(asks@.skip(0) =~= asks@);
        while i < n
            invariant
                i <= n == asks@.len(),
                life == (Life { m: t@, asks: asks@.skip(i as int), due: due@, tickets: given_out, batch: current }),
                reaches(*rules, ti, start, life),
                balanced(t@, (n - i) as nat),
                t@.sims == sims + 1,
            decreases n - i,
        {
            let (answer, next) = ask_row(
                t,
                due,
                rules,
                ti,
                given_out,
                asks[i],
                current,
                Ghost(life),
            );
            current = next;
            match answer {
                Err(f) => {
                    assert(stuck(*rules, ti, life, f));
                    return (Err(f), current);
                },
                Ok(after) => {
                    given_out = after;
                    let ghost later = Life {
                        m: t@,
                        asks: asks@.skip(i as int).skip(1),
                        due: due@,
                        tickets: after,
                        batch: current,
                    };
                    proof {
                        lemma_reaches_step(*rules, ti, start, life, later);
                        assert(asks@.skip(i as int).skip(1) =~= asks@.skip(i + 1));
                        life = later;
                    }
                },
            }
            i = i + 1;
        }
        assert(asks@.skip(n as int) =~= Seq::empty());
    }
    (Ok(given_out), current)
}

/// Delivers the rows that were staged for a tree.
#[verifier::loop_isolation(false)]
pub(crate) fn deliver<
    N: Scalar,
    G: Game<N>,
    E: StateEncoder<State = G::State>,
    W: Reward<N, Event = G::Event>,
    X: Exp<N>,
    M: GammaSource<N, SplitMix64>,
>(
    t: &mut Tree<G::State, E::Feature, N>,
    due: &Vec<(usize, usize, usize)>,
    rules: &Rules<N, G, E, W, X, M>,
    ti: usize,
    rows: &Vec<Vec<N>>,
) -> (r: Result<(), Fault>)
    requires
        balanced(old(t)@, 0),
    ensures
        match r {
            Ok(_) => {
                &&& delivered(*rules, ti, old(t)@, due@, matrix(rows@), final(t)@)
                &&& balanced(final(t)@, 0)
                &&& final(t)@.sims == old(t)@.sims
            },
            Err(f) => undeliverable(*rules, ti, old(t)@, due@, matrix(rows@), f),
        },
{
    let ghost start = t@;
    let ghost mut course = seq![start];
    let n = due.len();
    let mut i: usize = 0;
    while i < n
        invariant
            i <= n == due@.len(),
            deliveries(*rules, ti, due@.take(i as int), matrix(rows@), course),
            course[0] == start,
            course.last() == t@,
            balanced(t@, 0),
            t@.sims == start.sims,
        decreases n - i,
    {
        let (ticket, ni, slot) = due[i];
        assert(delivered(*rules, ti, start, due@.take(i as int), matrix(rows@), t@));
        if ticket >= rows.len() {
            return Err(Fault::RowCount);
        }
        assert(matrix(rows@)[ticket as int] == rows@[ticket as int]@);
        match consume_row(t, rules, ti, ni, slot, &rows[ticket]) {
            Err(f) => return Err(f),
            Ok(_) => {},
        }
        i = i + 1;
        proof {
            let earlier = course;
            course = course.push(t@);
            assert forall|k: int| 0 <= k < i implies delivery(
                *rules,
                ti,
                due@.take(i as int)[k],
                matrix(rows@),
                #[trigger] course[k],
                course[k + 1],
            ) by {
                assert(course[k] == earlier[k]);
                if k < i - 1 {
                    assert(due@.take(i - 1)[k] == due@[k]);
                }
            }
        }
    }
    assert(due@.take(n as int) =~= due@);
    Ok(())
}

} // verus!
