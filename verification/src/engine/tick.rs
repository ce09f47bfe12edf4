//! One tick of every game.

use vstd::prelude::*;

use super::advance::{advance_all, value_all};
#[allow(unused_imports)]
use super::advance::{advanced, lemma_advanced_seated, valued, valued_seat, AdvancedOf};
use super::decide::{decide, requests_of};
#[allow(unused_imports)]
use super::decide::{
    asked, choices, decision, decision_fails, in_seats, requests_for, Round, RoundOf,
};
use super::flush::{empty_seat, flush_seat, read_tails, want_tails};
#[allow(unused_imports)]
use super::flush::{
    all_live, cut_off, finished_off, flushed, fragments, lemma_tails_len, tails_wanted, Progress,
    ProgressOf,
};
use super::seat::{Parts, Seat};
#[allow(unused_imports)]
use super::seat::{seat_models, seated, SeatOf};
use crate::encoder::StateEncoder;
use crate::fault::Fault;
use crate::game::Game;
use crate::learner::Learner;
#[allow(unused_imports)]
use crate::learner::record_models;
use crate::num::Scalar;
use crate::policies::modelfree::ask_for_requests;
#[allow(unused_imports)]
use crate::policies::modelfree::requests_served;
use crate::policies::planner::Planner;
use crate::policies::tree::expectimax::backup::InteriorTarget;
use crate::policies::tree::expectimax::search::Infer;
use crate::policy::Policy;
use crate::reward::Reward;
use crate::rng::{SplitMix64, GOLDEN};
#[allow(unused_imports)]
use crate::rng::{generator, mixed};
use crate::start::StartDistribution;
use crate::stats::CollectStats;
use crate::util::filled;
#[allow(unused_imports)]
use crate::util::{matrix, spec_filled};

verus! {

/// The next number of a generator, and the generator then.
pub open spec fn next_number(rng: SplitMix64) -> (u64, SplitMix64) {
    let state = vstd::wrapping::u64_specs::wrapping_add(rng@, GOLDEN);
    (mixed(state), generator(state))
}

/// No agent of any game has chosen.
pub open spec fn none_acted(games: nat, agents: nat) -> Seq<Seq<Option<usize>>> {
    Seq::new(games, |g: int| spec_filled(None, agents))
}

/// The round that a tick begins with.
pub open spec fn round_of<
    N: Scalar,
    G: Game<N>,
    E: StateEncoder<State = G::State>,
    W: Reward<N, Event = G::Event>,
    P: Policy<N>,
    L: Learner<N, E::Feature, P::Evaluation, E>,
    D: StartDistribution<G::State>,
>(parts: Parts<G, E, W, P, L>, p: ProgressOf<N, G, E, P, L, D>) -> RoundOf<N, G, E, P, L> {
    Round {
        seats: p.seats,
        records: p.records,
        stats: p.stats,
        acted: none_acted(p.seats.len(), parts.game.spec_num_agents() as nat),
    }
}

/// The `j`-th of a chain of rounds leads to the next by the decision on the `j`-th evaluation.
pub open spec fn decided_at<
    N: Scalar,
    G: Game<N>,
    E: StateEncoder<State = G::State>,
    W: Reward<N, Event = G::Event>,
    P: Policy<N>,
    L: Learner<N, E::Feature, P::Evaluation, E>,
>(
    parts: Parts<G, E, W, P, L>,
    chain: Seq<RoundOf<N, G, E, P, L>>,
    evals: Seq<(P::Evaluation, Vec<InteriorTarget<E::Feature, N>>)>,
    meta: Seq<(usize, usize)>,
    j: int,
) -> bool {
    decision(parts, chain[j], evals[j], meta[j].0, meta[j].1, chain[j + 1])
}

/// A chain of rounds, from `a`, by the decisions on the first evaluations.
pub open spec fn deciding<
    N: Scalar,
    G: Game<N>,
    E: StateEncoder<State = G::State>,
    W: Reward<N, Event = G::Event>,
    P: Policy<N>,
    L: Learner<N, E::Feature, P::Evaluation, E>,
>(
    parts: Parts<G, E, W, P, L>,
    a: RoundOf<N, G, E, P, L>,
    evals: Seq<(P::Evaluation, Vec<InteriorTarget<E::Feature, N>>)>,
    meta: Seq<(usize, usize)>,
    chain: Seq<RoundOf<N, G, E, P, L>>,
) -> bool {
    &&& chain.len() >= 1
    &&& chain.len() <= evals.len() + 1
    &&& chain.len() <= meta.len() + 1
    &&& chain[0] == a
    &&& forall|j: int|
        0 <= j < chain.len() - 1 ==> #[trigger] decided_at(parts, chain, evals, meta, j)
}

/// `b` may follow `a` by the decisions on all evaluations.
pub open spec fn decisions<
    N: Scalar,
    G: Game<N>,
    E: StateEncoder<State = G::State>,
    W: Reward<N, Event = G::Event>,
    P: Policy<N>,
    L: Learner<N, E::Feature, P::Evaluation, E>,
>(
    parts: Parts<G, E, W, P, L>,
    a: RoundOf<N, G, E, P, L>,
    evals: Seq<(P::Evaluation, Vec<InteriorTarget<E::Feature, N>>)>,
    meta: Seq<(usize, usize)>,
    b: RoundOf<N, G, E, P, L>,
) -> bool {
    exists|chain: Seq<RoundOf<N, G, E, P, L>>| #[trigger]
        deciding(parts, a, evals, meta, chain) && chain.last() == b && (chain.len() - 1
            == evals.len() || chain.len() - 1 == meta.len())
}

/// Why the decisions on the evaluations, from `a`, cannot all be made.
pub open spec fn decisions_fail<
    N: Scalar,
    G: Game<N>,
    E: StateEncoder<State = G::State>,
    W: Reward<N, Event = G::Event>,
    P: Policy<N>,
    L: Learner<N, E::Feature, P::Evaluation, E>,
>(
    parts: Parts<G, E, W, P, L>,
    a: RoundOf<N, G, E, P, L>,
    evals: Seq<(P::Evaluation, Vec<InteriorTarget<E::Feature, N>>)>,
    meta: Seq<(usize, usize)>,
    f: Fault,
) -> bool {
    exists|chain: Seq<RoundOf<N, G, E, P, L>>| #[trigger]
        deciding(parts, a, evals, meta, chain) && chain.len() - 1 < evals.len() && chain.len() - 1
            < meta.len() && decision_fails(
            parts,
            chain.last(),
            evals[chain.len() - 1],
            meta[chain.len() - 1].0,
            meta[chain.len() - 1].1,
            f,
        )
}

/// The games after their transitions, with what the decisions gave.
pub open spec fn moved_on<
    N: Scalar,
    G: Game<N>,
    E: StateEncoder<State = G::State>,
    W: Reward<N, Event = G::Event>,
    P: Policy<N>,
    L: Learner<N, E::Feature, P::Evaluation, E>,
    D: StartDistribution<G::State>,
>(
    a: AdvancedOf<N, G, E, P, D>,
    mid: RoundOf<N, G, E, P, L>,
    search_rng: SplitMix64,
) -> ProgressOf<N, G, E, P, L, D> {
    Progress {
        seats: a.seats,
        search_rng,
        buffer_rng: a.buffer_rng,
        start: a.start,
        records: mid.records,
        stats: mid.stats,
    }
}

/// What a tick leads to from the decisions: every game advances, and those that finish are flushed,
/// with the network's `rows` for what was cut short.
pub open spec fn tick_end<
    N: Scalar,
    G: Game<N>,
    E: StateEncoder<State = G::State>,
    W: Reward<N, Event = G::Event>,
    P: Planner<N, G, E, W, B>,
    L: Learner<N, E::Feature, P::Evaluation, E>,
    B: Infer<E::Feature, N>,
    D: StartDistribution<G::State>,
>(
    parts: Parts<G, E, W, P, L>,
    a: ProgressOf<N, G, E, P, L, D>,
    mid: RoundOf<N, G, E, P, L>,
    before: B,
    after: B,
    rows: Seq<Seq<N>>,
    end: Result<ProgressOf<N, G, E, P, L, D>, Fault>,
) -> bool {
    let seats = valued(parts, mid.seats, mid.acted);
    match advanced(parts, seats, mid.acted, a.start, a.buffer_rng, seats.len()) {
        Err(f) => end == Err::<ProgressOf<N, G, E, P, L, D>, _>(f),
        Ok(adv) => {
            let p = moved_on::<N, G, E, W, P, L, D>(adv, mid, next_number(a.search_rng).1);
            let meta = tails_wanted(parts, p.seats, adv.finished);
            &&& requests_served::<N, G, E, B>(
                parts.encoder,
                requests_for(p.seats, meta),
                (before, after),
                rows,
            )
            &&& end == finished_off(parts, p, adv.finished, rows)
        },
    }
}

/// The evaluations that a tick begins with, when the network is handed in as `before` and back as
/// `after`.
pub open spec fn evaluated<
    N: Scalar,
    G: Game<N>,
    E: StateEncoder<State = G::State>,
    W: Reward<N, Event = G::Event>,
    P: Planner<N, G, E, W, B>,
    L: Learner<N, E::Feature, P::Evaluation, E>,
    B: Infer<E::Feature, N>,
    D: StartDistribution<G::State>,
>(
    parts: Parts<G, E, W, P, L>,
    a: ProgressOf<N, G, E, P, L, D>,
    before: B,
    after: B,
    evals: Seq<(P::Evaluation, Vec<InteriorTarget<E::Feature, N>>)>,
) -> bool {
    let meta = asked(parts.game, a.seats, a.seats.len());
    <P as Planner<N, G, E, W, B>>::evaluates(
        &parts.policy,
        parts.game,
        parts.encoder,
        parts.reward,
        requests_for(a.seats, meta),
        next_number(a.search_rng).0,
        parts.learner.spec_needs_interior(),
        (before, after),
        evals,
    )
}

/// `b` follows `a` by a tick, with such evaluations, decisions and rows. The network goes from hand
/// to hand: as it was handed in, after the evaluations, and after the rows.
pub open spec fn tick_by<
    N: Scalar,
    G: Game<N>,
    E: StateEncoder<State = G::State>,
    W: Reward<N, Event = G::Event>,
    P: Planner<N, G, E, W, B>,
    L: Learner<N, E::Feature, P::Evaluation, E>,
    B: Infer<E::Feature, N>,
    D: StartDistribution<G::State>,
>(
    parts: Parts<G, E, W, P, L>,
    a: ProgressOf<N, G, E, P, L, D>,
    evals: Seq<(P::Evaluation, Vec<InteriorTarget<E::Feature, N>>)>,
    mid: RoundOf<N, G, E, P, L>,
    before: B,
    between: B,
    after: B,
    rows: Seq<Seq<N>>,
    b: ProgressOf<N, G, E, P, L, D>,
) -> bool {
    let meta = asked(parts.game, a.seats, a.seats.len());
    &&& evaluated::<N, G, E, W, P, L, B, D>(parts, a, before, between, evals)
    &&& decisions(parts, round_of(parts, a), evals, meta, mid)
    &&& tick_end::<N, G, E, W, P, L, B, D>(parts, a, mid, between, after, rows, Ok(b))
}

/// `b` follows `a` by a tick, the network handed in as `before` and back as `after`:
/// the policy evaluates for every agent whose turn it is, each decides,
/// and every game advances.
pub open spec fn tick<
    N: Scalar,
    G: Game<N>,
    E: StateEncoder<State = G::State>,
    W: Reward<N, Event = G::Event>,
    P: Planner<N, G, E, W, B>,
    L: Learner<N, E::Feature, P::Evaluation, E>,
    B: Infer<E::Feature, N>,
    D: StartDistribution<G::State>,
>(
    parts: Parts<G, E, W, P, L>,
    a: ProgressOf<N, G, E, P, L, D>,
    before: B,
    after: B,
    b: ProgressOf<N, G, E, P, L, D>,
) -> bool {
    exists|
        evals: Seq<(P::Evaluation, Vec<InteriorTarget<E::Feature, N>>)>,
        mid: RoundOf<N, G, E, P, L>,
        between: B,
        rows: Seq<Seq<N>>,
    | #[trigger]
        tick_by::<N, G, E, W, P, L, B, D>(
            parts,
            a,
            evals,
            mid,
            before,
            between,
            after,
            rows,
            b,
        )
}

/// Why a tick from `a` cannot be taken, with such evaluations, decisions and rows.
pub open spec fn tick_fails_by<
    N: Scalar,
    G: Game<N>,
    E: StateEncoder<State = G::State>,
    W: Reward<N, Event = G::Event>,
    P: Planner<N, G, E, W, B>,
    L: Learner<N, E::Feature, P::Evaluation, E>,
    B: Infer<E::Feature, N>,
    D: StartDistribution<G::State>,
>(
    parts: Parts<G, E, W, P, L>,
    a: ProgressOf<N, G, E, P, L, D>,
    evals: Seq<(P::Evaluation, Vec<InteriorTarget<E::Feature, N>>)>,
    mid: RoundOf<N, G, E, P, L>,
    before: B,
    between: B,
    after: B,
    rows: Seq<Seq<N>>,
    f: Fault,
) -> bool {
    let meta = asked(parts.game, a.seats, a.seats.len());
    ||| <P as Planner<N, G, E, W, B>>::cannot_evaluate(
        &parts.policy,
        parts.game,
        parts.encoder,
        parts.reward,
        requests_for(a.seats, meta),
        next_number(a.search_rng).0,
        parts.learner.spec_needs_interior(),
        before,
        f,
    )
    ||| {
        &&& evaluated::<N, G, E, W, P, L, B, D>(parts, a, before, between, evals)
        &&& {
            ||| decisions_fail(parts, round_of(parts, a), evals, meta, f)
            ||| {
                &&& decisions(parts, round_of(parts, a), evals, meta, mid)
                &&& tick_end::<N, G, E, W, P, L, B, D>(
                    parts,
                    a,
                    mid,
                    between,
                    after,
                    rows,
                    Err(f),
                )
            }
        }
    }
}

/// Why a tick from `a` cannot be taken.
pub open spec fn tick_fails<
    N: Scalar,
    G: Game<N>,
    E: StateEncoder<State = G::State>,
    W: Reward<N, Event = G::Event>,
    P: Planner<N, G, E, W, B>,
    L: Learner<N, E::Feature, P::Evaluation, E>,
    B: Infer<E::Feature, N>,
    D: StartDistribution<G::State>,
>(parts: Parts<G, E, W, P, L>, a: ProgressOf<N, G, E, P, L, D>, net: B, f: Fault) -> bool {
    exists|
        evals: Seq<(P::Evaluation, Vec<InteriorTarget<E::Feature, N>>)>,
        mid: RoundOf<N, G, E, P, L>,
        between: B,
        after: B,
        rows: Seq<Seq<N>>,
    | #[trigger]
        tick_fails_by::<N, G, E, W, P, L, B, D>(
            parts,
            a,
            evals,
            mid,
            net,
            between,
            after,
            rows,
            f,
        )
}

/// Every row has an entry for each of `n` agents.
spec fn squared(acted: Seq<Seq<Option<usize>>>, n: nat) -> bool {
    forall|g: int| 0 <= g < acted.len() ==> (#[trigger] acted[g]).len() == n
}

fn no_choices(games: usize, agents: usize) -> (r: Vec<Vec<Option<usize>>>)
    ensures
        choices(r@) == none_acted(games as nat, agents as nat),
{
    let mut out: Vec<Vec<Option<usize>>> = Vec::new();
    let mut g: usize = 0;
    while g < games
        invariant
            g <= games,
            choices(out@) =~= none_acted(g as nat, agents as nat),
        decreases games - g,
    {
        let ghost was = choices(out@);
        let row: Vec<Option<usize>> = filled(None, agents);
        let ghost shown = row@;
        out.push(row);
        assert(choices(out@) =~= was.push(shown));
        g = g + 1;
    }
    out
}

/// Makes the decisions on evaluations.
#[verifier::loop_isolation(false)]
pub fn decide_all<
    N: Scalar,
    G: Game<N>,
    E: StateEncoder<State = G::State>,
    W: Reward<N, Event = G::Event>,
    P: Policy<N>,
    L: Learner<N, E::Feature, P::Evaluation, E>,
>(
    parts: &Parts<G, E, W, P, L>,
    seats: &mut Vec<Seat<G::State, P::PolicyState, E::Feature, N, P::Evaluation>>,
    records: &mut Vec<L::Record>,
    stats: &mut CollectStats<N>,
    acted: &mut Vec<Vec<Option<usize>>>,
    evals: Vec<(P::Evaluation, Vec<InteriorTarget<E::Feature, N>>)>,
    meta: &Vec<(usize, usize)>,
) -> (r: Result<(), Fault>)
    requires
        seated(seat_models(old(seats)@), parts.game.spec_num_agents() as nat),
        in_seats(meta@, old(seats)@.len(), parts.game.spec_num_agents() as nat),
        choices(old(acted)@) == none_acted(
            old(seats)@.len(),
            parts.game.spec_num_agents() as nat,
        ),
    ensures
        match r {
            Ok(_) => {
                &&& decisions(
                    *parts,
                    Round {
                        seats: seat_models(old(seats)@),
                        records: record_models(old(records)@, |x: L::Record| L::shown(x)),
                        stats: old(stats)@,
                        acted: choices(old(acted)@),
                    },
                    evals@,
                    meta@,
                    Round {
                        seats: seat_models(final(seats)@),
                        records: record_models(final(records)@, |x: L::Record| L::shown(x)),
                        stats: final(stats)@,
                        acted: choices(final(acted)@),
                    },
                )
                &&& final(seats)@.len() == old(seats)@.len() == final(acted)@.len()
                &&& seated(seat_models(final(seats)@), parts.game.spec_num_agents() as nat)
                &&& forall|g: int|
                    0 <= g < final(acted)@.len() ==> (#[trigger] final(acted)@[g])@.len()
                        == parts.game.spec_num_agents()
            },
            Err(f) => decisions_fail(
                *parts,
                Round {
                    seats: seat_models(old(seats)@),
                    records: record_models(old(records)@, |x: L::Record| L::shown(x)),
                    stats: old(stats)@,
                    acted: choices(old(acted)@),
                },
                evals@,
                meta@,
                f,
            ),
        },
{
    let ghost n = parts.game.spec_num_agents() as nat;
    let ghost all = evals@;
    let ghost first = Round {
        seats: seat_models(seats@),
        records: record_models(records@, |x: L::Record| L::shown(x)),
        stats: stats@,
        acted: choices(acted@),
    };
    let ghost games = seats@.len();
    let ghost mut chain: Seq<RoundOf<N, G, E, P, L>> = seq![first];
    let m = meta.len();
    let mut i: usize = 0;
    assert(choices(acted@).len() == acted@.len());
    for pair in it: evals
        invariant
            it.seq() == all,
            i as int == (if it.index() < m {
                it.index()
            } else {
                m as int
            }),
            games == seats@.len() == acted@.len(),
            seated(seat_models(seats@), n),
            squared(choices(acted@), n),
            chain.len() == i + 1,
            deciding(*parts, first, all, meta@, chain),
            chain.last() == (Round {
                seats: seat_models(seats@),
                records: record_models(records@, |x: L::Record| L::shown(x)),
                stats: stats@,
                acted: choices(acted@),
            }),
    {
        if i < m {
            let (g, si) = meta[i];
            let ghost a = chain.last();
            let ghost at = it.index();
            proof {
                assert(meta@[i as int].0 < games && meta@[i as int].1 < n);
                assert(a.seats[g as int] == seats@[g as int]@);
                assert(a.seats[g as int].traj.len() == n);
                assert(a.acted[g as int] == acted@[g as int]@);
                assert(a.acted[g as int].len() == n);
                assert(pair == all[i as int]);
            }
            let (eval, interior) = pair;
            match decide(parts, seats, records, stats, acted, eval, interior, g, si) {
                Ok(_) => {},
                Err(f) => {
                    assert(decision_fails(*parts, chain.last(), all[i as int], g, si, f));
                    assert(decisions_fail(*parts, first, all, meta@, f));
                    return Err(f);
                },
            }
            proof {
                let b = Round {
                    seats: seat_models(seats@),
                    records: record_models(records@, |x: L::Record| L::shown(x)),
                    stats: stats@,
                    acted: choices(acted@),
                };
                assert(decision(*parts, a, all[i as int], g, si, b));
                let longer = chain.push(b);
                assert forall|j: int| 0 <= j < longer.len() - 1 implies #[trigger] decided_at(
                    *parts,
                    longer,
                    all,
                    meta@,
                    j,
                ) by {
                    if j < i {
                        assert(decided_at(*parts, chain, all, meta@, j));
                        assert(longer[j] == chain[j] && longer[j + 1] == chain[j + 1]);
                    } else {
                        assert(longer[j] == a && longer[j + 1] == b);
                    }
                }
                chain = longer;
                assert(b.seats.len() == games);
                assert(b.acted.len() == games);
                assert forall|x: int| 0 <= x < b.seats.len() implies (#[trigger] b.seats[x]).traj.len()
                    == n by {
                    assert(a.seats[x].traj.len() == n);
                }
                assert forall|x: int| 0 <= x < b.acted.len() implies (#[trigger] b.acted[x]).len()
                    == n by {
                    assert(a.acted[x].len() == n);
                }
            }
            i = i + 1;
        }
    }
    proof {
        assert(deciding(*parts, first, all, meta@, chain));
        assert(chain.len() - 1 == all.len() || chain.len() - 1 == meta@.len());
        assert forall|g: int| 0 <= g < acted@.len() implies (#[trigger] acted@[g])@.len() == n by {
            assert(choices(acted@)[g].len() == n);
        }
    }
    Ok(())
}

proof fn lemma_valued_seated<
    N: Scalar,
    G: Game<N>,
    E: StateEncoder<State = G::State>,
    W: Reward<N, Event = G::Event>,
    P: Policy<N>,
    L: Learner<N, E::Feature, P::Evaluation, E>,
>(
    parts: Parts<G, E, W, P, L>,
    seats: Seq<SeatOf<N, G, E, P>>,
    acted: Seq<Seq<Option<usize>>>,
    agents: nat,
)
    requires
        seated(seats, agents),
    ensures
        valued(parts, seats, acted).len() == seats.len(),
        seated(valued(parts, seats, acted), agents),
{
    let out = valued(parts, seats, acted);
    assert forall|g: int| 0 <= g < out.len() implies (#[trigger] out[g]).traj.len() == agents by {
        assert(seats[g].traj.len() == agents);
        assert(valued_seat(parts, seats[g], acted[g]).traj.len() == agents);
    }
}

proof fn lemma_flushed_fault<
    N: Scalar,
    G: Game<N>,
    E: StateEncoder<State = G::State>,
    W: Reward<N, Event = G::Event>,
    P: Policy<N>,
    L: Learner<N, E::Feature, P::Evaluation, E>,
    D: StartDistribution<G::State>,
>(
    parts: Parts<G, E, W, P, L>,
    p: ProgressOf<N, G, E, P, L, D>,
    finished: Seq<(usize, bool)>,
    meta: Seq<(usize, usize)>,
    tails: Seq<Seq<N>>,
    k: nat,
    n: nat,
    f: Fault,
)
    requires
        k <= n,
        flushed(parts, p, finished, meta, tails, k) == Err::<ProgressOf<N, G, E, P, L, D>, _>(f),
    ensures
        flushed(parts, p, finished, meta, tails, n) == Err::<ProgressOf<N, G, E, P, L, D>, _>(f),
    decreases n,
{
    if k < n {
        lemma_flushed_fault(parts, p, finished, meta, tails, k, (n - 1) as nat, f);
    }
}

proof fn lemma_cut_fault<
    N: Scalar,
    G: Game<N>,
    E: StateEncoder<State = G::State>,
    W: Reward<N, Event = G::Event>,
    P: Policy<N>,
    L: Learner<N, E::Feature, P::Evaluation, E>,
    D: StartDistribution<G::State>,
>(
    parts: Parts<G, E, W, P, L>,
    p: ProgressOf<N, G, E, P, L, D>,
    meta: Seq<(usize, usize)>,
    tails: Seq<Seq<N>>,
    k: nat,
    n: nat,
    f: Fault,
)
    requires
        k <= n,
        cut_off(parts, p, meta, tails, k) == Err::<ProgressOf<N, G, E, P, L, D>, _>(f),
    ensures
        cut_off(parts, p, meta, tails, n) == Err::<ProgressOf<N, G, E, P, L, D>, _>(f),
    decreases n,
{
    if k < n {
        lemma_cut_fault(parts, p, meta, tails, k, (n - 1) as nat, f);
    }
}

/// Flushes the finished games.
#[verifier::loop_isolation(false)]
pub(crate) fn finish<
    N: Scalar,
    G: Game<N>,
    E: StateEncoder<State = G::State>,
    W: Reward<N, Event = G::Event>,
    P: Planner<N, G, E, W, B>,
    L: Learner<N, E::Feature, P::Evaluation, E>,
    B: Infer<E::Feature, N>,
    D: StartDistribution<G::State>,
>(
    parts: &Parts<G, E, W, P, L>,
    seats: &mut Vec<Seat<G::State, P::PolicyState, E::Feature, N, P::Evaluation>>,
    start: &mut D,
    buffer_rng: &mut SplitMix64,
    records: &mut Vec<L::Record>,
    stats: &mut CollectStats<N>,
    finished: &Vec<(usize, bool)>,
    source: B,
    Ghost(search_rng): Ghost<SplitMix64>,
) -> (r: (Result<(), Fault>, B))
    requires
        seated(seat_models(old(seats)@), parts.game.spec_num_agents() as nat),
        forall|i: int| 0 <= i < finished@.len() ==> (#[trigger] finished@[i]).0 < old(seats)@.len(),
    ensures
        exists|rows: Seq<Seq<N>>| #[trigger]
            requests_served::<N, G, E, B>(
                parts.encoder,
                requests_for(
                    seat_models(old(seats)@),
                    tails_wanted(*parts, seat_models(old(seats)@), finished@),
                ),
                (source, r.1),
                rows,
            ) && match r.0 {
                Ok(_) => {
                    &&& finished_off(
                        *parts,
                        Progress {
                            seats: seat_models(old(seats)@),
                            search_rng,
                            buffer_rng: *old(buffer_rng),
                            start: *old(start),
                            records: record_models(old(records)@, |x: L::Record| L::shown(x)),
                            stats: old(stats)@,
                        },
                        finished@,
                        rows,
                    ) == Ok::<_, Fault>(
                        Progress {
                            seats: seat_models(final(seats)@),
                            search_rng,
                            buffer_rng: *final(buffer_rng),
                            start: *final(start),
                            records: record_models(final(records)@, |x: L::Record| L::shown(x)),
                            stats: final(stats)@,
                        },
                    )
                    &&& final(seats)@.len() == old(seats)@.len()
                    &&& seated(seat_models(final(seats)@), parts.game.spec_num_agents() as nat)
                },
                Err(f) => finished_off(
                    *parts,
                    Progress {
                        seats: seat_models(old(seats)@),
                        search_rng,
                        buffer_rng: *old(buffer_rng),
                        start: *old(start),
                        records: record_models(old(records)@, |x: L::Record| L::shown(x)),
                        stats: old(stats)@,
                    },
                    finished@,
                    rows,
                ) == Err::<ProgressOf<N, G, E, P, L, D>, _>(f),
            },
{
    let ghost n = parts.game.spec_num_agents() as nat;
    let ghost p = Progress {
        seats: seat_models(seats@),
        search_rng,
        buffer_rng: *buffer_rng,
        start: *start,
        records: record_models(records@, |x: L::Record| L::shown(x)),
        stats: stats@,
    };
    let meta = want_tails(parts, seats, finished);
    let requests = requests_of(&parts.game, seats, &meta);
    let (rows, source) = ask_for_requests::<N, G, E, B>(&parts.encoder, &requests, source);
    let ghost shown = matrix(rows@);
    proof {
        assert(requests_for(p.seats, meta@).len() == meta@.len());
        assert(shown.len() == meta@.len());
        assert(rows@.len() == meta@.len());
    }
    let tails = match read_tails(parts, seats, &meta, &rows) {
        Ok(tails) => tails,
        Err(f) => return (Err(f), source),
    };
    let ghost tail_rows = matrix(tails@);
    proof {
        lemma_tails_len(*parts, p.seats, meta@, shown, meta@.len());
        assert(tails@.len() == meta@.len());
    }
    let ghost games = seats@.len();
    let mut k: usize = 0;
    while k < finished.len()
        invariant
            k <= finished@.len(),
            seats@.len() == games,
            seated(seat_models(seats@), n),
            flushed(*parts, p, finished@, meta@, tail_rows, k as nat) == Ok::<_, Fault>(
                Progress {
                    seats: seat_models(seats@),
                    search_rng,
                    buffer_rng: *buffer_rng,
                    start: *start,
                    records: record_models(records@, |x: L::Record| L::shown(x)),
                    stats: stats@,
                },
            ),
        decreases finished@.len() - k,
    {
        let (g, _) = finished[k];
        assert(finished@[k as int].0 < games);
        let ghost was = seat_models(seats@);
        assert(was[g as int].traj.len() == n);
        match flush_seat(
            parts,
            seats,
            start,
            buffer_rng,
            records,
            stats,
            &meta,
            &tails,
            g,
            Ghost(search_rng),
        ) {
            Ok(_) => {},
            Err(f) => {
                proof {
                    lemma_flushed_fault(
                        *parts,
                        p,
                        finished@,
                        meta@,
                        tail_rows,
                        (k + 1) as nat,
                        finished@.len(),
                        f,
                    );
                }
                return (Err(f), source);
            },
        }
        proof {
            let now = seat_models(seats@);
            assert(now.len() == was.len());
            assert forall|x: int| 0 <= x < now.len() implies (#[trigger] now[x]).traj.len() == n by {
                assert(was[x].traj.len() == n);
            }
        }
        k = k + 1;
    }
    (Ok(()), source)
}

/// Makes the live fragments into records.
#[verifier::loop_isolation(false)]
pub(crate) fn finish_fragments<
    N: Scalar,
    G: Game<N>,
    E: StateEncoder<State = G::State>,
    W: Reward<N, Event = G::Event>,
    P: Planner<N, G, E, W, B>,
    L: Learner<N, E::Feature, P::Evaluation, E>,
    B: Infer<E::Feature, N>,
    D: StartDistribution<G::State>,
>(
    parts: &Parts<G, E, W, P, L>,
    seats: &mut Vec<Seat<G::State, P::PolicyState, E::Feature, N, P::Evaluation>>,
    records: &mut Vec<L::Record>,
    source: B,
    Ghost(p): Ghost<ProgressOf<N, G, E, P, L, D>>,
) -> (r: (Result<(), Fault>, B))
    requires
        seated(seat_models(old(seats)@), parts.game.spec_num_agents() as nat),
        p.seats == seat_models(old(seats)@),
        p.records == record_models(old(records)@, |x: L::Record| L::shown(x)),
    ensures
        exists|rows: Seq<Seq<N>>| #[trigger]
            requests_served::<N, G, E, B>(
                parts.encoder,
                requests_for(p.seats, tails_wanted(*parts, p.seats, all_live(p.seats.len()))),
                (source, r.1),
                rows,
            ) && match r.0 {
                Ok(_) => {
                    &&& fragments(*parts, p, rows) == Ok::<_, Fault>(
                        Progress {
                            seats: seat_models(final(seats)@),
                            records: record_models(final(records)@, |x: L::Record| L::shown(x)),
                            ..p
                        },
                    )
                    &&& final(seats)@.len() == old(seats)@.len()
                    &&& seated(seat_models(final(seats)@), parts.game.spec_num_agents() as nat)
                },
                Err(f) => fragments(*parts, p, rows) == Err::<ProgressOf<N, G, E, P, L, D>, _>(f),
            },
{
    let ghost n = parts.game.spec_num_agents() as nat;
    let games = seats.len();
    let mut live: Vec<(usize, bool)> = Vec::new();
    let mut g: usize = 0;
    while g < games
        invariant
            g <= games,
            live@ =~= all_live(g as nat),
        decreases games - g,
    {
        live.push((g, false));
        g = g + 1;
    }
    let meta = want_tails(parts, seats, &live);
    let requests = requests_of(&parts.game, seats, &meta);
    let ghost given = source;
    let (rows, source) = ask_for_requests::<N, G, E, B>(&parts.encoder, &requests, source);
    let ghost shown = matrix(rows@);
    assert(requests_served::<N, G, E, B>(
        parts.encoder,
        requests_for(p.seats, tails_wanted(*parts, p.seats, all_live(p.seats.len()))),
        (given, source),
        shown,
    ));
    proof {
        assert(requests_for(p.seats, meta@).len() == meta@.len());
        assert(shown.len() == meta@.len());
        assert(rows@.len() == meta@.len());
    }
    let tails = match read_tails(parts, seats, &meta, &rows) {
        Ok(tails) => tails,
        Err(f) => return (Err(f), source),
    };
    let ghost tail_rows = matrix(tails@);
    proof {
        lemma_tails_len(*parts, p.seats, meta@, shown, meta@.len());
        assert(tails@.len() == meta@.len());
    }
    let mut k: usize = 0;
    while k < games
        invariant
            k <= games == seats@.len(),
            seated(seat_models(seats@), n),
            cut_off(*parts, p, meta@, tail_rows, k as nat) == Ok::<_, Fault>(
                Progress {
                    seats: seat_models(seats@),
                    records: record_models(records@, |x: L::Record| L::shown(x)),
                    ..p
                },
            ),
        decreases games - k,
    {
        let ghost was = seat_models(seats@);
        assert(was[k as int] == seats@[k as int]@);
        assert(was[k as int].traj.len() == n);
        let seat = &mut seats[k];
        match empty_seat(parts, seat, records, &meta, &tails, k) {
            Ok(_) => {},
            Err(f) => {
                proof {
                    lemma_cut_fault(
                        *parts,
                        p,
                        meta@,
                        tail_rows,
                        (k + 1) as nat,
                        games as nat,
                        f,
                    );
                }
                return (Err(f), source);
            },
        }
        let ghost one = seat@;
        proof {
            let now = seat_models(seats@);
            assert(now =~= was.update(k as int, one));
            assert forall|x: int| 0 <= x < now.len() implies (#[trigger] now[x]).traj.len() == n by {
                assert(was[x].traj.len() == n);
            }
        }
        k = k + 1;
    }
    (Ok(()), source)
}

/// Takes a tick with the agents whose turn it is.
#[verifier::spinoff_prover]
#[verifier::rlimit(30)]
pub(crate) fn take_tick<
    N: Scalar,
    G: Game<N>,
    E: StateEncoder<State = G::State>,
    W: Reward<N, Event = G::Event>,
    P: Planner<N, G, E, W, B>,
    L: Learner<N, E::Feature, P::Evaluation, E>,
    B: Infer<E::Feature, N>,
    D: StartDistribution<G::State>,
>(
    parts: &Parts<G, E, W, P, L>,
    seats: &mut Vec<Seat<G::State, P::PolicyState, E::Feature, N, P::Evaluation>>,
    search_rng: &mut SplitMix64,
    start: &mut D,
    buffer_rng: &mut SplitMix64,
    records: &mut Vec<L::Record>,
    stats: &mut CollectStats<N>,
    meta: &Vec<(usize, usize)>,
    source: B,
) -> (r: (Result<(), Fault>, B))
    requires
        seated(seat_models(old(seats)@), parts.game.spec_num_agents() as nat),
        meta@ == asked(parts.game, seat_models(old(seats)@), old(seats)@.len()),
        in_seats(meta@, old(seats)@.len(), parts.game.spec_num_agents() as nat),
    ensures
        match r.0 {
            Ok(_) => {
                &&& tick::<N, G, E, W, P, L, B, D>(
                    *parts,
                    Progress {
                        seats: seat_models(old(seats)@),
                        search_rng: *old(search_rng),
                        buffer_rng: *old(buffer_rng),
                        start: *old(start),
                        records: record_models(old(records)@, |x: L::Record| L::shown(x)),
                        stats: old(stats)@,
                    },
                    source,
                    r.1,
                    Progress {
                        seats: seat_models(final(seats)@),
                        search_rng: *final(search_rng),
                        buffer_rng: *final(buffer_rng),
                        start: *final(start),
                        records: record_models(final(records)@, |x: L::Record| L::shown(x)),
                        stats: final(stats)@,
                    },
                )
                &&& final(seats)@.len() == old(seats)@.len()
                &&& seated(seat_models(final(seats)@), parts.game.spec_num_agents() as nat)
            },
            Err(f) => tick_fails::<N, G, E, W, P, L, B, D>(
                *parts,
                Progress {
                    seats: seat_models(old(seats)@),
                    search_rng: *old(search_rng),
                    buffer_rng: *old(buffer_rng),
                    start: *old(start),
                    records: record_models(old(records)@, |x: L::Record| L::shown(x)),
                    stats: old(stats)@,
                },
                source,
                f,
            ),
        },
{
    let ghost a = Progress {
        seats: seat_models(seats@),
        search_rng: *search_rng,
        buffer_rng: *buffer_rng,
        start: *start,
        records: record_models(records@, |x: L::Record| L::shown(x)),
        stats: stats@,
    };
    let ghost n = parts.game.spec_num_agents() as nat;
    let ghost games = seats@.len();
    let ghost no_rows: Seq<Seq<N>> = Seq::empty();
    let ghost no_evals: Seq<(P::Evaluation, Vec<InteriorTarget<E::Feature, N>>)> = Seq::empty();
    let requests = requests_of(&parts.game, seats, meta);
    let seed = search_rng.next_u64();
    let interior = parts.learner.needs_interior();
    let ghost asked_of = source;
    let ghost wanted = requests_for(a.seats, asked(parts.game, a.seats, a.seats.len()));
    assert(requests@ == wanted);
    let (evals, source) = parts.policy.evaluate(
        &parts.game,
        &parts.encoder,
        &parts.reward,
        requests,
        seed,
        interior,
        source,
    );
    let evals = match evals {
        Ok(evals) => evals,
        Err(f) => {
            assert(<P as Planner<N, G, E, W, B>>::cannot_evaluate(
                &parts.policy,
                parts.game,
                parts.encoder,
                parts.reward,
                wanted,
                next_number(a.search_rng).0,
                parts.learner.spec_needs_interior(),
                asked_of,
                f,
            ));
            assert(tick_fails_by::<N, G, E, W, P, L, B, D>(
                *parts,
                a,
                no_evals,
                round_of(*parts, a),
                asked_of,
                source,
                source,
                no_rows,
                f,
            ));
            return (Err(f), source);
        },
    };
    let ghost all = evals@;
    assert(<P as Planner<N, G, E, W, B>>::evaluates(
        &parts.policy,
        parts.game,
        parts.encoder,
        parts.reward,
        wanted,
        next_number(a.search_rng).0,
        parts.learner.spec_needs_interior(),
        (asked_of, source),
        all,
    ));
    assert(evaluated::<N, G, E, W, P, L, B, D>(*parts, a, asked_of, source, all));
    let ghost between = source;
    let mut acted = no_choices(seats.len(), parts.game.num_agents());
    match decide_all(parts, seats, records, stats, &mut acted, evals, meta) {
        Ok(_) => {},
        Err(f) => {
            assert(tick_fails_by::<N, G, E, W, P, L, B, D>(
                *parts,
                a,
                all,
                round_of(*parts, a),
                asked_of,
                source,
                source,
                no_rows,
                f,
            ));
            return (Err(f), source);
        },
    }
    let ghost mid = Round {
        seats: seat_models(seats@),
        records: record_models(records@, |x: L::Record| L::shown(x)),
        stats: stats@,
        acted: choices(acted@),
    };
    assert(decisions(*parts, round_of(*parts, a), all, meta@, mid));
    proof {
        lemma_valued_seated(*parts, mid.seats, mid.acted, n);
        assert forall|g: int| 0 <= g < acted@.len() implies (#[trigger] acted@[g])@.len()
            == seats@[g].traj@.len() by {
            assert(mid.seats[g] == seats@[g]@);
            assert(mid.seats[g].traj.len() == n);
        }
    }
    value_all(parts, seats, &acted);
    let ghost with_values = seat_models(seats@);
    proof {
        assert(with_values.len() == seats@.len());
        assert forall|g: int| 0 <= g < acted@.len() implies (#[trigger] acted@[g])@.len()
            == seats@[g].traj@.len() by {
            assert(with_values[g] == seats@[g]@);
            assert(with_values[g].traj.len() == n);
        }
        lemma_advanced_seated(
            *parts,
            with_values,
            mid.acted,
            *start,
            *buffer_rng,
            with_values.len(),
            n,
        );
    }
    let finished = match advance_all(parts, seats, &acted, start, buffer_rng) {
        Ok(finished) => finished,
        Err(f) => {
            assert(tick_end::<N, G, E, W, P, L, B, D>(
                *parts,
                a,
                mid,
                between,
                between,
                no_rows,
                Err(f),
            ));
            assert(tick_fails_by::<N, G, E, W, P, L, B, D>(
                *parts,
                a,
                all,
                mid,
                asked_of,
                between,
                between,
                no_rows,
                f,
            ));
            return (Err(f), source);
        },
    };
    let ghost late = Progress {
        seats: seat_models(seats@),
        search_rng: *search_rng,
        buffer_rng: *buffer_rng,
        start: *start,
        records: record_models(records@, |x: L::Record| L::shown(x)),
        stats: stats@,
    };
    proof {
        let adv = advanced(
            *parts,
            with_values,
            mid.acted,
            a.start,
            a.buffer_rng,
            with_values.len(),
        )->Ok_0;
        assert(adv.seats == late.seats && adv.finished == finished@);
        assert(late.seats.len() == seats@.len());
        assert forall|i: int| 0 <= i < finished@.len() implies (#[trigger] finished@[i]).0
            < seats@.len() by {
            assert(adv.finished[i].0 < with_values.len());
        }
    }
    let (r, source) = finish::<N, G, E, W, P, L, B, D>(
        parts,
        seats,
        start,
        buffer_rng,
        records,
        stats,
        &finished,
        source,
        Ghost(*search_rng),
    );
    proof {
        let meta = tails_wanted(*parts, late.seats, finished@);
        let rows = choose|rows: Seq<Seq<N>>| #[trigger]
            requests_served::<N, G, E, B>(
                parts.encoder,
                requests_for(late.seats, meta),
                (between, source),
                rows,
            ) && match r {
                Ok(_) => finished_off(*parts, late, finished@, rows) == Ok::<_, Fault>(
                    Progress {
                        seats: seat_models(seats@),
                        search_rng: *search_rng,
                        buffer_rng: *buffer_rng,
                        start: *start,
                        records: record_models(records@, |x: L::Record| L::shown(x)),
                        stats: stats@,
                    },
                ),
                Err(f) => finished_off(*parts, late, finished@, rows) == Err::<
                    ProgressOf<N, G, E, P, L, D>,
                    _,
                >(f),
            };
        match r {
            Ok(_) => {
                let b = Progress {
                    seats: seat_models(seats@),
                    search_rng: *search_rng,
                    buffer_rng: *buffer_rng,
                    start: *start,
                    records: record_models(records@, |x: L::Record| L::shown(x)),
                    stats: stats@,
                };
                assert(tick_end::<N, G, E, W, P, L, B, D>(
                    *parts,
                    a,
                    mid,
                    between,
                    source,
                    rows,
                    Ok(b),
                ));
                assert(tick_by::<N, G, E, W, P, L, B, D>(
                    *parts,
                    a,
                    all,
                    mid,
                    asked_of,
                    between,
                    source,
                    rows,
                    b,
                ));
            },
            Err(f) => {
                assert(tick_end::<N, G, E, W, P, L, B, D>(
                    *parts,
                    a,
                    mid,
                    between,
                    source,
                    rows,
                    Err(f),
                ));
                assert(tick_fails_by::<N, G, E, W, P, L, B, D>(
                    *parts,
                    a,
                    all,
                    mid,
                    asked_of,
                    between,
                    source,
                    rows,
                    f,
                ));
            },
        }
    }
    (r, source)
}

} // verus!
