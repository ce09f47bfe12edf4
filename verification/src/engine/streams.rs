//! Which generator draws what.

use vstd::prelude::*;

use super::advance::{advanced, valued};
use super::decide::{asked, requests_for, RoundOf};
use super::flush::{
    all_live, cut_off, finished_off, flushed, fragments, tails_read, tails_wanted, ProgressOf,
};
use super::run::{collected, collection, ticked_at, ticking};
use super::seat::{Parts, SeatOf};
use super::tick::{moved_on, next_number, tick, tick_by};
use crate::encoder::StateEncoder;
use crate::fault::Fault;
use crate::game::Game;
use crate::learner::Learner;
use crate::num::Scalar;
use crate::policies::modelfree::requests_served;
use crate::policies::planner::Planner;
use crate::policies::tree::expectimax::backup::InteriorTarget;
use crate::policies::tree::expectimax::search::Infer;
use crate::policy::Policy;
use crate::reward::Reward;
use crate::rng::SplitMix64;
use crate::start::{AlwaysInitialState, StartDistribution};

verus! {

/// The search generator after `ticks` ticks: one number is drawn on each.
pub open spec fn after_ticks(rng: SplitMix64, ticks: nat) -> SplitMix64
    decreases ticks,
{
    if ticks == 0 {
        rng
    } else {
        next_number(after_ticks(rng, (ticks - 1) as nat)).1
    }
}

proof fn lemma_flushed_streams<
    N: Scalar,
    G: Game<N>,
    E: StateEncoder<State = G::State>,
    W: Reward<N, Event = G::Event>,
    P: Policy<N>,
    L: Learner<N, E::Feature, P::Evaluation, E>,
    D: StartDistribution<G::State>,
>(
    parts: Parts<G, E, W, P, L>,
    p: ProgressOf<N, G, E, P, L, D>,
    finished: Seq<(usize, bool)>,
    meta: Seq<(usize, usize)>,
    tails: Seq<Seq<N>>,
    k: nat,
)
    requires
        k <= finished.len(),
    ensures
        flushed(parts, p, finished, meta, tails, k) matches Ok(q) ==> q.search_rng == p.search_rng,
    decreases k,
{
    if k > 0 {
        lemma_flushed_streams(parts, p, finished, meta, tails, (k - 1) as nat);
    }
}

proof fn lemma_tick_streams<
    N: Scalar,
    G: Game<N>,
    E: StateEncoder<State = G::State>,
    W: Reward<N, Event = G::Event>,
    P: Planner<N, G, E, W, B>,
    L: Learner<N, E::Feature, P::Evaluation, E>,
    B: Infer<E::Feature, N>,
    D: StartDistribution<G::State>,
>(
    parts: Parts<G, E, W, P, L>,
    a: ProgressOf<N, G, E, P, L, D>,
    before: B,
    after: B,
    b: ProgressOf<N, G, E, P, L, D>,
)
    requires
        tick::<N, G, E, W, P, L, B, D>(parts, a, before, after, b),
    ensures
        b.search_rng == next_number(a.search_rng).1,
{
    let (evals, mid, between, rows) = choose|
        evals: Seq<(P::Evaluation, Vec<InteriorTarget<E::Feature, N>>)>,
        mid: RoundOf<N, G, E, P, L>,
        between: B,
        rows: Seq<Seq<N>>,
    | #[trigger]
        tick_by::<N, G, E, W, P, L, B, D>(
            parts,
            a,
            evals,
            mid,
            before,
            between,
            after,
            rows,
            b,
        );
    let seats = valued(parts, mid.seats, mid.acted);
    let adv = advanced(parts, seats, mid.acted, a.start, a.buffer_rng, seats.len())->Ok_0;
    let p = moved_on::<N, G, E, W, P, L, D>(adv, mid, next_number(a.search_rng).1);
    let wanted = tails_wanted(parts, p.seats, adv.finished);
    let tails = tails_read(parts, p.seats, wanted, rows, wanted.len())->Ok_0;
    assert(finished_off(parts, p, adv.finished, rows) == Ok::<_, Fault>(b));
    lemma_flushed_streams(parts, p, adv.finished, wanted, tails, adv.finished.len());
}

proof fn lemma_ticking_streams<
    N: Scalar,
    G: Game<N>,
    E: StateEncoder<State = G::State>,
    W: Reward<N, Event = G::Event>,
    P: Planner<N, G, E, W, B>,
    L: Learner<N, E::Feature, P::Evaluation, E>,
    B: Infer<E::Feature, N>,
    D: StartDistribution<G::State>,
>(
    parts: Parts<G, E, W, P, L>,
    n_records: nat,
    a: ProgressOf<N, G, E, P, L, D>,
    chain: Seq<ProgressOf<N, G, E, P, L, D>>,
    nets: Seq<B>,
    j: int,
)
    requires
        ticking::<N, G, E, W, P, L, B, D>(parts, n_records, a, chain, nets),
        0 <= j < chain.len(),
    ensures
        chain[j].search_rng == after_ticks(a.search_rng, j as nat),
    decreases j,
{
    if j > 0 {
        lemma_ticking_streams::<N, G, E, W, P, L, B, D>(parts, n_records, a, chain, nets, j - 1);
        assert(ticked_at::<N, G, E, W, P, L, B, D>(parts, n_records, chain, nets, j - 1));
        lemma_tick_streams::<N, G, E, W, P, L, B, D>(
            parts,
            chain[j - 1],
            nets[j - 1],
            nets[j],
            chain[j]);
    }
}

proof fn lemma_cut_streams<
    N: Scalar,
    G: Game<N>,
    E: StateEncoder<State = G::State>,
    W: Reward<N, Event = G::Event>,
    P: Policy<N>,
    L: Learner<N, E::Feature, P::Evaluation, E>,
    D: StartDistribution<G::State>,
>(
    parts: Parts<G, E, W, P, L>,
    p: ProgressOf<N, G, E, P, L, D>,
    meta: Seq<(usize, usize)>,
    tails: Seq<Seq<N>>,
    k: nat,
)
    requires
        k <= p.seats.len(),
    ensures
        cut_off(parts, p, meta, tails, k) matches Ok(q) ==> q.search_rng == p.search_rng
            && q.buffer_rng == p.buffer_rng,
    decreases k,
{
    if k > 0 {
        lemma_cut_streams(parts, p, meta, tails, (k - 1) as nat);
    }
}

/// A collection takes at most `max_ticks` ticks. The search generator draws once on each, whatever the
/// games, the policy and the start distribution draw. Unless fragments are emitted at the end, fewer
/// ticks are taken only where as many records as were asked for have been collected, or where no
/// agent is to act.
pub proof fn law_ticks_of_a_collection<
    N: Scalar,
    G: Game<N>,
    E: StateEncoder<State = G::State>,
    W: Reward<N, Event = G::Event>,
    P: Planner<N, G, E, W, B>,
    L: Learner<N, E::Feature, P::Evaluation, E>,
    B: Infer<E::Feature, N>,
    D: StartDistribution<G::State>,
>(
    parts: Parts<G, E, W, P, L>,
    n_records: nat,
    max_ticks: nat,
    a: ProgressOf<N, G, E, P, L, D>,
    source: (B, B),
    b: ProgressOf<N, G, E, P, L, D>,
)
    requires
        collected::<N, G, E, W, P, L, B, D>(
            parts,
            n_records,
            max_ticks,
            a,
            source,
            b,
        ),
    ensures
        exists|ticks: nat|
            {
                &&& ticks <= max_ticks
                &&& b.search_rng == #[trigger] after_ticks(a.search_rng, ticks)
                &&& parts.learner.spec_bootstraps_fragments() || ticks == max_ticks
                    || b.records.len() >= n_records || asked(
                    parts.game,
                    b.seats,
                    b.seats.len(),
                ).len() == 0
            },
{
    let (chain, nets) = choose|chain: Seq<ProgressOf<N, G, E, P, L, D>>, nets: Seq<B>| #[trigger]
        collection::<N, G, E, W, P, L, B, D>(
            parts,
            n_records,
            max_ticks,
            a,
            source,
            chain,
            nets,
            b,
        );
    let ticks = (chain.len() - 1) as nat;
    lemma_ticking_streams::<N, G, E, W, P, L, B, D>(parts, n_records, a, chain, nets, ticks as int);
    let p = chain.last();
    if parts.learner.spec_bootstraps_fragments() {
        let meta = tails_wanted(parts, p.seats, all_live(p.seats.len()));
        let rows = choose|rows: Seq<Seq<N>>| #[trigger]
            requests_served::<N, G, E, B>(
                parts.encoder,
                requests_for(p.seats, meta),
                (nets.last(), source.1),
                rows,
            ) && Ok::<
                _,
                Fault,
            >(b) == fragments(parts, p, rows);
        let tails = tails_read(parts, p.seats, meta, rows, meta.len())->Ok_0;
        lemma_cut_streams(parts, p, meta, tails, p.seats.len());
    }
    assert(b.search_rng == after_ticks(a.search_rng, ticks));
}

proof fn lemma_advanced_draws_nothing<
    N: Scalar,
    G: Game<N>,
    E: StateEncoder<State = G::State>,
    W: Reward<N, Event = G::Event>,
    P: Policy<N>,
    L: Learner<N, E::Feature, P::Evaluation, E>,
>(
    parts: Parts<G, E, W, P, L>,
    seats: Seq<SeatOf<N, G, E, P>>,
    acted: Seq<Seq<Option<usize>>>,
    buffer_rng: SplitMix64,
    g: nat,
)
    requires
        g <= seats.len(),
    ensures
        advanced(parts, seats, acted, AlwaysInitialState, buffer_rng, g) matches Ok(a)
            ==> a.buffer_rng == buffer_rng,
    decreases g,
{
    if g > 0 {
        lemma_advanced_draws_nothing(parts, seats, acted, buffer_rng, (g - 1) as nat);
    }
}

proof fn lemma_flushed_draws_nothing<
    N: Scalar,
    G: Game<N>,
    E: StateEncoder<State = G::State>,
    W: Reward<N, Event = G::Event>,
    P: Policy<N>,
    L: Learner<N, E::Feature, P::Evaluation, E>,
>(
    parts: Parts<G, E, W, P, L>,
    p: ProgressOf<N, G, E, P, L, AlwaysInitialState>,
    finished: Seq<(usize, bool)>,
    meta: Seq<(usize, usize)>,
    tails: Seq<Seq<N>>,
    k: nat,
)
    requires
        k <= finished.len(),
    ensures
        flushed(parts, p, finished, meta, tails, k) matches Ok(q) ==> q.buffer_rng == p.buffer_rng,
    decreases k,
{
    if k > 0 {
        lemma_flushed_draws_nothing(parts, p, finished, meta, tails, (k - 1) as nat);
    }
}

proof fn lemma_ticking_draws_nothing<
    N: Scalar,
    G: Game<N>,
    E: StateEncoder<State = G::State>,
    W: Reward<N, Event = G::Event>,
    P: Planner<N, G, E, W, B>,
    L: Learner<N, E::Feature, P::Evaluation, E>,
    B: Infer<E::Feature, N>,
>(
    parts: Parts<G, E, W, P, L>,
    n_records: nat,
    a: ProgressOf<N, G, E, P, L, AlwaysInitialState>,
    chain: Seq<ProgressOf<N, G, E, P, L, AlwaysInitialState>>,
    nets: Seq<B>,
    j: int,
)
    requires
        ticking::<N, G, E, W, P, L, B, AlwaysInitialState>(parts, n_records, a, chain, nets),
        0 <= j < chain.len(),
    ensures
        chain[j].buffer_rng == a.buffer_rng,
    decreases j,
{
    if j > 0 {
        lemma_ticking_draws_nothing::<N, G, E, W, P, L, B>(parts, n_records, a, chain, nets, j - 1);
        assert(ticked_at::<N, G, E, W, P, L, B, AlwaysInitialState>(
            parts,
            n_records,
            chain,
            nets,
            j - 1,
        ));
        let c = chain[j - 1];
        let b = chain[j];
        let (evals, mid, between, rows) = choose|
            evals: Seq<(P::Evaluation, Vec<InteriorTarget<E::Feature, N>>)>,
            mid: RoundOf<N, G, E, P, L>,
            between: B,
            rows: Seq<Seq<N>>,
        | #[trigger]
            tick_by::<N, G, E, W, P, L, B, AlwaysInitialState>(
                parts,
                c,
                evals,
                mid,
                nets[j - 1],
                between,
                nets[j],
                rows,
                b,
            );
        let seats = valued(parts, mid.seats, mid.acted);
        let adv = advanced(parts, seats, mid.acted, c.start, c.buffer_rng, seats.len())->Ok_0;
        let p = moved_on::<N, G, E, W, P, L, AlwaysInitialState>(
            adv,
            mid,
            next_number(c.search_rng).1,
        );
        let wanted = tails_wanted(parts, p.seats, adv.finished);
        let tails = tails_read(parts, p.seats, wanted, rows, wanted.len())->Ok_0;
        assert(finished_off(parts, p, adv.finished, rows) == Ok::<_, Fault>(b));
        lemma_advanced_draws_nothing(parts, seats, mid.acted, c.buffer_rng, seats.len());
        lemma_flushed_draws_nothing(parts, p, adv.finished, wanted, tails, adv.finished.len());
    }
}

/// Where every episode begins afresh, the start distribution's generator is not drawn from.
pub proof fn law_fresh_starts_draw_nothing<
    N: Scalar,
    G: Game<N>,
    E: StateEncoder<State = G::State>,
    W: Reward<N, Event = G::Event>,
    P: Planner<N, G, E, W, B>,
    L: Learner<N, E::Feature, P::Evaluation, E>,
    B: Infer<E::Feature, N>,
>(
    parts: Parts<G, E, W, P, L>,
    n_records: nat,
    max_ticks: nat,
    a: ProgressOf<N, G, E, P, L, AlwaysInitialState>,
    source: (B, B),
    b: ProgressOf<N, G, E, P, L, AlwaysInitialState>,
)
    requires
        collected::<N, G, E, W, P, L, B, AlwaysInitialState>(
            parts,
            n_records,
            max_ticks,
            a,
            source,
            b,
        ),
    ensures
        b.buffer_rng == a.buffer_rng,
{
    let (chain, nets) = choose|chain: Seq<ProgressOf<N, G, E, P, L, AlwaysInitialState>>, nets: Seq<B>| #[trigger]
        collection::<N, G, E, W, P, L, B, AlwaysInitialState>(
            parts,
            n_records,
            max_ticks,
            a,
            source,
            chain,
            nets,
            b,
        );
    lemma_ticking_draws_nothing::<N, G, E, W, P, L, B>(
        parts,
        n_records,
        a,
        chain,
        nets,
        chain.len() - 1,
    );
    let p = chain.last();
    if parts.learner.spec_bootstraps_fragments() {
        let meta = tails_wanted(parts, p.seats, all_live(p.seats.len()));
        let rows = choose|rows: Seq<Seq<N>>| #[trigger]
            requests_served::<N, G, E, B>(
                parts.encoder,
                requests_for(p.seats, meta),
                (nets.last(), source.1),
                rows,
            ) && Ok::<
                _,
                Fault,
            >(b) == fragments(parts, p, rows);
        let tails = tails_read(parts, p.seats, meta, rows, meta.len())->Ok_0;
        lemma_cut_streams(parts, p, meta, tails, p.seats.len());
    }
}

} // verus!
