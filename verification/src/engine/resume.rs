//! What a restored engine collects.

use vstd::prelude::*;

#[allow(unused_imports)]
use super::advance::{advanced, valued};
#[allow(unused_imports)]
use super::decide::{asked, requests_for, RoundOf};
#[allow(unused_imports)]
use super::flush::{all_live, fragments, tails_wanted, ProgressOf};
#[allow(unused_imports)]
use super::run::{at_start, collect_fails, collected, collection, ticked_at, ticking, EngineOf};
#[allow(unused_imports)]
use super::seat::Parts;
#[allow(unused_imports)]
use super::snapshot::{engine_bytes, law_snapshot_restores, restored, shape_of, storable_seat};
#[allow(unused_imports)]
use super::tick::{decided_at, deciding, evaluated, moved_on, next_number, round_of, tick, tick_by};
#[allow(unused_imports)]
use crate::codec::StateCodec;
#[allow(unused_imports)]
use crate::codec::bytes::{faithful_words, DecodeFault, Word};
#[allow(unused_imports)]
use crate::encoder::StateEncoder;
#[allow(unused_imports)]
use crate::fault::Fault;
#[allow(unused_imports)]
use crate::game::Game;
#[allow(unused_imports)]
use crate::learner::Learner;
#[allow(unused_imports)]
use crate::num::{faithful_bits, Scalar};
#[allow(unused_imports)]
use crate::policies::modelfree::{answer_rows, request_agents, request_rows, requests_served};
#[allow(unused_imports)]
use crate::policies::planner::Planner;
#[allow(unused_imports)]
use crate::policies::tree::expectimax::backup::{targets, InteriorTarget};
#[allow(unused_imports)]
use crate::policies::tree::expectimax::search::{infers, Infer};
#[allow(unused_imports)]
use crate::reward::Reward;
#[allow(unused_imports)]
use crate::rng::SplitMix64;
#[allow(unused_imports)]
use crate::start::{StartDistribution, StoredStart};

verus! {

/// A restored engine collects what the stored one would have: it is restored without a fault, it
/// stores itself as the same bytes, and whatever the one may collect next, or may fail with, the
/// other may.
pub proof fn law_restored_engines_collect_alike<
    N: Scalar,
    G: Game<N>,
    E: StateEncoder<State = G::State>,
    W: Reward<N, Event = G::Event>,
    P: Planner<N, G, E, W, B>,
    L: Learner<N, E::Feature, P::Evaluation, E>,
    B: Infer<E::Feature, N>,
    K: StateCodec<State = G::State>,
    D: StoredStart<G::State, K>,
>(
    parts: Parts<G, E, W, P, L>,
    codec: K,
    stored: EngineOf<N, G, E, P, D>,
    other: EngineOf<N, G, E, P, D>,
    n_records: nat,
    max_ticks: nat,
    source: (B, B),
    b: ProgressOf<N, G, E, P, L, D>,
    f: Fault,
) where E::Feature: Word
    requires
        faithful_bits::<N>(),
        faithful_words::<E::Feature>(),
        stored.seats.len() == other.seats.len() <= u32::MAX,
        parts.game.spec_num_agents() <= u32::MAX,
        forall|g: int|
            0 <= g < stored.seats.len() ==> storable_seat::<N, G::State, E::Feature, P, K>(
                parts.policy,
                codec,
                shape_of(parts),
                #[trigger] stored.seats[g],
            ),
        stored.start.spec_snapshot(codec).len() <= u32::MAX,
        other.start.spec_restored(codec, stored.start.spec_snapshot(codec)) == Ok::<_, DecodeFault>(
            stored.start,
        ),
    ensures
        restored::<N, G, E, W, P, L, K, D>(
            parts,
            codec,
            other,
            engine_bytes::<N, G, E, W, P, L, K, D>(parts, codec, stored),
        ) matches Ok(again) && {
            &&& engine_bytes::<N, G, E, W, P, L, K, D>(parts, codec, again) == engine_bytes::<
                N,
                G,
                E,
                W,
                P,
                L,
                K,
                D,
            >(parts, codec, stored)
            &&& collected::<N, G, E, W, P, L, B, D>(
                parts,
                n_records,
                max_ticks,
                at_start::<N, G, E, W, P, L, D>(again),
                source,
                b,
            ) == collected::<N, G, E, W, P, L, B, D>(
                parts,
                n_records,
                max_ticks,
                at_start::<N, G, E, W, P, L, D>(stored),
                source,
                b,
            )
            &&& collect_fails::<N, G, E, W, P, L, B, D>(
                parts,
                n_records,
                max_ticks,
                at_start::<N, G, E, W, P, L, D>(again),
                source.0,
                f,
            ) == collect_fails::<N, G, E, W, P, L, B, D>(
                parts,
                n_records,
                max_ticks,
                at_start::<N, G, E, W, P, L, D>(stored),
                source.0,
                f,
            )
        },
{
    law_snapshot_restores::<N, G, E, W, P, L, K, D>(parts, codec, stored, other);
}

/// A network that hands itself back, and answers the same to the same.
pub open spec fn steady_net<F, N, B: Infer<F, N>>(net: B) -> bool {
    &&& forall|players: Seq<usize>, obs: Seq<Seq<F>>, out: Seq<N>, after: B| #[trigger]
        infers(net, players, obs, out, after) ==> after == net
    &&& forall|
        players: Seq<usize>,
        obs: Seq<Seq<F>>,
        out: Seq<N>,
        after: B,
        again: Seq<N>,
        last: B,
    | #[trigger]
        infers(net, players, obs, out, after) && #[trigger] infers(net, players, obs, again, last)
            ==> out == again
}

/// Evaluations that say the same.
pub open spec fn same_said<V: View, F, N>(
    a: Seq<(V, Vec<InteriorTarget<F, N>>)>,
    b: Seq<(V, Vec<InteriorTarget<F, N>>)>,
) -> bool {
    &&& a.len() == b.len()
    &&& forall|i: int|
        0 <= i < a.len() ==> (#[trigger] a[i]).0@ == b[i].0@ && targets(a[i].1@) == targets(
            b[i].1@,
        )
}

/// A policy that with the network `net` evaluates the same to the same, hands the network back, and
/// selects the same from the same.
pub open spec fn steady_policy<
    N: Scalar,
    G: Game<N>,
    E: StateEncoder<State = G::State>,
    W: Reward<N, Event = G::Event>,
    P: Planner<N, G, E, W, B>,
    L: Learner<N, E::Feature, P::Evaluation, E>,
    B: Infer<E::Feature, N>,
>(parts: Parts<G, E, W, P, L>, net: B) -> bool {
    &&& forall|
        requests: Seq<(G::State, usize)>,
        seed: u64,
        interior: bool,
        nets: (B, B),
        evals: Seq<(P::Evaluation, Vec<InteriorTarget<E::Feature, N>>)>,
        others: (B, B),
        again: Seq<(P::Evaluation, Vec<InteriorTarget<E::Feature, N>>)>,
    |
        (#[trigger] <P as Planner<N, G, E, W, B>>::evaluates(
            &parts.policy,
            parts.game,
            parts.encoder,
            parts.reward,
            requests,
            seed,
            interior,
            nets,
            evals,
        )) && (#[trigger] <P as Planner<N, G, E, W, B>>::evaluates(
            &parts.policy,
            parts.game,
            parts.encoder,
            parts.reward,
            requests,
            seed,
            interior,
            others,
            again,
        )) && nets.0 == net && others.0 == net ==> nets.1 == net && same_said(evals, again)
    &&& forall|
        eval: <P::Evaluation as View>::V,
        state: P::PolicyState,
        rng: SplitMix64,
        x: usize,
        sx: P::PolicyState,
        rx: SplitMix64,
        y: usize,
        sy: P::PolicyState,
        ry: SplitMix64,
    | #[trigger]
        parts.policy.selects(eval, state, rng, x, sx, rx) && #[trigger] parts.policy.selects(
            eval,
            state,
            rng,
            y,
            sy,
            ry,
        ) ==> x == y && sx == sy && rx == ry
}

/// A network that answers the same to the same serves requests the same.
pub proof fn lemma_served_once<
    N: Scalar,
    G: Game<N>,
    E: StateEncoder<State = G::State>,
    B: Infer<E::Feature, N>,
>(
    enc: E,
    requests: Seq<(G::State, usize)>,
    net: B,
    after: B,
    rows: Seq<Seq<N>>,
    last: B,
    again: Seq<Seq<N>>,
)
    requires
        steady_net::<E::Feature, N, B>(net),
        requests_served::<N, G, E, B>(enc, requests, (net, after), rows),
        requests_served::<N, G, E, B>(enc, requests, (net, last), again),
    ensures
        after == net,
        last == net,
        rows == again,
{
    if requests.len() > 0 {
        let nets = (net, after);
        let others = (net, last);
        let players = request_agents(requests);
        let obs = request_rows::<N, G, E>(enc, requests);
        let x = choose|x: Seq<N>| #[trigger]
            infers(nets.0, players, obs, x, nets.1) && rows == answer_rows(
                x,
                requests.len(),
                x.len() / requests.len(),
            );
        let y = choose|y: Seq<N>| #[trigger]
            infers(others.0, players, obs, y, others.1) && again == answer_rows(
                y,
                requests.len(),
                y.len() / requests.len(),
            );
        assert(infers(net, players, obs, x, after) && infers(net, players, obs, y, last));
    } else {
        assert(rows =~= again);
    }
}

proof fn lemma_deciding_once<
    N: Scalar,
    G: Game<N>,
    E: StateEncoder<State = G::State>,
    W: Reward<N, Event = G::Event>,
    P: Planner<N, G, E, W, B>,
    L: Learner<N, E::Feature, P::Evaluation, E>,
    B: Infer<E::Feature, N>,
>(
    parts: Parts<G, E, W, P, L>,
    net: B,
    a: RoundOf<N, G, E, P, L>,
    evals: Seq<(P::Evaluation, Vec<InteriorTarget<E::Feature, N>>)>,
    again: Seq<(P::Evaluation, Vec<InteriorTarget<E::Feature, N>>)>,
    meta: Seq<(usize, usize)>,
    chain: Seq<RoundOf<N, G, E, P, L>>,
    other: Seq<RoundOf<N, G, E, P, L>>,
    j: int,
)
    requires
        steady_policy::<N, G, E, W, P, L, B>(parts, net),
        same_said(evals, again),
        deciding(parts, a, evals, meta, chain),
        deciding(parts, a, again, meta, other),
        0 <= j < chain.len(),
        j < other.len(),
    ensures
        chain[j] == other[j],
    decreases j,
{
    if j > 0 {
        lemma_deciding_once::<N, G, E, W, P, L, B>(
            parts,
            net,
            a,
            evals,
            again,
            meta,
            chain,
            other,
            j - 1,
        );
        assert(decided_at(parts, chain, evals, meta, j - 1));
        assert(decided_at(parts, other, again, meta, j - 1));
        assert(evals[j - 1].0@ == again[j - 1].0@);
        let b = chain[j - 1 + 1];
        let c = other[j - 1 + 1];
        assert(b.acted =~= c.acted);
        assert(b.seats =~= c.seats);
        assert(b == c);
    }
}

/// A tick repeats.
proof fn lemma_tick_once<
    N: Scalar,
    G: Game<N>,
    E: StateEncoder<State = G::State>,
    W: Reward<N, Event = G::Event>,
    P: Planner<N, G, E, W, B>,
    L: Learner<N, E::Feature, P::Evaluation, E>,
    B: Infer<E::Feature, N>,
    D: StartDistribution<G::State>,
>(
    parts: Parts<G, E, W, P, L>,
    net: B,
    a: ProgressOf<N, G, E, P, L, D>,
    after: B,
    b: ProgressOf<N, G, E, P, L, D>,
    last: B,
    c: ProgressOf<N, G, E, P, L, D>,
)
    requires
        steady_net::<E::Feature, N, B>(net),
        steady_policy::<N, G, E, W, P, L, B>(parts, net),
        tick::<N, G, E, W, P, L, B, D>(parts, a, net, after, b),
        tick::<N, G, E, W, P, L, B, D>(parts, a, net, last, c),
    ensures
        after == net,
        last == net,
        b == c,
{
    let meta = asked(parts.game, a.seats, a.seats.len());
    let (evals, mid, between, rows) = choose|
        evals: Seq<(P::Evaluation, Vec<InteriorTarget<E::Feature, N>>)>,
        mid: RoundOf<N, G, E, P, L>,
        between: B,
        rows: Seq<Seq<N>>,
    | #[trigger]
        tick_by::<N, G, E, W, P, L, B, D>(parts, a, evals, mid, net, between, after, rows, b);
    let (again, also, later, others) = choose|
        evals: Seq<(P::Evaluation, Vec<InteriorTarget<E::Feature, N>>)>,
        mid: RoundOf<N, G, E, P, L>,
        between: B,
        rows: Seq<Seq<N>>,
    | #[trigger]
        tick_by::<N, G, E, W, P, L, B, D>(parts, a, evals, mid, net, between, last, rows, c);
    assert(evaluated::<N, G, E, W, P, L, B, D>(parts, a, net, between, evals));
    assert(evaluated::<N, G, E, W, P, L, B, D>(parts, a, net, later, again));
    assert(same_said(evals, again) && same_said(again, evals));
    let first = round_of(parts, a);
    let chain = choose|chain: Seq<RoundOf<N, G, E, P, L>>| #[trigger]
        deciding(parts, first, evals, meta, chain) && chain.last() == mid && (chain.len() - 1
            == evals.len() || chain.len() - 1 == meta.len());
    let other = choose|other: Seq<RoundOf<N, G, E, P, L>>| #[trigger]
        deciding(parts, first, again, meta, other) && other.last() == also && (other.len() - 1
            == again.len() || other.len() - 1 == meta.len());
    lemma_deciding_once::<N, G, E, W, P, L, B>(
        parts,
        net,
        first,
        evals,
        again,
        meta,
        chain,
        other,
        chain.len() - 1,
    );
    assert(mid == also);
    let seats = valued(parts, mid.seats, mid.acted);
    let adv = advanced(parts, seats, mid.acted, a.start, a.buffer_rng, seats.len())->Ok_0;
    let p = moved_on::<N, G, E, W, P, L, D>(adv, mid, next_number(a.search_rng).1);
    let wanted = tails_wanted(parts, p.seats, adv.finished);
    lemma_served_once::<N, G, E, B>(
        parts.encoder,
        requests_for(p.seats, wanted),
        net,
        after,
        rows,
        last,
        others,
    );
}

proof fn lemma_ticking_once<
    N: Scalar,
    G: Game<N>,
    E: StateEncoder<State = G::State>,
    W: Reward<N, Event = G::Event>,
    P: Planner<N, G, E, W, B>,
    L: Learner<N, E::Feature, P::Evaluation, E>,
    B: Infer<E::Feature, N>,
    D: StartDistribution<G::State>,
>(
    parts: Parts<G, E, W, P, L>,
    n_records: nat,
    net: B,
    a: ProgressOf<N, G, E, P, L, D>,
    chain: Seq<ProgressOf<N, G, E, P, L, D>>,
    nets: Seq<B>,
    other: Seq<ProgressOf<N, G, E, P, L, D>>,
    others: Seq<B>,
    j: int,
)
    requires
        steady_net::<E::Feature, N, B>(net),
        steady_policy::<N, G, E, W, P, L, B>(parts, net),
        ticking::<N, G, E, W, P, L, B, D>(parts, n_records, a, chain, nets),
        ticking::<N, G, E, W, P, L, B, D>(parts, n_records, a, other, others),
        nets[0] == net,
        others[0] == net,
        0 <= j < chain.len(),
        j < other.len(),
    ensures
        chain[j] == other[j],
        nets[j] == net,
        others[j] == net,
    decreases j,
{
    if j > 0 {
        lemma_ticking_once::<N, G, E, W, P, L, B, D>(
            parts,
            n_records,
            net,
            a,
            chain,
            nets,
            other,
            others,
            j - 1,
        );
        assert(ticked_at::<N, G, E, W, P, L, B, D>(parts, n_records, chain, nets, j - 1));
        assert(ticked_at::<N, G, E, W, P, L, B, D>(parts, n_records, other, others, j - 1));
        lemma_tick_once::<N, G, E, W, P, L, B, D>(
            parts,
            net,
            chain[j - 1],
            nets[j],
            chain[j],
            others[j],
            other[j],
        );
    }
}

/// A collection repeats: with a network that hands itself back and answers the same to the same, and
/// a policy that evaluates and selects the same from the same, two collections from one state give
/// the same records and telemetry, and leave the same state and network.
pub proof fn law_collections_repeat<
    N: Scalar,
    G: Game<N>,
    E: StateEncoder<State = G::State>,
    W: Reward<N, Event = G::Event>,
    P: Planner<N, G, E, W, B>,
    L: Learner<N, E::Feature, P::Evaluation, E>,
    B: Infer<E::Feature, N>,
    D: StartDistribution<G::State>,
>(
    parts: Parts<G, E, W, P, L>,
    n_records: nat,
    max_ticks: nat,
    a: ProgressOf<N, G, E, P, L, D>,
    net: B,
    after: B,
    b: ProgressOf<N, G, E, P, L, D>,
    last: B,
    c: ProgressOf<N, G, E, P, L, D>,
)
    requires
        steady_net::<E::Feature, N, B>(net),
        steady_policy::<N, G, E, W, P, L, B>(parts, net),
        collected::<N, G, E, W, P, L, B, D>(parts, n_records, max_ticks, a, (net, after), b),
        collected::<N, G, E, W, P, L, B, D>(parts, n_records, max_ticks, a, (net, last), c),
    ensures
        b == c,
        after == net,
        last == net,
{
    let (chain, nets) = choose|chain: Seq<ProgressOf<N, G, E, P, L, D>>, nets: Seq<B>| #[trigger]
        collection::<N, G, E, W, P, L, B, D>(
            parts,
            n_records,
            max_ticks,
            a,
            (net, after),
            chain,
            nets,
            b,
        );
    let (other, others) = choose|chain: Seq<ProgressOf<N, G, E, P, L, D>>, nets: Seq<B>| #[trigger]
        collection::<N, G, E, W, P, L, B, D>(
            parts,
            n_records,
            max_ticks,
            a,
            (net, last),
            chain,
            nets,
            c,
        );
    let j = if chain.len() <= other.len() {
        chain.len() - 1
    } else {
        other.len() - 1
    };
    lemma_ticking_once::<N, G, E, W, P, L, B, D>(
        parts,
        n_records,
        net,
        a,
        chain,
        nets,
        other,
        others,
        j,
    );
    if chain.len() < other.len() {
        assert(ticked_at::<N, G, E, W, P, L, B, D>(parts, n_records, other, others, j));
    }
    if other.len() < chain.len() {
        assert(ticked_at::<N, G, E, W, P, L, B, D>(parts, n_records, chain, nets, j));
    }
    assert(chain.len() == other.len());
    let p = chain.last();
    if parts.learner.spec_bootstraps_fragments() {
        let requests = requests_for(
            p.seats,
            tails_wanted(parts, p.seats, all_live(p.seats.len())),
        );
        let rows = choose|rows: Seq<Seq<N>>| #[trigger]
            requests_served::<N, G, E, B>(parts.encoder, requests, (nets.last(), after), rows)
                && Ok::<_, Fault>(b) == fragments(parts, p, rows);
        let again = choose|rows: Seq<Seq<N>>| #[trigger]
            requests_served::<N, G, E, B>(parts.encoder, requests, (others.last(), last), rows)
                && Ok::<_, Fault>(c) == fragments(parts, p, rows);
        lemma_served_once::<N, G, E, B>(parts.encoder, requests, net, after, rows, last, again);
    }
}

/// A restored engine repeats: with a network that hands itself back and answers the same to the same,
/// and a policy that evaluates and selects the same from the same, an engine that was restored to what
/// another stored stores itself as the same bytes and collects the same records, whatever it had
/// collected before.
pub proof fn law_restored_engines_repeat<
    N: Scalar,
    G: Game<N>,
    E: StateEncoder<State = G::State>,
    W: Reward<N, Event = G::Event>,
    P: Planner<N, G, E, W, B>,
    L: Learner<N, E::Feature, P::Evaluation, E>,
    B: Infer<E::Feature, N>,
    K: StateCodec<State = G::State>,
    D: StoredStart<G::State, K>,
>(
    parts: Parts<G, E, W, P, L>,
    codec: K,
    stored: EngineOf<N, G, E, P, D>,
    other: EngineOf<N, G, E, P, D>,
    again: EngineOf<N, G, E, P, D>,
    n_records: nat,
    max_ticks: nat,
    net: B,
    after: B,
    b: ProgressOf<N, G, E, P, L, D>,
    last: B,
    c: ProgressOf<N, G, E, P, L, D>,
) where E::Feature: Word
    requires
        faithful_bits::<N>(),
        faithful_words::<E::Feature>(),
        stored.seats.len() == other.seats.len() <= u32::MAX,
        parts.game.spec_num_agents() <= u32::MAX,
        forall|g: int|
            0 <= g < stored.seats.len() ==> storable_seat::<N, G::State, E::Feature, P, K>(
                parts.policy,
                codec,
                shape_of(parts),
                #[trigger] stored.seats[g],
            ),
        stored.start.spec_snapshot(codec).len() <= u32::MAX,
        other.start.spec_restored(codec, stored.start.spec_snapshot(codec)) == Ok::<_, DecodeFault>(
            stored.start,
        ),
        steady_net::<E::Feature, N, B>(net),
        steady_policy::<N, G, E, W, P, L, B>(parts, net),
        restored::<N, G, E, W, P, L, K, D>(
            parts,
            codec,
            other,
            engine_bytes::<N, G, E, W, P, L, K, D>(parts, codec, stored),
        ) == Ok::<_, DecodeFault>(again),
        collected::<N, G, E, W, P, L, B, D>(
            parts,
            n_records,
            max_ticks,
            at_start::<N, G, E, W, P, L, D>(stored),
            (net, after),
            b,
        ),
        collected::<N, G, E, W, P, L, B, D>(
            parts,
            n_records,
            max_ticks,
            at_start::<N, G, E, W, P, L, D>(again),
            (net, last),
            c,
        ),
    ensures
        engine_bytes::<N, G, E, W, P, L, K, D>(parts, codec, again) == engine_bytes::<
            N,
            G,
            E,
            W,
            P,
            L,
            K,
            D,
        >(parts, codec, stored),
        c.records == b.records,
        c == b,
{
    law_snapshot_restores::<N, G, E, W, P, L, K, D>(parts, codec, stored, other);
    law_collections_repeat::<N, G, E, W, P, L, B, D>(
        parts,
        n_records,
        max_ticks,
        at_start::<N, G, E, W, P, L, D>(stored),
        net,
        after,
        b,
        last,
        c,
    );
}

} // verus!
