//! What the telemetry of a collection adds up to.

use vstd::prelude::*;

use super::advance::{advanced, valued};
use super::decide::{asked, decision, requests_for};
#[allow(unused_imports)]
use super::decide::RoundOf;
use super::flush::{
    all_live, cut_off, finished_off, flushed, fragments, tails_read, tails_wanted, Progress,
};
#[allow(unused_imports)]
use super::flush::ProgressOf;
use super::run::{collected, collection, ticked_at, ticking};
use super::seat::Parts;
use super::tick::{
    decided_at, deciding, decisions, evaluated, moved_on, next_number, round_of, tick, tick_by,
};
use crate::encoder::StateEncoder;
use crate::fault::Fault;
use crate::game::Game;
use crate::learner::Learner;
use crate::num::Scalar;
use crate::policies::modelfree::requests_served;
use crate::policies::planner::Planner;
use crate::policies::tree::alphazero::{puct, AlphaZero};
use crate::policies::tree::evaluation::{EvaluationModel, SearchEvaluation};
use crate::policies::tree::expectimax::backup::InteriorTarget;
use crate::policies::tree::expectimax::evaluate::Exp;
use crate::policies::tree::expectimax::search::Infer;
use crate::policies::tree::mcts::act::Pow;
use crate::policies::tree::mcts::policy::{
    law_search_balances, plain_evaluations, searched, Mcts, SequentialBackup,
};
use crate::policies::tree::mcts::pool::Batch;
use crate::policies::tree::mcts::select::{Guidance, Ln};
use crate::policy::Policy;
use crate::reward::Reward;
use crate::rng::{GammaSource, SplitMix64};
use crate::start::StartDistribution;
use crate::stats::{balanced, law_fold_balances, search_balanced, StatsModel};

verus! {

/// Folding `eval` adds the fates of `sims` simulations, and no decision.
pub open spec fn adds_fates<N: Scalar, P: Policy<N>>(
    policy: P,
    eval: P::Evaluation,
    sims: int,
) -> bool {
    forall|m: StatsModel<N>, before: int|
        (#[trigger] balanced(m, before)) && (#[trigger] policy.spec_fold_telemetry(
            eval@,
            m,
        )) is Ok ==> {
            let b = policy.spec_fold_telemetry(eval@, m)->Ok_0;
            balanced(b, before + sims) && b.decisions == m.decisions
        }
}

/// Whatever the policy evaluates tells the fates of `sims` simulations.
pub open spec fn tells_fates<
    N: Scalar,
    G: Game<N>,
    E: StateEncoder<State = G::State>,
    W: Reward<N, Event = G::Event>,
    P: Planner<N, G, E, W, B>,
    L: Learner<N, E::Feature, P::Evaluation, E>,
    B: Infer<E::Feature, N>,
>(parts: Parts<G, E, W, P, L>, sims: int) -> bool {
    forall|
        requests: Seq<(G::State, usize)>,
        seed: u64,
        interior: bool,
        source: (B, B),
        evals: Seq<(P::Evaluation, Vec<InteriorTarget<E::Feature, N>>)>,
        j: int,
    |
        (#[trigger] <P as Planner<N, G, E, W, B>>::evaluates(
            &parts.policy,
            parts.game,
            parts.encoder,
            parts.reward,
            requests,
            seed,
            interior,
            source,
            evals,
        )) && 0 <= j < evals.len() ==> adds_fates(parts.policy, (#[trigger] evals[j]).0, sims)
}

/// The fates told are those of `sims` simulations for each decision.
pub open spec fn per_decision<N>(m: StatsModel<N>, sims: int) -> bool {
    balanced(m, m.decisions * sims)
}

proof fn lemma_decisions_tell<
    N: Scalar,
    G: Game<N>,
    E: StateEncoder<State = G::State>,
    W: Reward<N, Event = G::Event>,
    P: Policy<N>,
    L: Learner<N, E::Feature, P::Evaluation, E>,
>(
    parts: Parts<G, E, W, P, L>,
    a: RoundOf<N, G, E, P, L>,
    evals: Seq<(P::Evaluation, Vec<InteriorTarget<E::Feature, N>>)>,
    meta: Seq<(usize, usize)>,
    chain: Seq<RoundOf<N, G, E, P, L>>,
    j: int,
    sims: int,
)
    requires
        deciding(parts, a, evals, meta, chain),
        0 <= j < chain.len(),
        forall|i: int|
            0 <= i < evals.len() ==> adds_fates(parts.policy, (#[trigger] evals[i]).0, sims),
        per_decision(a.stats, sims),
    ensures
        per_decision(chain[j].stats, sims),
    decreases j,
{
    if j > 0 {
        lemma_decisions_tell(parts, a, evals, meta, chain, j - 1, sims);
        assert(decided_at(parts, chain, evals, meta, j - 1));
        let was = chain[j - 1].stats;
        let counted = StatsModel { decisions: (was.decisions + 1) as usize, ..was };
        assert(adds_fates(parts.policy, evals[j - 1].0, sims));
        assert(balanced(counted, was.decisions * sims));
        let _ = parts.policy.spec_fold_telemetry(evals[j - 1].0@, counted);
        assert(balanced(chain[j].stats, was.decisions * sims + sims));
        assert((was.decisions + 1) * sims == was.decisions * sims + sims) by (nonlinear_arith);
    }
}

proof fn lemma_flushed_tells<
    N: Scalar,
    G: Game<N>,
    E: StateEncoder<State = G::State>,
    W: Reward<N, Event = G::Event>,
    P: Policy<N>,
    L: Learner<N, E::Feature, P::Evaluation, E>,
    D: StartDistribution<G::State>,
>(
    parts: Parts<G, E, W, P, L>,
    p: ProgressOf<N, G, E, P, L, D>,
    finished: Seq<(usize, bool)>,
    meta: Seq<(usize, usize)>,
    tails: Seq<Seq<N>>,
    k: nat,
    sims: int,
)
    requires
        k <= finished.len(),
        per_decision(p.stats, sims),
    ensures
        flushed(parts, p, finished, meta, tails, k) matches Ok(q) ==> per_decision(q.stats, sims),
    decreases k,
{
    if k > 0 {
        lemma_flushed_tells(parts, p, finished, meta, tails, (k - 1) as nat, sims);
    }
}

proof fn lemma_tick_tells<
    N: Scalar,
    G: Game<N>,
    E: StateEncoder<State = G::State>,
    W: Reward<N, Event = G::Event>,
    P: Planner<N, G, E, W, B>,
    L: Learner<N, E::Feature, P::Evaluation, E>,
    B: Infer<E::Feature, N>,
    D: StartDistribution<G::State>,
>(
    parts: Parts<G, E, W, P, L>,
    a: ProgressOf<N, G, E, P, L, D>,
    before: B,
    after: B,
    b: ProgressOf<N, G, E, P, L, D>,
    sims: int,
)
    requires
        tells_fates::<N, G, E, W, P, L, B>(parts, sims),
        per_decision(a.stats, sims),
        tick::<N, G, E, W, P, L, B, D>(parts, a, before, after, b),
    ensures
        per_decision(b.stats, sims),
{
    let meta = asked(parts.game, a.seats, a.seats.len());
    let (evals, mid, between, rows) = choose|
        evals: Seq<(P::Evaluation, Vec<InteriorTarget<E::Feature, N>>)>,
        mid: RoundOf<N, G, E, P, L>,
        between: B,
        rows: Seq<Seq<N>>,
    | #[trigger]
        tick_by::<N, G, E, W, P, L, B, D>(
            parts,
            a,
            evals,
            mid,
            before,
            between,
            after,
            rows,
            b,
        );
    let first = round_of(parts, a);
    let chain = choose|chain: Seq<RoundOf<N, G, E, P, L>>| #[trigger]
        deciding(parts, first, evals, meta, chain) && chain.last() == mid && (chain.len() - 1
            == evals.len() || chain.len() - 1 == meta.len());
    assert(evaluated::<N, G, E, W, P, L, B, D>(parts, a, before, between, evals));
    assert forall|i: int| 0 <= i < evals.len() implies adds_fates(
        parts.policy,
        (#[trigger] evals[i]).0,
        sims,
    ) by {}
    lemma_decisions_tell(parts, first, evals, meta, chain, chain.len() - 1, sims);
    let seats = valued(parts, mid.seats, mid.acted);
    let adv = advanced(parts, seats, mid.acted, a.start, a.buffer_rng, seats.len())->Ok_0;
    let p = moved_on::<N, G, E, W, P, L, D>(adv, mid, next_number(a.search_rng).1);
    let wanted = tails_wanted(parts, p.seats, adv.finished);
    let tails = tails_read(parts, p.seats, wanted, rows, wanted.len())->Ok_0;
    assert(finished_off(parts, p, adv.finished, rows) == Ok::<_, Fault>(b));
    lemma_flushed_tells(parts, p, adv.finished, wanted, tails, adv.finished.len(), sims);
}

proof fn lemma_ticking_tells<
    N: Scalar,
    G: Game<N>,
    E: StateEncoder<State = G::State>,
    W: Reward<N, Event = G::Event>,
    P: Planner<N, G, E, W, B>,
    L: Learner<N, E::Feature, P::Evaluation, E>,
    B: Infer<E::Feature, N>,
    D: StartDistribution<G::State>,
>(
    parts: Parts<G, E, W, P, L>,
    n_records: nat,
    a: ProgressOf<N, G, E, P, L, D>,
    chain: Seq<ProgressOf<N, G, E, P, L, D>>,
    nets: Seq<B>,
    j: int,
    sims: int,
)
    requires
        tells_fates::<N, G, E, W, P, L, B>(parts, sims),
        per_decision(a.stats, sims),
        ticking::<N, G, E, W, P, L, B, D>(parts, n_records, a, chain, nets),
        0 <= j < chain.len(),
    ensures
        per_decision(chain[j].stats, sims),
    decreases j,
{
    if j > 0 {
        lemma_ticking_tells::<N, G, E, W, P, L, B, D>(parts, n_records, a, chain, nets, j - 1, sims);
        assert(ticked_at::<N, G, E, W, P, L, B, D>(parts, n_records, chain, nets, j - 1));
        lemma_tick_tells::<N, G, E, W, P, L, B, D>(
            parts,
            chain[j - 1],
            nets[j - 1],
            nets[j],
            chain[j], sims);
    }
}

proof fn lemma_cut_tells<
    N: Scalar,
    G: Game<N>,
    E: StateEncoder<State = G::State>,
    W: Reward<N, Event = G::Event>,
    P: Policy<N>,
    L: Learner<N, E::Feature, P::Evaluation, E>,
    D: StartDistribution<G::State>,
>(
    parts: Parts<G, E, W, P, L>,
    p: ProgressOf<N, G, E, P, L, D>,
    meta: Seq<(usize, usize)>,
    tails: Seq<Seq<N>>,
    k: nat,
    sims: int,
)
    requires
        k <= p.seats.len(),
        per_decision(p.stats, sims),
    ensures
        cut_off(parts, p, meta, tails, k) matches Ok(q) ==> per_decision(q.stats, sims),
    decreases k,
{
    if k > 0 {
        lemma_cut_tells(parts, p, meta, tails, (k - 1) as nat, sims);
    }
}

/// A collection keeps the balance of its telemetry, whatever the policy, if each of its evaluations
/// tells the fates of `sims` simulations.
pub proof fn law_collect_balances<
    N: Scalar,
    G: Game<N>,
    E: StateEncoder<State = G::State>,
    W: Reward<N, Event = G::Event>,
    P: Planner<N, G, E, W, B>,
    L: Learner<N, E::Feature, P::Evaluation, E>,
    B: Infer<E::Feature, N>,
    D: StartDistribution<G::State>,
>(
    parts: Parts<G, E, W, P, L>,
    n_records: nat,
    max_ticks: nat,
    a: ProgressOf<N, G, E, P, L, D>,
    source: (B, B),
    b: ProgressOf<N, G, E, P, L, D>,
    sims: int,
)
    requires
        tells_fates::<N, G, E, W, P, L, B>(parts, sims),
        per_decision(a.stats, sims),
        collected::<N, G, E, W, P, L, B, D>(
            parts,
            n_records,
            max_ticks,
            a,
            source,
            b,
        ),
    ensures
        per_decision(b.stats, sims),
{
    let (chain, nets) = choose|chain: Seq<ProgressOf<N, G, E, P, L, D>>, nets: Seq<B>| #[trigger]
        collection::<N, G, E, W, P, L, B, D>(
            parts,
            n_records,
            max_ticks,
            a,
            source,
            chain,
            nets,
            b,
        );
    lemma_ticking_tells::<N, G, E, W, P, L, B, D>(
        parts,
        n_records,
        a,
        chain,
        nets,
        chain.len() - 1,
        sims,
    );
    let p = chain.last();
    if parts.learner.spec_bootstraps_fragments() {
        let meta = tails_wanted(parts, p.seats, all_live(p.seats.len()));
        let rows = choose|rows: Seq<Seq<N>>| #[trigger]
            requests_served::<N, G, E, B>(
                parts.encoder,
                requests_for(p.seats, meta),
                (nets.last(), source.1),
                rows,
            ) && Ok::<
                _,
                Fault,
            >(b) == fragments(parts, p, rows);
        let tails = tails_read(parts, p.seats, meta, rows, meta.len())->Ok_0;
        lemma_cut_tells(parts, p, meta, tails, p.seats.len(), sims);
    }
}

/// After a collection with an AlphaZero policy, the decisions, times the simulations of each, are the
/// fresh, cached and shared rows, less the extra ones, and the ends at terminals and at the depth cap.
pub proof fn law_alphazero_balances<
    N: Scalar,
    G: Game<N>,
    E: StateEncoder<State = G::State>,
    W: Reward<N, Event = G::Event>,
    K: Exp<N> + Ln<N> + Pow<N> + GammaSource<N, SplitMix64>,
    L: Learner<N, E::Feature, SearchEvaluation<N>, E>,
    B: Infer<E::Feature, N> + Batch<E::Feature, N>,
    D: StartDistribution<G::State>,
>(
    parts: Parts<G, E, W, AlphaZero<N, K>, L>,
    n_records: nat,
    max_ticks: nat,
    a: Progress<G::State, u32, E::Feature, N, EvaluationModel<N>, L::Shown, D>,
    source: (B, B),
    b: Progress<G::State, u32, E::Feature, N, EvaluationModel<N>, L::Shown, D>,
)
    requires
        a.stats == StatsModel::<N>::none(),
        collected::<N, G, E, W, AlphaZero<N, K>, L, B, D>(
            parts,
            n_records,
            max_ticks,
            a,
            source,
            b,
        ),
    ensures
        b.stats.decisions * parts.policy.cfg.num_simulations == b.stats.sum_fresh_rows
            + b.stats.sum_hit_rows + b.stats.sum_shared_rows + b.stats.sum_terminal_sims
            + b.stats.sum_depthcap_sims - b.stats.sum_extra_eval_rows,
{
    let sims = parts.policy.cfg.num_simulations as int;
    assert forall|
        requests: Seq<(G::State, usize)>,
        seed: u64,
        interior: bool,
        source: (B, B),
        evals: Seq<(SearchEvaluation<N>, Vec<InteriorTarget<E::Feature, N>>)>,
        j: int,
    |
        (#[trigger] <AlphaZero<N, K> as Planner<N, G, E, W, B>>::evaluates(
            &parts.policy,
            parts.game,
            parts.encoder,
            parts.reward,
            requests,
            seed,
            interior,
            source,
            evals,
        )) && 0 <= j < evals.len() implies adds_fates(
        parts.policy,
        (#[trigger] evals[j]).0,
        sims,
    ) by {
        let plain = choose|plain: Seq<SearchEvaluation<N>>|
            searched(
                &parts.game,
                &parts.encoder,
                &parts.reward,
                parts.policy.cfg.num_simulations,
                parts.policy.cfg.gamma,
                parts.policy.cfg.max_depth,
                puct(parts.policy.cfg, seed),
                parts.policy.cfg.chance,
                &parts.policy.maths,
                source,
                requests,
                seed,
                parts.policy.cfg.sequential_backup == SequentialBackup::MaxN,
                plain,
            ) && #[trigger] plain_evaluations(evals, plain);
        law_search_balances(
            &parts.game,
            &parts.encoder,
            &parts.reward,
            parts.policy.cfg.num_simulations,
            parts.policy.cfg.gamma,
            parts.policy.cfg.max_depth,
            puct(parts.policy.cfg, seed),
            parts.policy.cfg.chance,
            &parts.policy.maths,
            source,
            requests,
            seed,
            parts.policy.cfg.sequential_backup == SequentialBackup::MaxN,
            plain,
        );
        assert(evals[j].0 == plain[j]);
        assert(search_balanced(plain[j]@, sims));
        assert forall|m: StatsModel<N>, before: int|
            (#[trigger] balanced(m, before)) && (#[trigger] parts.policy.spec_fold_telemetry(
                evals[j].0@,
                m,
            )) is Ok implies {
            let b = parts.policy.spec_fold_telemetry(evals[j].0@, m)->Ok_0;
            balanced(b, before + sims) && b.decisions == m.decisions
        } by {
            law_fold_balances(evals[j].0@, m, before, sims);
        }
    }
    law_collect_balances::<N, G, E, W, AlphaZero<N, K>, L, B, D>(
        parts,
        n_records,
        max_ticks,
        a,
        source,
        b,
        sims,
    );
}

/// After a collection with a UCT policy, the decisions, times the simulations of each, are the
/// fresh, cached and shared rows, less the extra ones, and the ends at terminals and at the depth cap.
pub proof fn law_uct_balances<
    N: Scalar,
    G: Game<N>,
    E: StateEncoder<State = G::State>,
    W: Reward<N, Event = G::Event>,
    K: Exp<N> + Ln<N> + Pow<N> + GammaSource<N, SplitMix64>,
    L: Learner<N, E::Feature, SearchEvaluation<N>, E>,
    B: Infer<E::Feature, N> + Batch<E::Feature, N>,
    D: StartDistribution<G::State>,
>(
    parts: Parts<G, E, W, Mcts<N, K>, L>,
    n_records: nat,
    max_ticks: nat,
    a: Progress<G::State, u32, E::Feature, N, EvaluationModel<N>, L::Shown, D>,
    source: (B, B),
    b: Progress<G::State, u32, E::Feature, N, EvaluationModel<N>, L::Shown, D>,
)
    requires
        a.stats == StatsModel::<N>::none(),
        collected::<N, G, E, W, Mcts<N, K>, L, B, D>(
            parts,
            n_records,
            max_ticks,
            a,
            source,
            b,
        ),
    ensures
        b.stats.decisions * parts.policy.cfg.num_simulations == b.stats.sum_fresh_rows
            + b.stats.sum_hit_rows + b.stats.sum_shared_rows + b.stats.sum_terminal_sims
            + b.stats.sum_depthcap_sims - b.stats.sum_extra_eval_rows,
{
    let sims = parts.policy.cfg.num_simulations as int;
    assert forall|
        requests: Seq<(G::State, usize)>,
        seed: u64,
        interior: bool,
        source: (B, B),
        evals: Seq<(SearchEvaluation<N>, Vec<InteriorTarget<E::Feature, N>>)>,
        j: int,
    |
        (#[trigger] <Mcts<N, K> as Planner<N, G, E, W, B>>::evaluates(
            &parts.policy,
            parts.game,
            parts.encoder,
            parts.reward,
            requests,
            seed,
            interior,
            source,
            evals,
        )) && 0 <= j < evals.len() implies adds_fates(
        parts.policy,
        (#[trigger] evals[j]).0,
        sims,
    ) by {
        let plain = choose|plain: Seq<SearchEvaluation<N>>|
            searched(
                &parts.game,
                &parts.encoder,
                &parts.reward,
                parts.policy.cfg.num_simulations,
                parts.policy.cfg.gamma,
                parts.policy.cfg.max_depth,
                Guidance::Uct { c: parts.policy.cfg.uct_c },
                parts.policy.cfg.chance,
                &parts.policy.maths,
                source,
                requests,
                seed,
                false,
                plain,
            ) && #[trigger] plain_evaluations(evals, plain);
        law_search_balances(
            &parts.game,
            &parts.encoder,
            &parts.reward,
            parts.policy.cfg.num_simulations,
            parts.policy.cfg.gamma,
            parts.policy.cfg.max_depth,
            Guidance::Uct { c: parts.policy.cfg.uct_c },
            parts.policy.cfg.chance,
            &parts.policy.maths,
            source,
            requests,
            seed,
            false,
            plain,
        );
        assert(evals[j].0 == plain[j]);
        assert(search_balanced(plain[j]@, sims));
        assert forall|m: StatsModel<N>, before: int|
            (#[trigger] balanced(m, before)) && (#[trigger] parts.policy.spec_fold_telemetry(
                evals[j].0@,
                m,
            )) is Ok implies {
            let b = parts.policy.spec_fold_telemetry(evals[j].0@, m)->Ok_0;
            balanced(b, before + sims) && b.decisions == m.decisions
        } by {
            law_fold_balances(evals[j].0@, m, before, sims);
        }
    }
    law_collect_balances::<N, G, E, W, Mcts<N, K>, L, B, D>(
        parts,
        n_records,
        max_ticks,
        a,
        source,
        b,
        sims,
    );
}

} // verus!
