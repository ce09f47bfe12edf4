//! Telemetry of a collection.

use vstd::prelude::*;

use crate::fault::Fault;
use crate::num::Scalar;
use crate::policies::tree::evaluation::SearchEvaluation;
#[allow(unused_imports)]
use crate::policies::tree::evaluation::EvaluationModel;
use crate::policies::tree::mcts::simulate::bump;
#[allow(unused_imports)]
use crate::policies::tree::mcts::simulate::counted;

verus! {

/// A finished episode: each agent's return, the length in ticks, and whether it began from a stored
/// state rather than afresh, so that such episodes can be kept out of learning curves.
pub struct EpisodeSummary<N> {
    pub reward: Vec<N>,
    pub length: usize,
    pub seeded: bool,
}

/// A finished episode as a mathematical value.
#[verifier::ext_equal]
pub struct SummaryModel<N> {
    pub reward: Seq<N>,
    pub length: usize,
    pub seeded: bool,
}

impl<N> View for EpisodeSummary<N> {
    type V = SummaryModel<N>;

    open spec fn view(&self) -> SummaryModel<N> {
        SummaryModel { reward: self.reward@, length: self.length, seeded: self.seeded }
    }
}

/// Summaries as mathematical values.
pub open spec fn summary_models<N>(xs: Seq<EpisodeSummary<N>>) -> Seq<SummaryModel<N>> {
    xs.map_values(|x: EpisodeSummary<N>| x@)
}

/// Telemetry of one collection: finished episodes and search diagnostics, and the throughput of
/// whoever serves the network rows, who fills it in.
///
/// The counts of tree-search fates balance of themselves: the simulations of all decisions are the
/// fresh, cached and shared rows, less the extra ones, and the ends at terminals and at the depth
/// cap.
pub struct CollectStats<N> {
    pub episodes: Vec<EpisodeSummary<N>>,
    pub decisions: usize,
    pub max_depth: i32,
    pub sum_leaves: N,
    pub sum_rounds: N,
    pub sum_expansions: N,
    pub sum_sigma: N,
    pub sum_disagreement: N,
    pub infer_seconds: N,
    pub infer_calls: usize,
    pub infer_rows: usize,
    pub cache_lookups: usize,
    pub cache_hits: usize,
    pub sum_terminal_sims: usize,
    pub sum_depthcap_sims: usize,
    pub sum_shared_rows: usize,
    pub sum_fresh_rows: usize,
    pub sum_hit_rows: usize,
    pub sum_extra_eval_rows: usize,
}

/// Telemetry as a mathematical value.
#[verifier::ext_equal]
pub struct StatsModel<N> {
    pub episodes: Seq<SummaryModel<N>>,
    pub decisions: usize,
    pub max_depth: i32,
    pub sum_leaves: N,
    pub sum_rounds: N,
    pub sum_expansions: N,
    pub sum_sigma: N,
    pub sum_disagreement: N,
    pub infer_seconds: N,
    pub infer_calls: usize,
    pub infer_rows: usize,
    pub cache_lookups: usize,
    pub cache_hits: usize,
    pub sum_terminal_sims: usize,
    pub sum_depthcap_sims: usize,
    pub sum_shared_rows: usize,
    pub sum_fresh_rows: usize,
    pub sum_hit_rows: usize,
    pub sum_extra_eval_rows: usize,
}

impl<N> View for CollectStats<N> {
    type V = StatsModel<N>;

    open spec fn view(&self) -> StatsModel<N> {
        StatsModel {
            episodes: summary_models(self.episodes@),
            decisions: self.decisions,
            max_depth: self.max_depth,
            sum_leaves: self.sum_leaves,
            sum_rounds: self.sum_rounds,
            sum_expansions: self.sum_expansions,
            sum_sigma: self.sum_sigma,
            sum_disagreement: self.sum_disagreement,
            infer_seconds: self.infer_seconds,
            infer_calls: self.infer_calls,
            infer_rows: self.infer_rows,
            cache_lookups: self.cache_lookups,
            cache_hits: self.cache_hits,
            sum_terminal_sims: self.sum_terminal_sims,
            sum_depthcap_sims: self.sum_depthcap_sims,
            sum_shared_rows: self.sum_shared_rows,
            sum_fresh_rows: self.sum_fresh_rows,
            sum_hit_rows: self.sum_hit_rows,
            sum_extra_eval_rows: self.sum_extra_eval_rows,
        }
    }
}

impl<N: Scalar> StatsModel<N> {
    /// Nothing collected.
    pub open spec fn none() -> Self {
        StatsModel {
            episodes: Seq::empty(),
            decisions: 0,
            max_depth: 0,
            sum_leaves: N::spec_zero(),
            sum_rounds: N::spec_zero(),
            sum_expansions: N::spec_zero(),
            sum_sigma: N::spec_zero(),
            sum_disagreement: N::spec_zero(),
            infer_seconds: N::spec_zero(),
            infer_calls: 0,
            infer_rows: 0,
            cache_lookups: 0,
            cache_hits: 0,
            sum_terminal_sims: 0,
            sum_depthcap_sims: 0,
            sum_shared_rows: 0,
            sum_fresh_rows: 0,
            sum_hit_rows: 0,
            sum_extra_eval_rows: 0,
        }
    }
}

impl<N: Scalar> Default for CollectStats<N> {
    fn default() -> (r: Self)
        ensures
            r@ == StatsModel::<N>::none(),
    {
        let r = CollectStats {
            episodes: Vec::new(),
            decisions: 0,
            max_depth: 0,
            sum_leaves: N::zero(),
            sum_rounds: N::zero(),
            sum_expansions: N::zero(),
            sum_sigma: N::zero(),
            sum_disagreement: N::zero(),
            infer_seconds: N::zero(),
            infer_calls: 0,
            infer_rows: 0,
            cache_lookups: 0,
            cache_hits: 0,
            sum_terminal_sims: 0,
            sum_depthcap_sims: 0,
            sum_shared_rows: 0,
            sum_fresh_rows: 0,
            sum_hit_rows: 0,
            sum_extra_eval_rows: 0,
        };
        assert(summary_models(r.episodes@) =~= Seq::empty());
        r
    }
}

/// Telemetry with one more search in it. A sum that outgrows its bound is a fault.
pub open spec fn search_folded<N: Scalar>(e: EvaluationModel<N>, m: StatsModel<N>) -> Result<
    StatsModel<N>,
    Fault,
> {
    let s = e.stats;
    if m.sum_terminal_sims + s.terminal_sims > usize::MAX || m.sum_depthcap_sims + s.depthcap_sims
        > usize::MAX || m.sum_shared_rows + s.shared_rows > usize::MAX || m.sum_fresh_rows
        + s.fresh_rows > usize::MAX || m.sum_hit_rows + s.hit_rows > usize::MAX
        || m.sum_extra_eval_rows + s.extra_eval_rows > usize::MAX {
        Err(Fault::VisitCount)
    } else {
        Ok(
            StatsModel {
                max_depth: if m.max_depth < s.max_depth {
                    s.max_depth
                } else {
                    m.max_depth
                },
                sum_leaves: m.sum_leaves.spec_plus(N::spec_count(s.leaves as u64)),
                sum_rounds: m.sum_rounds.spec_plus(N::spec_count(s.rounds as u64)),
                sum_expansions: m.sum_expansions.spec_plus(N::spec_count(s.expansions as u64)),
                sum_terminal_sims: (m.sum_terminal_sims + s.terminal_sims) as usize,
                sum_depthcap_sims: (m.sum_depthcap_sims + s.depthcap_sims) as usize,
                sum_shared_rows: (m.sum_shared_rows + s.shared_rows) as usize,
                sum_fresh_rows: (m.sum_fresh_rows + s.fresh_rows) as usize,
                sum_hit_rows: (m.sum_hit_rows + s.hit_rows) as usize,
                sum_extra_eval_rows: (m.sum_extra_eval_rows + s.extra_eval_rows) as usize,
                ..m
            },
        )
    }
}

/// The fates told in `m` are those of `sims` simulations.
pub open spec fn balanced<N>(m: StatsModel<N>, sims: int) -> bool {
    sims + m.sum_extra_eval_rows == m.sum_fresh_rows + m.sum_hit_rows + m.sum_shared_rows
        + m.sum_terminal_sims + m.sum_depthcap_sims
}

/// The fates of one search are those of `sims` simulations.
pub open spec fn search_balanced<N>(e: EvaluationModel<N>, sims: int) -> bool {
    let s = e.stats;
    sims + s.extra_eval_rows == s.fresh_rows + s.hit_rows + s.shared_rows + s.terminal_sims
        + s.depthcap_sims
}

/// Folding keeps the balance: the fates told after it are those told before and those of the search.
pub proof fn law_fold_balances<N: Scalar>(
    e: EvaluationModel<N>,
    m: StatsModel<N>,
    before: int,
    sims: int,
)
    requires
        balanced(m, before),
        search_balanced(e, sims),
    ensures
        search_folded(e, m) matches Ok(b) ==> balanced(b, before + sims) && b.decisions
            == m.decisions,
{
}

/// Folds a search's telemetry in; nothing is changed where a sum would outgrow its bound.
pub fn fold_search_stats<N: Scalar>(e: &SearchEvaluation<N>, stats: &mut CollectStats<N>) -> (r:
    Result<(), Fault>)
    ensures
        match r {
            Ok(_) => search_folded(e@, old(stats)@) == Ok::<_, Fault>(final(stats)@),
            Err(f) => search_folded(e@, old(stats)@) == Err::<StatsModel<N>, _>(f)
                && final(stats)@ == old(stats)@,
        },
{
    let s = &e.stats;
    let terminal = match bump(stats.sum_terminal_sims, s.terminal_sims) {
        Ok(n) => n,
        Err(f) => return Err(f),
    };
    let depthcap = match bump(stats.sum_depthcap_sims, s.depthcap_sims) {
        Ok(n) => n,
        Err(f) => return Err(f),
    };
    let shared = match bump(stats.sum_shared_rows, s.shared_rows) {
        Ok(n) => n,
        Err(f) => return Err(f),
    };
    let fresh = match bump(stats.sum_fresh_rows, s.fresh_rows) {
        Ok(n) => n,
        Err(f) => return Err(f),
    };
    let hits = match bump(stats.sum_hit_rows, s.hit_rows) {
        Ok(n) => n,
        Err(f) => return Err(f),
    };
    let extra = match bump(stats.sum_extra_eval_rows, s.extra_eval_rows) {
        Ok(n) => n,
        Err(f) => return Err(f),
    };
    if stats.max_depth < s.max_depth {
        stats.max_depth = s.max_depth;
    }
    stats.sum_leaves = stats.sum_leaves.plus(N::count(s.leaves as u64));
    stats.sum_rounds = stats.sum_rounds.plus(N::count(s.rounds as u64));
    stats.sum_expansions = stats.sum_expansions.plus(N::count(s.expansions as u64));
    stats.sum_terminal_sims = terminal;
    stats.sum_depthcap_sims = depthcap;
    stats.sum_shared_rows = shared;
    stats.sum_fresh_rows = fresh;
    stats.sum_hit_rows = hits;
    stats.sum_extra_eval_rows = extra;
    Ok(())
}

} // verus!
