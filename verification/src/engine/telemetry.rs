//! What the telemetry of searches adds up to.

use vstd::prelude::*;

#[allow(unused_imports)]
use crate::means::{law_splits, splits};
#[allow(unused_imports)]
use crate::num::{law_ring, ring, spec_sum, Scalar};
#[allow(unused_imports)]
use crate::policies::tree::evaluation::EvaluationModel;
#[allow(unused_imports)]
use crate::policies::tree::expectimax::evaluate::spec_std;
#[allow(unused_imports)]
use crate::policies::tree::expectimax::policy::{
    at_action, disagreement, selective_folded, spread_heads, spread_of,
};
#[allow(unused_imports)]
use crate::stats::{search_folded, StatsModel};

verus! {

/// A search adds its own numbers to the telemetry, each to its own sum, and raises the depth to its
/// own where that is more; nothing else changes.
pub proof fn law_searches_add_their_numbers<N: Scalar>(e: EvaluationModel<N>, m: StatsModel<N>)
    ensures
        search_folded(e, m) matches Ok(b) ==> {
            &&& b.max_depth >= m.max_depth && b.max_depth >= e.stats.max_depth
            &&& b.max_depth == m.max_depth || b.max_depth == e.stats.max_depth
            &&& b.sum_leaves == m.sum_leaves.spec_plus(N::spec_count(e.stats.leaves as u64))
            &&& b.sum_rounds == m.sum_rounds.spec_plus(N::spec_count(e.stats.rounds as u64))
            &&& b.sum_expansions == m.sum_expansions.spec_plus(
                N::spec_count(e.stats.expansions as u64),
            )
            &&& b.sum_terminal_sims - m.sum_terminal_sims == e.stats.terminal_sims
            &&& b.sum_depthcap_sims - m.sum_depthcap_sims == e.stats.depthcap_sims
            &&& b.sum_shared_rows - m.sum_shared_rows == e.stats.shared_rows
            &&& b.sum_fresh_rows - m.sum_fresh_rows == e.stats.fresh_rows
            &&& b.sum_hit_rows - m.sum_hit_rows == e.stats.hit_rows
            &&& b.sum_extra_eval_rows - m.sum_extra_eval_rows == e.stats.extra_eval_rows
            &&& b.decisions == m.decisions
            &&& b.episodes == m.episodes
            &&& b.sum_sigma == m.sum_sigma
            &&& b.sum_disagreement == m.sum_disagreement
        },
        search_folded(e, m) is Err ==> m.sum_terminal_sims + e.stats.terminal_sims > usize::MAX
            || m.sum_depthcap_sims + e.stats.depthcap_sims > usize::MAX || m.sum_shared_rows
            + e.stats.shared_rows > usize::MAX || m.sum_fresh_rows + e.stats.fresh_rows > usize::MAX
            || m.sum_hit_rows + e.stats.hit_rows > usize::MAX || m.sum_extra_eval_rows
            + e.stats.extra_eval_rows > usize::MAX,
{
}

/// How far numbers spread is the same whether one divides by their count or multiplies by its inverse.
pub proof fn law_spreads_agree<N: Scalar>(xs: Seq<N>)
    requires
        ring::<N>(),
        splits(N::spec_count(xs.len() as u64)),
    ensures
        spread_of(xs, N::spec_one().spec_over(N::spec_count(xs.len() as u64))) == spec_std(xs),
{
    let n = N::spec_count(xs.len() as u64);
    let one = N::spec_one();
    let inverse = one.spec_over(n);
    let s = spec_sum(xs);
    law_splits(n, s, one);
    law_ring(s, s, s);
    let mean = s.spec_over(n);
    assert(s.spec_times(inverse) == mean);
    let dev = xs.map_values(|x: N| x.spec_minus(mean).spec_times(x.spec_minus(mean)));
    let d = spec_sum(dev);
    law_splits(n, d, one);
    law_ring(d, d, d);
    assert(xs.map_values(
        |x: N|
            x.spec_minus(s.spec_times(inverse)).spec_times(x.spec_minus(s.spec_times(inverse))),
    ) =~= dev);
}

/// The heads' disagreement, so many times over, is how far they spread at the legal actions together;
/// one head, or none, agrees with itself.
pub proof fn law_disagreement_is_the_mean_spread<N: Scalar>(
    values: Seq<Seq<N>>,
    legal: Seq<usize>,
)
    requires
        ring::<N>(),
        legal.len() > 0 ==> splits(N::spec_count(legal.len() as u64)),
        values.len() > 1 ==> splits(N::spec_count(values.len() as u64)),
    ensures
        disagreement(values, legal) matches Ok(d) ==> {
            &&& values.len() < 2 ==> d == N::spec_zero()
            &&& legal.len() == 0 ==> d == N::spec_zero()
            &&& values.len() >= 2 && values[0].len() > 0 && legal.len() > 0 ==> d.spec_times(
                N::spec_count(legal.len() as u64),
            ) == spec_sum(
                Seq::new(
                    legal.len(),
                    |i: int|
                        spec_std(Seq::new(values.len(), |h: int| values[h][legal[i] as int])),
                ),
            )
        },
{
    if let Ok(d) = disagreement(values, legal) {
        if values.len() >= 2 && values[0].len() > 0 && legal.len() > 0 {
            let inverse = N::spec_one().spec_over(N::spec_count(values.len() as u64));
            let spreads = legal.map_values(|a: usize| spread_of(at_action(values, a), inverse));
            let told = Seq::new(
                legal.len(),
                |i: int| spec_std(Seq::new(values.len(), |h: int| values[h][legal[i] as int])),
            );
            assert forall|i: int| 0 <= i < legal.len() implies spreads[i] == told[i] by {
                let column = Seq::new(values.len(), |h: int| values[h][legal[i] as int]);
                assert(at_action(values, legal[i]) =~= column);
                law_spreads_agree(column);
            }
            assert(spreads =~= told);
            law_splits(N::spec_count(legal.len() as u64), spec_sum(told), spec_sum(told));
        }
    }
}

/// A selective search adds, beside what every search does, the mean spread of its leaves, where it has
/// any, and how far the heads disagree at its root.
pub proof fn law_selective_searches_add_their_spread<N: Scalar>(
    e: EvaluationModel<N>,
    m: StatsModel<N>,
)
    ensures
        selective_folded(e, m) matches Ok(b) ==> {
            &&& disagreement(e.values, e.legal) matches Ok(d) && b.sum_disagreement
                == m.sum_disagreement.spec_plus(d)
            &&& e.stats.leaves == 0 ==> b.sum_sigma == m.sum_sigma
            &&& e.stats.leaves > 0 ==> b.sum_sigma == m.sum_sigma.spec_plus(
                e.stats.sigma_sum.spec_over(N::spec_count(e.stats.leaves as u64)),
            )
            &&& search_folded(e, m) matches Ok(c) && b == (StatsModel {
                sum_sigma: b.sum_sigma,
                sum_disagreement: b.sum_disagreement,
                ..c
            })
        },
{
}

/// A policy of so many heads has so many rows of values: those of the search, or the one row that a
/// search has that never asked the network, for each of them.
pub proof fn law_every_head_has_values<N>(values: Seq<Seq<N>>, heads: usize, h: int)
    requires
        values.len() == 1 || values.len() == heads,
        0 <= h < heads,
    ensures
        spread_heads(values, heads).len() == heads,
        spread_heads(values, heads)[h] == if values.len() == heads {
            values[h]
        } else {
            values[0]
        },
{
}

} // verus!
