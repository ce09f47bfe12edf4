//! The selective expectimax policy.

use vstd::prelude::*;

use super::backup::{InteriorTarget, SearchResult};
#[allow(unused_imports)]
use super::backup::{result_model, targets};
use super::evaluate::Exp;
use super::search::{search_many, Infer};
#[allow(unused_imports)]
use super::search::{all_said, rounds_end, search_fails, searched, unsearchable, Said};
use super::tree::{Ctx, SearchConfig, SearchStats};
use crate::codec::bytes::{DecodeFault, Reader};
#[allow(unused_imports)]
use crate::codec::bytes::Read;
use crate::encoder::StateEncoder;
use crate::fault::Fault;
use crate::game::{Game, Rng};
use crate::num::{sum, Scalar};
#[allow(unused_imports)]
use crate::num::spec_sum;
use crate::policies::planner::Planner;
use crate::policies::tree::evaluation::{decode_search_eval, encode_search_eval, SearchEvaluation};
#[allow(unused_imports)]
use crate::policies::tree::evaluation::{eval_bytes, read_eval, EvaluationModel};
use crate::policy::{act_by_head, thompson_head_from_u64, ChanceMode, Policy};
#[allow(unused_imports)]
use crate::policy::{stored_head, thompson};
use crate::reward::Reward;
use crate::rng::SplitMix64;
use crate::stats::{fold_search_stats, CollectStats};
#[allow(unused_imports)]
use crate::stats::{search_folded, StatsModel};
use crate::util::copied;
#[allow(unused_imports)]
use crate::util::{matrix, spec_filled};

verus! {

/// The heads' values at an action.
pub open spec fn at_action<N>(values: Seq<Seq<N>>, action: usize) -> Seq<N> {
    values.map_values(|row: Seq<N>| row[action as int])
}

/// The spread of numbers around their mean: a population's standard deviation, `inverse` the
/// inverse of their count.
pub open spec fn spread_of<N: Scalar>(xs: Seq<N>, inverse: N) -> N {
    let mean = spec_sum(xs).spec_times(inverse);
    spec_sum(xs.map_values(|x: N| x.spec_minus(mean).spec_times(x.spec_minus(mean)))).spec_times(
        inverse,
    ).spec_root()
}

/// Every row has an entry for every legal action.
pub open spec fn rows_cover<N>(values: Seq<Seq<N>>, legal: Seq<usize>) -> bool {
    forall|h: int, i: int|
        #![trigger values[h], legal[i]]
        0 <= h < values.len() && 0 <= i < legal.len() ==> legal[i] < values[h].len()
}

/// How far the heads disagree at the root: the mean of their spreads over the legal actions. The
/// zeros of illegal ones would dilute it.
pub open spec fn disagreement<N: Scalar>(values: Seq<Seq<N>>, legal: Seq<usize>) -> Result<
    N,
    Fault,
> {
    if values.len() < 2 || values[0].len() == 0 || legal.len() == 0 {
        Ok(N::spec_zero())
    } else if !rows_cover(values, legal) {
        Err(Fault::ActionRange)
    } else {
        let inverse = N::spec_one().spec_over(N::spec_count(values.len() as u64));
        Ok(
            spec_sum(
                legal.map_values(|a: usize| spread_of(at_action(values, a), inverse)),
            ).spec_over(N::spec_count(legal.len() as u64)),
        )
    }
}

fn covers<N>(values: &Vec<Vec<N>>, legal: &[usize]) -> (r: bool)
    ensures
        r == rows_cover(matrix(values@), legal@),
{
    let ghost all = matrix(values@);
    let mut h: usize = 0;
    while h < values.len()
        invariant
            h <= values@.len() == all.len(),
            all == matrix(values@),
            forall|x: int, i: int|
                #![trigger all[x], legal@[i]]
                0 <= x < h && 0 <= i < legal@.len() ==> legal@[i] < all[x].len(),
        decreases values@.len() - h,
    {
        assert(all[h as int] == values@[h as int]@);
        let mut i: usize = 0;
        while i < legal.len()
            invariant
                i <= legal@.len(),
                h < values@.len() == all.len(),
                all == matrix(values@),
                all[h as int] == values@[h as int]@,
                forall|k: int| 0 <= k < i ==> #[trigger] legal@[k] < all[h as int].len(),
            decreases legal@.len() - i,
        {
            if legal[i] >= values[h].len() {
                assert(!(legal@[i as int] < all[h as int].len()));
                return false;
            }
            i = i + 1;
        }
        h = h + 1;
    }
    true
}

fn gather_at<N: Scalar>(values: &Vec<Vec<N>>, action: usize) -> (r: Vec<N>)
    requires
        forall|h: int| 0 <= h < values@.len() ==> action < (#[trigger] values@[h])@.len(),
    ensures
        r@ == at_action(matrix(values@), action),
{
    let mut r: Vec<N> = Vec::new();
    let mut h: usize = 0;
    while h < values.len()
        invariant
            h <= values@.len(),
            r@.len() == h,
            forall|k: int| 0 <= k < values@.len() ==> action < (#[trigger] values@[k])@.len(),
            forall|k: int| 0 <= k < h ==> #[trigger] r@[k] == values@[k]@[action as int],
        decreases values@.len() - h,
    {
        r.push(values[h][action]);
        h = h + 1;
    }
    assert(r@ =~= at_action(matrix(values@), action));
    r
}

fn find_spread<N: Scalar>(xs: &[N], inverse: N) -> (r: N)
    ensures
        r == spread_of(xs@, inverse),
{
    let mean = sum(xs).times(inverse);
    let mut squares: Vec<N> = Vec::new();
    let mut i: usize = 0;
    while i < xs.len()
        invariant
            i <= xs@.len(),
            squares@.len() == i,
            forall|k: int|
                0 <= k < i ==> #[trigger] squares@[k] == xs@[k].spec_minus(mean).spec_times(
                    xs@[k].spec_minus(mean),
                ),
        decreases xs@.len() - i,
    {
        let d = xs[i].minus(mean);
        squares.push(d.times(d));
        i = i + 1;
    }
    assert(squares@ =~= xs@.map_values(
        |x: N| x.spec_minus(mean).spec_times(x.spec_minus(mean)),
    ));
    sum(&squares).times(inverse).root()
}

/// Measures how far the heads disagree at the root.
pub fn root_disagreement<N: Scalar>(values: &Vec<Vec<N>>, legal: &[usize]) -> (r: Result<N, Fault>)
    ensures
        r == disagreement(matrix(values@), legal@),
{
    let ghost all = matrix(values@);
    assert(values@.len() > 0 ==> all[0] == values@[0]@);
    if values.len() < 2 || values[0].len() == 0 || legal.len() == 0 {
        return Ok(N::zero());
    }
    if !covers(values, legal) {
        return Err(Fault::ActionRange);
    }
    let inverse = N::one().over(N::count(values.len() as u64));
    let mut spreads: Vec<N> = Vec::new();
    let mut i: usize = 0;
    while i < legal.len()
        invariant
            i <= legal@.len(),
            all == matrix(values@),
            rows_cover(all, legal@),
            spreads@.len() == i,
            forall|k: int|
                0 <= k < i ==> #[trigger] spreads@[k] == spread_of(
                    at_action(all, legal@[k]),
                    inverse,
                ),
        decreases legal@.len() - i,
    {
        let a = legal[i];
        assert forall|h: int| 0 <= h < values@.len() implies a < (#[trigger] values@[h])@.len() by {
            assert(all[h] == values@[h]@);
            assert(legal@[i as int] < all[h].len());
        }
        let column = gather_at(values, a);
        spreads.push(find_spread(&column, inverse));
        i = i + 1;
    }
    assert(spreads@ =~= legal@.map_values(|a: usize| spread_of(at_action(all, a), inverse)));
    Ok(sum(&spreads).over(N::count(legal.len() as u64)))
}

/// Values for `heads` heads: those of a search that never asked the network, and so knows of one
/// head only, are all alike.
pub open spec fn spread_heads<N>(values: Seq<Seq<N>>, heads: usize) -> Seq<Seq<N>> {
    if values.len() < heads {
        spec_filled(values[0], heads as nat)
    } else {
        values
    }
}

/// What a search's result is to its policy.
pub open spec fn concluded<F, N>(
    result: (Seq<Seq<N>>, Seq<(Seq<F>, Seq<Seq<N>>)>, SearchStats<N>),
    legal: Seq<usize>,
    heads: usize,
    out: (SearchEvaluation<N>, Vec<InteriorTarget<F, N>>),
) -> bool {
    &&& result.0.len() > 0
    &&& out.0@ == (EvaluationModel {
        values: spread_heads(result.0, heads),
        visits: Seq::empty(),
        legal,
        stats: result.2,
    })
    &&& targets(out.1@) == result.1
}

fn copy_rows<N: Copy>(row: &Vec<N>, n: usize) -> (r: Vec<Vec<N>>)
    ensures
        matrix(r@) == spec_filled(row@, n as nat),
{
    let mut r: Vec<Vec<N>> = Vec::new();
    let mut i: usize = 0;
    while i < n
        invariant
            i <= n,
            r@.len() == i,
            forall|k: int| 0 <= k < i ==> (#[trigger] r@[k])@ == row@,
        decreases n - i,
    {
        r.push(copied(row));
        i = i + 1;
    }
    assert(matrix(r@) =~= spec_filled(row@, n as nat));
    r
}

fn conclude<F, N: Scalar>(result: SearchResult<F, N>, legal: Vec<usize>, heads: usize) -> (r: Result<
    (SearchEvaluation<N>, Vec<InteriorTarget<F, N>>),
    Fault,
>)
    ensures
        match r {
            Ok(out) => concluded(result_model(result), legal@, heads, out),
            Err(f) => f == Fault::NoValues && result_model(result).0.len() == 0,
        },
{
    let (values, interior, stats) = result;
    if values.len() == 0 {
        return Err(Fault::NoValues);
    }
    assert(matrix(values@)[0] == values@[0]@);
    let values = if values.len() < heads {
        copy_rows(&values[0], heads)
    } else {
        values
    };
    let visits: Vec<N> = Vec::new();
    assert(visits@ =~= Seq::empty());
    Ok((SearchEvaluation { values, visits, legal, stats }, interior))
}

/// The root's legal actions of every request.
pub open spec fn legal_lists<N: Scalar, G: Game<N>>(game: G, requests: Seq<(G::State, usize)>) -> Seq<
    Seq<usize>,
> {
    requests.map_values(|r: (G::State, usize)| game.spec_legal_actions(r.0, r.1))
}

pub(crate) fn list_legal<N: Scalar, G: Game<N>>(
    game: &G,
    requests: &Vec<(G::State, usize)>,
) -> (r: Vec<Vec<usize>>)
    ensures
        matrix(r@) == legal_lists(*game, requests@),
{
    let mut r: Vec<Vec<usize>> = Vec::new();
    let mut i: usize = 0;
    while i < requests.len()
        invariant
            i <= requests@.len(),
            r@.len() == i,
            forall|k: int|
                0 <= k < i ==> (#[trigger] r@[k])@ == game.spec_legal_actions(
                    requests@[k].0,
                    requests@[k].1,
                ),
        decreases requests@.len() - i,
    {
        r.push(game.legal_actions(&requests[i].0, requests[i].1));
        i = i + 1;
    }
    assert(matrix(r@) =~= legal_lists(*game, requests@));
    r
}

/// What each search says, to `heads` heads.
pub open spec fn all_concluded<F, N: Scalar>(
    said: Seq<Said<F, N>>,
    legal: Seq<Seq<usize>>,
    heads: usize,
    out: Seq<(SearchEvaluation<N>, Vec<InteriorTarget<F, N>>)>,
) -> bool {
    &&& out.len() == said.len()
    &&& forall|i: int|
        0 <= i < out.len() ==> concluded(said[i], legal[i], heads, #[trigger] out[i])
}

/// What the searches of a policy say of its requests, when the network was handed in as the first
/// of `nets` and back as the second.
pub open spec fn searches_say<
    N: Scalar,
    G: Game<N>,
    E: StateEncoder<State = G::State>,
    W: Reward<N, Event = G::Event>,
    X: Exp<N>,
    I: Infer<E::Feature, N>,
>(
    ctx: Ctx<N, G, E, W>,
    exp: X,
    nets: (I, I),
    requests: Seq<(G::State, usize)>,
    seed: u64,
    collect_interior: bool,
    heads: usize,
    out: Seq<(SearchEvaluation<N>, Vec<InteriorTarget<E::Feature, N>>)>,
) -> bool {
    &&& rounds_end(ctx.cfg, requests.len())
    &&& unsearchable(*ctx.game) is None
    &&& exists|said: Seq<Said<E::Feature, N>>| #[trigger]
        searched(ctx, exp, nets, requests, seed, collect_interior, said) && all_concluded(
            said,
            legal_lists(*ctx.game, requests),
            heads,
            out,
        )
}

/// Why the searches of a policy fail.
pub open spec fn searches_fail<
    N: Scalar,
    G: Game<N>,
    E: StateEncoder<State = G::State>,
    W: Reward<N, Event = G::Event>,
    X: Exp<N>,
    I: Infer<E::Feature, N>,
>(
    ctx: Ctx<N, G, E, W>,
    exp: X,
    net: I,
    requests: Seq<(G::State, usize)>,
    seed: u64,
    collect_interior: bool,
    f: Fault,
) -> bool {
    if !rounds_end(ctx.cfg, requests.len()) {
        f == Fault::NoBeam
    } else if unsearchable(*ctx.game) is Some {
        unsearchable(*ctx.game) == Some(f)
    } else {
        ||| search_fails(ctx, exp, net, requests, seed, collect_interior, f)
        ||| f == Fault::NoValues && exists|after: I, said: Seq<Said<E::Feature, N>>, i: int|
            #![trigger searched(ctx, exp, (net, after), requests, seed, collect_interior, said), said[i]]
            {
                &&& searched(ctx, exp, (net, after), requests, seed, collect_interior, said)
                &&& 0 <= i < said.len()
                &&& said[i].0.len() == 0
            }
    }
}

/// Searches, and concludes each result.
#[verifier::loop_isolation(false)]
pub fn search_and_conclude<
    N: Scalar,
    G: Game<N> + Sync,
    E: StateEncoder<State = G::State> + Sync,
    W: Reward<N, Event = G::Event> + Sync,
    X: Exp<N> + Sync,
    I: Infer<E::Feature, N>,
>(
    game: &G,
    enc: &E,
    reward: &W,
    cfg: &SearchConfig<N>,
    requests: Vec<(G::State, usize)>,
    collect_interior: bool,
    seed: u64,
    exp: &X,
    infer: I,
    heads: usize,
) -> (r: (
    Result<Vec<(SearchEvaluation<N>, Vec<InteriorTarget<E::Feature, N>>)>, Fault>,
    I,
)) where G::State: Send, E::Feature: Send
    ensures
        match r.0 {
            Ok(out) => searches_say(
                Ctx { game, enc, reward, cfg: *cfg },
                *exp,
                (infer, r.1),
                requests@,
                seed,
                collect_interior,
                heads,
                out@,
            ),
            Err(f) => searches_fail(
                Ctx { game, enc, reward, cfg: *cfg },
                *exp,
                infer,
                requests@,
                seed,
                collect_interior,
                f,
            ),
        },
{
    if cfg.top_k == 0 && cfg.expansion_budget > 0 && requests.len() > 0 {
        return (Err(Fault::NoBeam), infer);
    }
    let ghost ctx = Ctx { game, enc, reward, cfg: *cfg };
    let ghost given = infer;
    let ghost asks = requests@;
    let legal = list_legal(game, &requests);
    let (found, after) = search_many(
        game,
        enc,
        reward,
        cfg,
        requests,
        collect_interior,
        seed,
        exp,
        infer,
    );
    let results = match found {
        Ok(results) => results,
        Err(f) => return (Err(f), after),
    };
    let ghost all = results@;
    let ghost said = all_said(all);
    assert(searched(ctx, *exp, (given, after), asks, seed, collect_interior, said));
    let n = results.len();
    assert(matrix(legal@).len() == legal@.len());
    assert(legal_lists(*game, asks).len() == asks.len());
    let mut out: Vec<(SearchEvaluation<N>, Vec<InteriorTarget<E::Feature, N>>)> = Vec::new();
    let mut i: usize = 0;
    for result in it: results
        invariant
            it.seq() == all,
            i == it.index(),
            all.len() == n == asks.len() == legal@.len(),
            said == all_said(all),
            searched(ctx, *exp, (given, after), asks, seed, collect_interior, said),
            out@.len() == i,
            forall|k: int|
                0 <= k < i ==> concluded(
                    said[k],
                    legal_lists(*game, asks)[k],
                    heads,
                    #[trigger] out@[k],
                ),
    {
        let ghost shown = result_model(result);
        assert(result == all[i as int]);
        assert(said[i as int] == shown);
        assert(matrix(legal@)[i as int] == legal@[i as int]@);
        match conclude(result, copied(&legal[i]), heads) {
            Ok(e) => {
                assert(concluded(shown, legal_lists(*game, asks)[i as int], heads, e));
                out.push(e);
            },
            Err(f) => {
                assert(said[i as int].0.len() == 0);
                return (Err(f), after);
            },
        }
        i = i + 1;
    }
    assert(all_concluded(said, legal_lists(*game, asks), heads, out@));
    (Ok(out), after)
}

/// Selective expectimax, acting by one head an episode and now and then at random.
pub struct SelectiveExpectimax<N, X> {
    pub cfg: SearchConfig<N>,
    pub n_heads: usize,
    pub epsilon: N,
    pub exp: X,
}

/// The policy by the name of its algorithm.
pub type SelectiveTreeStrap<N, X> = SelectiveExpectimax<N, X>;

impl<N, X> SelectiveExpectimax<N, X> {
    /// Each node is expanded once, best first: chance that is redrawn at every visit cannot be
    /// expressed.
    pub fn new(cfg: SearchConfig<N>, n_heads: usize, epsilon: N, exp: X) -> (r: Self)
        requires
            cfg.chance != ChanceMode::AlwaysResample,
        ensures
            r.cfg == cfg,
            r.n_heads == (if n_heads == 0 {
                1
            } else {
                n_heads
            }),
            r.epsilon == epsilon,
            r.exp == exp,
    {
        SelectiveExpectimax {
            cfg,
            n_heads: if n_heads == 0 {
                1
            } else {
                n_heads
            },
            epsilon,
            exp,
        }
    }

    pub fn supports_chance_mode(mode: ChanceMode) -> (r: bool)
        ensures
            r == (mode != ChanceMode::AlwaysResample),
    {
        !mode.requires_repeated_traversal()
    }
}

/// Telemetry with one more selective search in it: the leaves' spread and the heads' disagreement
/// beside what every search has.
pub open spec fn selective_folded<N: Scalar>(e: EvaluationModel<N>, m: StatsModel<N>) -> Result<
    StatsModel<N>,
    Fault,
> {
    match disagreement(e.values, e.legal) {
        Err(f) => Err(f),
        Ok(d) => match search_folded(e, m) {
            Err(f) => Err(f),
            Ok(next) => Ok(
                StatsModel {
                    sum_sigma: if e.stats.leaves > 0 {
                        next.sum_sigma.spec_plus(
                            e.stats.sigma_sum.spec_over(N::spec_count(e.stats.leaves as u64)),
                        )
                    } else {
                        next.sum_sigma
                    },
                    sum_disagreement: next.sum_disagreement.spec_plus(d),
                    ..next
                },
            ),
        },
    }
}

impl<N: Scalar, X> Policy<N> for SelectiveExpectimax<N, X> {
    type Evaluation = SearchEvaluation<N>;

    type PolicyState = usize;

    open spec fn spec_max_agents(&self, sequential: bool) -> Option<usize> {
        None
    }

    fn max_agents(&self, sequential: bool) -> (r: Option<usize>) {
        None
    }

    open spec fn spec_evaluates_all_perspectives(
        &self,
        sequential: bool,
        num_agents: usize,
    ) -> bool {
        false
    }

    fn evaluates_all_perspectives(&self, sequential: bool, num_agents: usize) -> (r: bool) {
        false
    }

    open spec fn spec_supports_imperfect_information(&self) -> bool {
        false
    }

    fn supports_imperfect_information(&self) -> (r: bool) {
        false
    }

    open spec fn spec_begin_episode(&self, rng: SplitMix64) -> (usize, SplitMix64) {
        if self.n_heads == 0 {
            (0, rng)
        } else {
            <SplitMix64 as Rng<N>>::spec_below(rng, self.n_heads)
        }
    }

    fn begin_episode(&self, rng: &mut SplitMix64) -> (r: usize) {
        if self.n_heads == 0 {
            return 0;
        }
        <SplitMix64 as Rng<N>>::below(rng, self.n_heads)
    }

    open spec fn spec_encode_eval(&self, eval: EvaluationModel<N>) -> Seq<u8> {
        eval_bytes(eval)
    }

    fn encode_eval(&self, eval: &SearchEvaluation<N>, out: &mut Vec<u8>) {
        encode_search_eval(eval, out);
    }

    open spec fn spec_decode_eval(&self, s: Seq<u8>, action_count: usize) -> Read<
        EvaluationModel<N>,
    > {
        read_eval(s, action_count, self.n_heads, false)
    }

    fn decode_eval(&self, r: &mut Reader, action_count: usize) -> (out: Result<
        SearchEvaluation<N>,
        DecodeFault,
    >) {
        decode_search_eval(r, action_count, self.n_heads, false)
    }

    open spec fn spec_policy_state_to_u64(&self, s: usize) -> u64 {
        s as u64
    }

    fn policy_state_to_u64(&self, s: usize) -> (r: u64) {
        s as u64
    }

    open spec fn spec_policy_state_from_u64(&self, v: u64) -> Result<usize, DecodeFault> {
        stored_head(v, self.n_heads)
    }

    fn policy_state_from_u64(&self, v: u64) -> (r: Result<usize, DecodeFault>) {
        thompson_head_from_u64(v, self.n_heads)
    }

    open spec fn selects(
        &self,
        eval: EvaluationModel<N>,
        state: usize,
        rng: SplitMix64,
        action: usize,
        next_state: usize,
        next_rng: SplitMix64,
    ) -> bool {
        &&& next_state == state
        &&& thompson(eval.values, eval.legal, self.epsilon, state, rng) == (
            Ok::<_, Fault>(action),
            next_rng,
        )
    }

    open spec fn cannot_select(&self, eval: EvaluationModel<N>, state: usize, f: Fault) -> bool {
        exists|rng: SplitMix64|
            (#[trigger] thompson(eval.values, eval.legal, self.epsilon, state, rng)).0 == Err::<
                usize,
                _,
            >(f)
    }

    fn select(&self, eval: &SearchEvaluation<N>, state: &mut usize, rng: &mut SplitMix64) -> (r:
        Result<usize, Fault>) {
        act_by_head(&eval.values, &eval.legal, self.epsilon, *state, rng)
    }

    open spec fn spec_fold_telemetry(
        &self,
        eval: EvaluationModel<N>,
        stats: StatsModel<N>,
    ) -> Result<StatsModel<N>, Fault> {
        selective_folded(eval, stats)
    }

    fn fold_telemetry(&self, eval: &SearchEvaluation<N>, stats: &mut CollectStats<N>) -> (r: Result<
        (),
        Fault,
    >) {
        let d = match root_disagreement(&eval.values, &eval.legal) {
            Ok(d) => d,
            Err(f) => return Err(f),
        };
        match fold_search_stats(eval, stats) {
            Ok(_) => {},
            Err(f) => return Err(f),
        }
        if eval.stats.leaves > 0 {
            stats.sum_sigma = stats.sum_sigma.plus(
                eval.stats.sigma_sum.over(N::count(eval.stats.leaves as u64)),
            );
        }
        stats.sum_disagreement = stats.sum_disagreement.plus(d);
        Ok(())
    }
}

impl<
    N: Scalar,
    G: Game<N> + Sync,
    E: StateEncoder<State = G::State> + Sync,
    W: Reward<N, Event = G::Event> + Sync,
    X: Exp<N> + Sync,
    I: Infer<E::Feature, N>,
> Planner<N, G, E, W, I> for SelectiveExpectimax<N, X> where
    G::State: Send,
    E::Feature: Send,
 {
    open spec fn evaluates(
        &self,
        game: G,
        enc: E,
        reward: W,
        requests: Seq<(G::State, usize)>,
        seed: u64,
        collect_interior: bool,
        source: (I, I),
        out: Seq<(SearchEvaluation<N>, Vec<InteriorTarget<E::Feature, N>>)>,
    ) -> bool {
        searches_say(
            Ctx { game: &game, enc: &enc, reward: &reward, cfg: self.cfg },
            self.exp,
            source,
            requests,
            seed,
            collect_interior,
            self.n_heads,
            out,
        )
    }

    open spec fn cannot_evaluate(
        &self,
        game: G,
        enc: E,
        reward: W,
        requests: Seq<(G::State, usize)>,
        seed: u64,
        collect_interior: bool,
        source: I,
        f: Fault,
    ) -> bool {
        searches_fail(
            Ctx { game: &game, enc: &enc, reward: &reward, cfg: self.cfg },
            self.exp,
            source,
            requests,
            seed,
            collect_interior,
            f,
        )
    }

    fn evaluate(
        &self,
        game: &G,
        enc: &E,
        reward: &W,
        requests: Vec<(G::State, usize)>,
        seed: u64,
        collect_interior: bool,
        source: I,
    ) -> (r: (
        Result<Vec<(SearchEvaluation<N>, Vec<InteriorTarget<E::Feature, N>>)>, Fault>,
        I,
    )) {
        search_and_conclude(
            game,
            enc,
            reward,
            &self.cfg,
            requests,
            collect_interior,
            seed,
            &self.exp,
            source,
            self.n_heads,
        )
    }
}

} // verus!
