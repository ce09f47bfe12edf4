//! The UCT policy.

use vstd::prelude::*;

use super::act::{sample_visits, Pow};
#[allow(unused_imports)]
use super::act::visits_sampled;
use super::grow::Ctx;
use super::pool::{Batch, Rules};
#[allow(unused_imports)]
use super::search::{law_pool_balances, pool_failed, pool_ran, run_pool};
use super::select::{log_table, Guidance, Ln};
#[allow(unused_imports)]
use super::select::logs_of;
use crate::codec::bytes::{DecodeFault, Reader};
#[allow(unused_imports)]
use crate::codec::bytes::Read;
use crate::encoder::StateEncoder;
use crate::fault::Fault;
use crate::game::Game;
use crate::num::Scalar;
use crate::policies::planner::Planner;
use crate::policies::tree::evaluation::{decode_search_eval, encode_search_eval, SearchEvaluation};
#[allow(unused_imports)]
use crate::policies::tree::evaluation::{eval_bytes, read_eval, EvaluationModel};
use crate::policies::tree::expectimax::backup::InteriorTarget;
use crate::policies::tree::expectimax::evaluate::Exp;
use crate::policy::{ply_from_u64, take_best, ChanceMode, Policy};
#[allow(unused_imports)]
use crate::policy::{best_legal, stored_ply};
use crate::reward::Reward;
use crate::rng::{GammaSource, SplitMix64};
use crate::stats::{fold_search_stats, CollectStats};
#[allow(unused_imports)]
use crate::stats::{search_balanced, search_folded, StatsModel};

verus! {

/// Backup scheme for sequential games. Simultaneous games always value every agent.
#[derive(Clone, Copy, Debug, PartialEq, Eq, Structural)]
pub enum SequentialBackup {
    /// One value whose sign turns for up to two agents, every agent's value for more.
    Auto,
    /// Every agent's value from two agents on.
    MaxN,
}

impl Default for SequentialBackup {
    fn default() -> (r: Self)
        ensures
            r == SequentialBackup::Auto,
    {
        SequentialBackup::Auto
    }
}

/// Root priors that receive noise in simultaneous search.
#[derive(Clone, Copy, Debug, PartialEq, Eq, Structural)]
pub enum NoiseScope {
    Requester,
    All,
}

impl Default for NoiseScope {
    fn default() -> (r: Self)
        ensures
            r == NoiseScope::Requester,
    {
        NoiseScope::Requester
    }
}

/// Rule used to select an action from the finished tree.
#[derive(Clone, Copy, Debug, PartialEq, Eq, Structural)]
pub enum ActBy {
    Value,
    Visits,
}

#[derive(Clone, Copy, Debug)]
pub struct MctsConfig<N> {
    pub num_simulations: usize,
    pub uct_c: N,
    pub gamma: N,
    pub max_depth: i32,
    /// Acting temperature during the opening moves; zero is greedy.
    pub temperature: N,
    /// Number of opening plies to which the temperature applies.
    pub temperature_drop: u32,
    pub chance: ChanceMode,
}

/// How far a table of logarithms reaches: a node is visited once in a simulation.
pub open spec fn log_top(num_simulations: usize) -> nat {
    if num_simulations < usize::MAX {
        num_simulations as nat
    } else {
        (usize::MAX - 1) as nat
    }
}

/// The logarithms that a search may use: those of all counts that it can meet, where its guidance
/// takes any.
pub open spec fn log_choice<N: Scalar, K: Ln<N>>(
    maths: K,
    guidance: Guidance<N>,
    num_simulations: usize,
    logs: Seq<N>,
) -> bool {
    if guidance is Uct {
        logs_of(maths, logs, log_top(num_simulations) + 1)
    } else {
        logs.len() == 0
    }
}

/// What a search with these parameters consults.
pub open spec fn made_rules<'a, N: Scalar, G: Game<N>, E: StateEncoder<State = G::State>, W, K>(
    game: &'a G,
    enc: &'a E,
    reward: &'a W,
    num_simulations: usize,
    gamma: N,
    max_depth: i32,
    guidance: Guidance<N>,
    chance: ChanceMode,
    logs: &'a [N],
    maths: &'a K,
) -> Rules<'a, N, G, E, W, K, K> {
    Rules {
        ctx: Ctx { game, enc, reward, guidance, logs, chance, gamma, max_depth },
        exp: maths,
        gammas: maths,
        actions: game.spec_action_count(),
        num_simulations,
    }
}

/// What pooled searches may say.
pub open spec fn searched<
    N: Scalar,
    G: Game<N>,
    E: StateEncoder<State = G::State>,
    W: Reward<N, Event = G::Event>,
    K: Exp<N> + Ln<N> + GammaSource<N, SplitMix64>,
    B: Batch<E::Feature, N>,
>(
    game: &G,
    enc: &E,
    reward: &W,
    num_simulations: usize,
    gamma: N,
    max_depth: i32,
    guidance: Guidance<N>,
    chance: ChanceMode,
    maths: &K,
    source: (B, B),
    requests: Seq<(G::State, usize)>,
    seed: u64,
    force_maxn: bool,
    out: Seq<SearchEvaluation<N>>,
) -> bool {
    exists|logs: &[N]|
        log_choice(*maths, guidance, num_simulations, logs@) && #[trigger] pool_ran(
            made_rules(
                game,
                enc,
                reward,
                num_simulations,
                gamma,
                max_depth,
                guidance,
                chance,
                logs,
                maths,
            ),
            source,
            requests,
            seed,
            force_maxn,
            out,
        )
}

/// Pooled searches keep accounts: each tells the fates of as many simulations as were asked for.
pub proof fn law_search_balances<
    N: Scalar,
    G: Game<N>,
    E: StateEncoder<State = G::State>,
    W: Reward<N, Event = G::Event>,
    K: Exp<N> + Ln<N> + GammaSource<N, SplitMix64>,
    B: Batch<E::Feature, N>,
>(
    game: &G,
    enc: &E,
    reward: &W,
    num_simulations: usize,
    gamma: N,
    max_depth: i32,
    guidance: Guidance<N>,
    chance: ChanceMode,
    maths: &K,
    source: (B, B),
    requests: Seq<(G::State, usize)>,
    seed: u64,
    force_maxn: bool,
    out: Seq<SearchEvaluation<N>>,
)
    requires
        searched(
            game,
            enc,
            reward,
            num_simulations,
            gamma,
            max_depth,
            guidance,
            chance,
            maths,
            source,
            requests,
            seed,
            force_maxn,
            out,
        ),
    ensures
        forall|i: int|
            0 <= i < out.len() ==> search_balanced((#[trigger] out[i])@, num_simulations as int),
{
    let logs = choose|logs: &[N]|
        log_choice(*maths, guidance, num_simulations, logs@) && #[trigger] pool_ran(
            made_rules(
                game,
                enc,
                reward,
                num_simulations,
                gamma,
                max_depth,
                guidance,
                chance,
                logs,
                maths,
            ),
            source,
            requests,
            seed,
            force_maxn,
            out,
        );
    law_pool_balances(
        made_rules(
            game,
            enc,
            reward,
            num_simulations,
            gamma,
            max_depth,
            guidance,
            chance,
            logs,
            maths,
        ),
        source,
        requests,
        seed,
        force_maxn,
        out,
    );
}

/// Why pooled searches may fail.
pub open spec fn search_failed<
    N: Scalar,
    G: Game<N>,
    E: StateEncoder<State = G::State>,
    W: Reward<N, Event = G::Event>,
    K: Exp<N> + Ln<N> + GammaSource<N, SplitMix64>,
    B: Batch<E::Feature, N>,
>(
    game: &G,
    enc: &E,
    reward: &W,
    num_simulations: usize,
    gamma: N,
    max_depth: i32,
    guidance: Guidance<N>,
    chance: ChanceMode,
    maths: &K,
    source: B,
    requests: Seq<(G::State, usize)>,
    seed: u64,
    force_maxn: bool,
    f: Fault,
) -> bool {
    exists|logs: &[N]|
        log_choice(*maths, guidance, num_simulations, logs@) && #[trigger] pool_failed(
            made_rules(
                game,
                enc,
                reward,
                num_simulations,
                gamma,
                max_depth,
                guidance,
                chance,
                logs,
                maths,
            ),
            source,
            requests,
            seed,
            force_maxn,
            f,
        )
}

/// Runs pooled searches over requests, each a state and the agent that asks.
pub fn search_many<
    N: Scalar,
    G: Game<N>,
    E: StateEncoder<State = G::State>,
    W: Reward<N, Event = G::Event>,
    K: Exp<N> + Ln<N> + GammaSource<N, SplitMix64>,
    B: Batch<E::Feature, N>,
>(
    game: &G,
    enc: &E,
    reward: &W,
    num_simulations: usize,
    gamma: N,
    max_depth: i32,
    guidance: Guidance<N>,
    chance: ChanceMode,
    maths: &K,
    seed: u64,
    requests: Vec<(G::State, usize)>,
    batch: B,
    force_maxn: bool,
) -> (r: (Result<Vec<SearchEvaluation<N>>, Fault>, B))
    ensures
        match r.0 {
            Ok(out) => searched(
                game,
                enc,
                reward,
                num_simulations,
                gamma,
                max_depth,
                guidance,
                chance,
                maths,
                (batch, r.1),
                requests@,
                seed,
                force_maxn,
                out@,
            ),
            Err(f) => search_failed(
                game,
                enc,
                reward,
                num_simulations,
                gamma,
                max_depth,
                guidance,
                chance,
                maths,
                batch,
                requests@,
                seed,
                force_maxn,
                f,
            ),
        },
{
    let table = if matches!(&guidance, Guidance::Uct { .. }) {
        let top = if num_simulations < usize::MAX {
            num_simulations
        } else {
            usize::MAX - 1
        };
        log_table(maths, top)
    } else {
        Vec::new()
    };
    let logs: &[N] = &table;
    let ghost chosen = guidance;
    let rules = Rules {
        ctx: Ctx { game, enc, reward, guidance, logs, chance, gamma, max_depth },
        exp: maths,
        gammas: maths,
        actions: game.action_count(),
        num_simulations,
    };
    assert(log_choice(*maths, chosen, num_simulations, logs@));
    assert(rules == made_rules(
        game,
        enc,
        reward,
        num_simulations,
        gamma,
        max_depth,
        chosen,
        chance,
        logs,
        maths,
    ));
    run_pool(rules, seed, requests, force_maxn, batch)
}

/// Pooled UCT over requests, each a state and the agent that asks.
pub fn mcts_many<
    N: Scalar,
    G: Game<N>,
    E: StateEncoder<State = G::State>,
    W: Reward<N, Event = G::Event>,
    K: Exp<N> + Ln<N> + GammaSource<N, SplitMix64>,
    B: Batch<E::Feature, N>,
>(
    game: &G,
    enc: &E,
    reward: &W,
    cfg: &MctsConfig<N>,
    maths: &K,
    requests: Vec<(G::State, usize)>,
    seed: u64,
    batch: B,
) -> (r: (Result<Vec<SearchEvaluation<N>>, Fault>, B))
    ensures
        match r.0 {
            Ok(out) => searched(
                game,
                enc,
                reward,
                cfg.num_simulations,
                cfg.gamma,
                cfg.max_depth,
                Guidance::Uct { c: cfg.uct_c },
                cfg.chance,
                maths,
                (batch, r.1),
                requests@,
                seed,
                false,
                out@,
            ),
            Err(f) => search_failed(
                game,
                enc,
                reward,
                cfg.num_simulations,
                cfg.gamma,
                cfg.max_depth,
                Guidance::Uct { c: cfg.uct_c },
                cfg.chance,
                maths,
                batch,
                requests@,
                seed,
                false,
                f,
            ),
        },
{
    search_many(
        game,
        enc,
        reward,
        cfg.num_simulations,
        cfg.gamma,
        cfg.max_depth,
        Guidance::Uct { c: cfg.uct_c },
        cfg.chance,
        maths,
        seed,
        requests,
        batch,
        false,
    )
}

/// The evaluations of `out`, in their order, none with interior targets.
pub open spec fn plain_evaluations<F, N>(
    out: Seq<(SearchEvaluation<N>, Vec<InteriorTarget<F, N>>)>,
    evals: Seq<SearchEvaluation<N>>,
) -> bool {
    &&& out.len() == evals.len()
    &&& forall|i: int|
        0 <= i < out.len() ==> (#[trigger] out[i]).0 == evals[i] && out[i].1@.len() == 0
}

/// Evaluations without interior targets.
pub(crate) fn without_targets<F, N>(evals: Vec<SearchEvaluation<N>>) -> (r: Vec<
    (SearchEvaluation<N>, Vec<InteriorTarget<F, N>>),
>)
    ensures
        plain_evaluations(r@, evals@),
{
    let ghost all = evals@;
    let n = evals.len();
    let mut r: Vec<(SearchEvaluation<N>, Vec<InteriorTarget<F, N>>)> = Vec::new();
    let mut i: usize = 0;
    for eval in it: evals
        invariant
            it.seq() == all,
            all.len() == n,
            i == it.index(),
            r@.len() == i,
            forall|k: int|
                0 <= k < i ==> (#[trigger] r@[k]).0 == all[k] && r@[k].1@.len() == 0,
    {
        r.push((eval, Vec::new()));
        i = i + 1;
    }
    r
}

/// An action that may be taken after `ply` plies: sampled by visits while the opening temperature
/// lasts, else `greedy`.
pub open spec fn tempered<N: Scalar, P: Pow<N>>(
    pow: P,
    visits: Seq<N>,
    temperature: N,
    drop: u32,
    greedy: Result<usize, Fault>,
    ply: u32,
    rng: SplitMix64,
    action: usize,
    next_ply: u32,
    next_rng: SplitMix64,
) -> bool {
    &&& next_ply == ply + 1
    &&& if N::spec_zero().spec_less(temperature) && ply < drop {
        visits_sampled(pow, visits, temperature, rng, action, next_rng)
    } else {
        greedy == Ok::<_, Fault>(action) && next_rng == rng
    }
}

/// The row that a greedy choice reads.
pub open spec fn acting_row<N>(act_by: ActBy, eval: EvaluationModel<N>) -> Option<Seq<N>> {
    if act_by == ActBy::Visits && eval.visits.len() > 0 {
        Some(eval.visits)
    } else if eval.values.len() > 0 {
        Some(eval.values[0])
    } else {
        None
    }
}

/// The greedy choice.
pub open spec fn greedy_choice<N: Scalar>(act_by: ActBy, eval: EvaluationModel<N>) -> Result<
    usize,
    Fault,
> {
    match acting_row(act_by, eval) {
        None => Err(Fault::NoValues),
        Some(row) => best_legal(row, eval.legal),
    }
}

/// The UCT policy.
pub struct Mcts<N, K> {
    pub cfg: MctsConfig<N>,
    pub act_by: ActBy,
    pub maths: K,
}

impl<N, K> Mcts<N, K> {
    pub fn new(cfg: MctsConfig<N>, act_by: ActBy, maths: K) -> (r: Self)
        ensures
            r == (Mcts { cfg, act_by, maths }),
    {
        Mcts { cfg, act_by, maths }
    }
}

impl<N: Scalar, K: Pow<N>> Policy<N> for Mcts<N, K> {
    type Evaluation = SearchEvaluation<N>;

    type PolicyState = u32;

    open spec fn spec_max_agents(&self, sequential: bool) -> Option<usize> {
        if sequential {
            Some(2)
        } else {
            None
        }
    }

    fn max_agents(&self, sequential: bool) -> (r: Option<usize>) {
        if sequential {
            Some(2)
        } else {
            None
        }
    }

    open spec fn spec_evaluates_all_perspectives(
        &self,
        sequential: bool,
        num_agents: usize,
    ) -> bool {
        false
    }

    fn evaluates_all_perspectives(&self, sequential: bool, num_agents: usize) -> (r: bool) {
        false
    }

    open spec fn spec_supports_imperfect_information(&self) -> bool {
        false
    }

    fn supports_imperfect_information(&self) -> (r: bool) {
        false
    }

    open spec fn spec_begin_episode(&self, rng: SplitMix64) -> (u32, SplitMix64) {
        (0, rng)
    }

    fn begin_episode(&self, rng: &mut SplitMix64) -> (r: u32) {
        0
    }

    open spec fn spec_encode_eval(&self, eval: EvaluationModel<N>) -> Seq<u8> {
        eval_bytes(eval)
    }

    fn encode_eval(&self, eval: &SearchEvaluation<N>, out: &mut Vec<u8>) {
        encode_search_eval(eval, out);
    }

    open spec fn spec_decode_eval(&self, s: Seq<u8>, action_count: usize) -> Read<
        EvaluationModel<N>,
    > {
        read_eval(s, action_count, 1, true)
    }

    fn decode_eval(&self, r: &mut Reader, action_count: usize) -> (out: Result<
        SearchEvaluation<N>,
        DecodeFault,
    >) {
        decode_search_eval(r, action_count, 1, true)
    }

    open spec fn spec_policy_state_to_u64(&self, s: u32) -> u64 {
        s as u64
    }

    fn policy_state_to_u64(&self, s: u32) -> (r: u64) {
        s as u64
    }

    open spec fn spec_policy_state_from_u64(&self, v: u64) -> Result<u32, DecodeFault> {
        stored_ply(v)
    }

    fn policy_state_from_u64(&self, v: u64) -> (r: Result<u32, DecodeFault>) {
        ply_from_u64(v)
    }

    open spec fn selects(
        &self,
        eval: EvaluationModel<N>,
        state: u32,
        rng: SplitMix64,
        action: usize,
        next_state: u32,
        next_rng: SplitMix64,
    ) -> bool {
        tempered(
            self.maths,
            eval.visits,
            self.cfg.temperature,
            self.cfg.temperature_drop,
            greedy_choice(self.act_by, eval),
            state,
            rng,
            action,
            next_state,
            next_rng,
        )
    }

    open spec fn cannot_select(&self, eval: EvaluationModel<N>, state: u32, f: Fault) -> bool {
        if state == u32::MAX {
            f == Fault::VisitCount
        } else {
            &&& !(N::spec_zero().spec_less(self.cfg.temperature) && state
                < self.cfg.temperature_drop)
            &&& greedy_choice(self.act_by, eval) == Err::<usize, _>(f)
        }
    }

    fn select(&self, eval: &SearchEvaluation<N>, state: &mut u32, rng: &mut SplitMix64) -> (r:
        Result<usize, Fault>) {
        let ply = *state;
        if ply == u32::MAX {
            return Err(Fault::VisitCount);
        }
        *state = ply + 1;
        if N::zero().less(self.cfg.temperature) && ply < self.cfg.temperature_drop {
            return Ok(sample_visits(&self.maths, &eval.visits, self.cfg.temperature, rng));
        }
        if matches!(self.act_by, ActBy::Visits) && eval.visits.len() > 0 {
            take_best(&eval.visits, &eval.legal)
        } else if eval.values.len() > 0 {
            assert(eval@.values[0] == eval.values@[0]@);
            take_best(&eval.values[0], &eval.legal)
        } else {
            Err(Fault::NoValues)
        }
    }

    open spec fn spec_fold_telemetry(
        &self,
        eval: EvaluationModel<N>,
        stats: StatsModel<N>,
    ) -> Result<StatsModel<N>, Fault> {
        search_folded(eval, stats)
    }

    fn fold_telemetry(&self, eval: &SearchEvaluation<N>, stats: &mut CollectStats<N>) -> (r: Result<
        (),
        Fault,
    >) {
        fold_search_stats(eval, stats)
    }
}

impl<
    N: Scalar,
    G: Game<N>,
    E: StateEncoder<State = G::State>,
    W: Reward<N, Event = G::Event>,
    K: Exp<N> + Ln<N> + Pow<N> + GammaSource<N, SplitMix64>,
    B: Batch<E::Feature, N>,
> Planner<N, G, E, W, B> for Mcts<N, K> {
    open spec fn evaluates(
        &self,
        game: G,
        enc: E,
        reward: W,
        requests: Seq<(G::State, usize)>,
        seed: u64,
        collect_interior: bool,
        source: (B, B),
        out: Seq<(SearchEvaluation<N>, Vec<InteriorTarget<E::Feature, N>>)>,
    ) -> bool {
        exists|evals: Seq<SearchEvaluation<N>>|
            searched(
                &game,
                &enc,
                &reward,
                self.cfg.num_simulations,
                self.cfg.gamma,
                self.cfg.max_depth,
                Guidance::Uct { c: self.cfg.uct_c },
                self.cfg.chance,
                &self.maths,
                source,
                requests,
                seed,
                false,
                evals,
            ) && #[trigger] plain_evaluations(out, evals)
    }

    open spec fn cannot_evaluate(
        &self,
        game: G,
        enc: E,
        reward: W,
        requests: Seq<(G::State, usize)>,
        seed: u64,
        collect_interior: bool,
        source: B,
        f: Fault,
    ) -> bool {
        search_failed(
            &game,
            &enc,
            &reward,
            self.cfg.num_simulations,
            self.cfg.gamma,
            self.cfg.max_depth,
            Guidance::Uct { c: self.cfg.uct_c },
            self.cfg.chance,
            &self.maths,
            source,
            requests,
            seed,
            false,
            f,
        )
    }

    fn evaluate(
        &self,
        game: &G,
        enc: &E,
        reward: &W,
        requests: Vec<(G::State, usize)>,
        seed: u64,
        collect_interior: bool,
        source: B,
    ) -> (r: (
        Result<Vec<(SearchEvaluation<N>, Vec<InteriorTarget<E::Feature, N>>)>, Fault>,
        B,
    )) {
        let (result, next) = mcts_many(
            game,
            enc,
            reward,
            &self.cfg,
            &self.maths,
            requests,
            seed,
            source,
        );
        match result {
            Ok(evals) => (Ok(without_targets(evals)), next),
            Err(f) => (Err(f), next),
        }
    }
}

} // verus!
