//! PUCT search guided by policy logits and state values.

use vstd::prelude::*;

use super::mcts::act::{sample_visits, Pow};
use super::mcts::policy::{search_many, without_targets, NoiseScope, SequentialBackup};
#[allow(unused_imports)]
use super::mcts::policy::{plain_evaluations, search_failed, searched, tempered};
use super::mcts::pool::Batch;
#[allow(unused_imports)]
use super::mcts::select::{Guidance, Ln};
use crate::codec::bytes::{DecodeFault, Reader};
#[allow(unused_imports)]
use crate::codec::bytes::Read;
use crate::encoder::StateEncoder;
use crate::fault::Fault;
use crate::game::Game;
use crate::num::Scalar;
use crate::policies::planner::Planner;
use crate::policies::tree::evaluation::{decode_search_eval, encode_search_eval, SearchEvaluation};
#[allow(unused_imports)]
use crate::policies::tree::evaluation::{eval_bytes, read_eval, EvaluationModel};
use crate::policies::tree::expectimax::backup::InteriorTarget;
use crate::policies::tree::expectimax::evaluate::Exp;
use crate::policy::{argmax, ply_from_u64, ChanceMode, Policy};
#[allow(unused_imports)]
use crate::policy::{spec_argmax, stored_ply};
use crate::reward::Reward;
use crate::rng::{GammaSource, SplitMix64};
use crate::stats::{fold_search_stats, CollectStats};
#[allow(unused_imports)]
use crate::stats::{search_folded, StatsModel};

verus! {

#[derive(Clone, Copy, Debug)]
pub struct AlphaZeroConfig<N> {
    pub num_simulations: usize,
    pub c_puct: N,
    pub gamma: N,
    pub max_depth: i32,
    /// The weight of the noise in root priors; zero for none.
    pub noise_epsilon: N,
    /// Dirichlet concentration, by rule of thumb ten over the branching factor.
    pub noise_alpha: N,
    pub temperature: N,
    pub temperature_drop: u32,
    pub chance: ChanceMode,
    pub noise_scope: NoiseScope,
    pub sequential_backup: SequentialBackup,
}

/// The guidance of a search: its noise comes from the search's seed.
pub open spec fn puct<N>(cfg: AlphaZeroConfig<N>, seed: u64) -> Guidance<N> {
    Guidance::Puct {
        c: cfg.c_puct,
        noise: Some((cfg.noise_epsilon, cfg.noise_alpha, seed)),
        noise_all: cfg.noise_scope == NoiseScope::All,
    }
}

/// Pooled PUCT over requests, each a state and the agent that asks.
pub fn alphazero_many<
    N: Scalar,
    G: Game<N>,
    E: StateEncoder<State = G::State>,
    W: Reward<N, Event = G::Event>,
    K: Exp<N> + Ln<N> + GammaSource<N, SplitMix64>,
    B: Batch<E::Feature, N>,
>(
    game: &G,
    enc: &E,
    reward: &W,
    cfg: &AlphaZeroConfig<N>,
    maths: &K,
    requests: Vec<(G::State, usize)>,
    seed: u64,
    batch: B,
) -> (r: (Result<Vec<SearchEvaluation<N>>, Fault>, B))
    ensures
        match r.0 {
            Ok(out) => searched(
                game,
                enc,
                reward,
                cfg.num_simulations,
                cfg.gamma,
                cfg.max_depth,
                puct(*cfg, seed),
                cfg.chance,
                maths,
                (batch, r.1),
                requests@,
                seed,
                cfg.sequential_backup == SequentialBackup::MaxN,
                out@,
            ),
            Err(f) => search_failed(
                game,
                enc,
                reward,
                cfg.num_simulations,
                cfg.gamma,
                cfg.max_depth,
                puct(*cfg, seed),
                cfg.chance,
                maths,
                batch,
                requests@,
                seed,
                cfg.sequential_backup == SequentialBackup::MaxN,
                f,
            ),
        },
{
    search_many(
        game,
        enc,
        reward,
        cfg.num_simulations,
        cfg.gamma,
        cfg.max_depth,
        Guidance::Puct {
            c: cfg.c_puct,
            noise: Some((cfg.noise_epsilon, cfg.noise_alpha, seed)),
            noise_all: matches!(cfg.noise_scope, NoiseScope::All),
        },
        cfg.chance,
        maths,
        seed,
        requests,
        batch,
        matches!(cfg.sequential_backup, SequentialBackup::MaxN),
    )
}

/// The PUCT policy.
pub struct AlphaZero<N, K> {
    pub cfg: AlphaZeroConfig<N>,
    pub maths: K,
}

impl<N, K> AlphaZero<N, K> {
    pub fn new(cfg: AlphaZeroConfig<N>, maths: K) -> (r: Self)
        ensures
            r == (AlphaZero { cfg, maths }),
    {
        AlphaZero { cfg, maths }
    }
}

impl<N: Scalar, K: Pow<N>> Policy<N> for AlphaZero<N, K> {
    type Evaluation = SearchEvaluation<N>;

    type PolicyState = u32;

    open spec fn spec_max_agents(&self, sequential: bool) -> Option<usize> {
        None
    }

    fn max_agents(&self, sequential: bool) -> (r: Option<usize>) {
        None
    }

    open spec fn spec_evaluates_all_perspectives(
        &self,
        sequential: bool,
        num_agents: usize,
    ) -> bool {
        sequential && (num_agents > 2 || (num_agents == 2 && self.cfg.sequential_backup
            == SequentialBackup::MaxN))
    }

    fn evaluates_all_perspectives(&self, sequential: bool, num_agents: usize) -> (r: bool) {
        sequential && (num_agents > 2 || (num_agents == 2 && matches!(
            self.cfg.sequential_backup,
            SequentialBackup::MaxN
        )))
    }

    open spec fn spec_supports_imperfect_information(&self) -> bool {
        false
    }

    fn supports_imperfect_information(&self) -> (r: bool) {
        false
    }

    open spec fn spec_begin_episode(&self, rng: SplitMix64) -> (u32, SplitMix64) {
        (0, rng)
    }

    fn begin_episode(&self, rng: &mut SplitMix64) -> (r: u32) {
        0
    }

    open spec fn spec_encode_eval(&self, eval: EvaluationModel<N>) -> Seq<u8> {
        eval_bytes(eval)
    }

    fn encode_eval(&self, eval: &SearchEvaluation<N>, out: &mut Vec<u8>) {
        encode_search_eval(eval, out);
    }

    open spec fn spec_decode_eval(&self, s: Seq<u8>, action_count: usize) -> Read<
        EvaluationModel<N>,
    > {
        read_eval(s, action_count, 1, true)
    }

    fn decode_eval(&self, r: &mut Reader, action_count: usize) -> (out: Result<
        SearchEvaluation<N>,
        DecodeFault,
    >) {
        decode_search_eval(r, action_count, 1, true)
    }

    open spec fn spec_policy_state_to_u64(&self, s: u32) -> u64 {
        s as u64
    }

    fn policy_state_to_u64(&self, s: u32) -> (r: u64) {
        s as u64
    }

    open spec fn spec_policy_state_from_u64(&self, v: u64) -> Result<u32, DecodeFault> {
        stored_ply(v)
    }

    fn policy_state_from_u64(&self, v: u64) -> (r: Result<u32, DecodeFault>) {
        ply_from_u64(v)
    }

    open spec fn selects(
        &self,
        eval: EvaluationModel<N>,
        state: u32,
        rng: SplitMix64,
        action: usize,
        next_state: u32,
        next_rng: SplitMix64,
    ) -> bool {
        tempered(
            self.maths,
            eval.visits,
            self.cfg.temperature,
            self.cfg.temperature_drop,
            Ok::<_, Fault>(spec_argmax(eval.visits, eval.visits.len()) as usize),
            state,
            rng,
            action,
            next_state,
            next_rng,
        )
    }

    open spec fn cannot_select(&self, eval: EvaluationModel<N>, state: u32, f: Fault) -> bool {
        state == u32::MAX && f == Fault::VisitCount
    }

    fn select(&self, eval: &SearchEvaluation<N>, state: &mut u32, rng: &mut SplitMix64) -> (r:
        Result<usize, Fault>) {
        let ply = *state;
        if ply == u32::MAX {
            return Err(Fault::VisitCount);
        }
        *state = ply + 1;
        if N::zero().less(self.cfg.temperature) && ply < self.cfg.temperature_drop {
            return Ok(sample_visits(&self.maths, &eval.visits, self.cfg.temperature, rng));
        }
        Ok(argmax(&eval.visits))
    }

    open spec fn spec_fold_telemetry(
        &self,
        eval: EvaluationModel<N>,
        stats: StatsModel<N>,
    ) -> Result<StatsModel<N>, Fault> {
        search_folded(eval, stats)
    }

    fn fold_telemetry(&self, eval: &SearchEvaluation<N>, stats: &mut CollectStats<N>) -> (r: Result<
        (),
        Fault,
    >) {
        fold_search_stats(eval, stats)
    }
}

impl<
    N: Scalar,
    G: Game<N>,
    E: StateEncoder<State = G::State>,
    W: Reward<N, Event = G::Event>,
    K: Exp<N> + Ln<N> + Pow<N> + GammaSource<N, SplitMix64>,
    B: Batch<E::Feature, N>,
> Planner<N, G, E, W, B> for AlphaZero<N, K> {
    open spec fn evaluates(
        &self,
        game: G,
        enc: E,
        reward: W,
        requests: Seq<(G::State, usize)>,
        seed: u64,
        collect_interior: bool,
        source: (B, B),
        out: Seq<(SearchEvaluation<N>, Vec<InteriorTarget<E::Feature, N>>)>,
    ) -> bool {
        exists|evals: Seq<SearchEvaluation<N>>|
            searched(
                &game,
                &enc,
                &reward,
                self.cfg.num_simulations,
                self.cfg.gamma,
                self.cfg.max_depth,
                puct(self.cfg, seed),
                self.cfg.chance,
                &self.maths,
                source,
                requests,
                seed,
                self.cfg.sequential_backup == SequentialBackup::MaxN,
                evals,
            ) && #[trigger] plain_evaluations(out, evals)
    }

    open spec fn cannot_evaluate(
        &self,
        game: G,
        enc: E,
        reward: W,
        requests: Seq<(G::State, usize)>,
        seed: u64,
        collect_interior: bool,
        source: B,
        f: Fault,
    ) -> bool {
        search_failed(
            &game,
            &enc,
            &reward,
            self.cfg.num_simulations,
            self.cfg.gamma,
            self.cfg.max_depth,
            puct(self.cfg, seed),
            self.cfg.chance,
            &self.maths,
            source,
            requests,
            seed,
            self.cfg.sequential_backup == SequentialBackup::MaxN,
            f,
        )
    }

    fn evaluate(
        &self,
        game: &G,
        enc: &E,
        reward: &W,
        requests: Vec<(G::State, usize)>,
        seed: u64,
        collect_interior: bool,
        source: B,
    ) -> (r: (
        Result<Vec<(SearchEvaluation<N>, Vec<InteriorTarget<E::Feature, N>>)>, Fault>,
        B,
    )) {
        let (result, next) = alphazero_many(
            game,
            enc,
            reward,
            &self.cfg,
            &self.maths,
            requests,
            seed,
            source,
        );
        match result {
            Ok(evals) => (Ok(without_targets(evals)), next),
            Err(f) => (Err(f), next),
        }
    }
}

} // verus!
