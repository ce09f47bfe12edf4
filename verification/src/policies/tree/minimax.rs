//! Depth-limited minimax and expectiminimax.

use vstd::prelude::*;

use super::expectimax::backup::InteriorTarget;
use super::expectimax::evaluate::Exp;
use super::expectimax::policy::search_and_conclude;
#[allow(unused_imports)]
use super::expectimax::policy::{searches_fail, searches_say};
use super::expectimax::search::Infer;
#[allow(unused_imports)]
use super::expectimax::tree::{Ctx, Opponent, SearchConfig};
use crate::codec::bytes::{DecodeFault, Reader};
#[allow(unused_imports)]
use crate::codec::bytes::Read;
use crate::encoder::StateEncoder;
use crate::fault::Fault;
use crate::game::Game;
use crate::num::Scalar;
use crate::policies::planner::Planner;
use crate::policies::tree::evaluation::{decode_search_eval, encode_search_eval, SearchEvaluation};
#[allow(unused_imports)]
use crate::policies::tree::evaluation::{eval_bytes, read_eval, EvaluationModel};
use crate::policy::{nothing_from_u64, take_best, ChanceMode, Policy, Stateless};
#[allow(unused_imports)]
use crate::policy::{best_legal, stored_nothing};
use crate::reward::Reward;
use crate::rng::SplitMix64;
use crate::stats::{fold_search_stats, CollectStats};
#[allow(unused_imports)]
use crate::stats::{search_folded, StatsModel};

verus! {

/// The parameters of a full-width adversarial search.
pub open spec fn minimax_config<N: Scalar>(
    depth: i32,
    move_cap: Option<usize>,
    chance: ChanceMode,
    gamma: N,
) -> SearchConfig<N> {
    SearchConfig {
        gamma,
        beta: N::spec_one(),
        expansion_budget: usize::MAX,
        top_k: usize::MAX,
        max_depth: depth,
        chance,
        opponent: Opponent::Adversarial {
            move_cap: match move_cap {
                Some(cap) => cap,
                None => usize::MAX,
            },
        },
    }
}

/// Depth-limited minimax, or expectiminimax where chance plays; leaves at the frontier are scored
/// by the network, and nothing is left to chance but what the game leaves to it.
pub struct Minimax<N, X> {
    pub cfg: SearchConfig<N>,
    pub exp: X,
}

impl<N: Scalar, X> Minimax<N, X> {
    /// `gamma` is the paired learner's: search backup and episode targets share one discount. There
    /// is at least one ply of lookahead, and a beam keeps at least one move. Each node is expanded
    /// once: chance that is redrawn at every visit cannot be expressed.
    pub fn new(depth: i32, move_cap: Option<usize>, chance: ChanceMode, gamma: N, exp: X) -> (r:
        Self)
        requires
            depth >= 1,
            chance != ChanceMode::AlwaysResample,
            move_cap matches Some(cap) ==> cap >= 1,
        ensures
            r.cfg == minimax_config(depth, move_cap, chance, gamma),
            r.exp == exp,
    {
        Minimax {
            cfg: SearchConfig {
                gamma,
                beta: N::one(),
                expansion_budget: usize::MAX,
                top_k: usize::MAX,
                max_depth: depth,
                chance,
                opponent: Opponent::Adversarial {
                    move_cap: match move_cap {
                        Some(cap) => cap,
                        None => usize::MAX,
                    },
                },
            },
            exp,
        }
    }

    pub fn supports_chance_mode(mode: ChanceMode) -> (r: bool)
        ensures
            r == (mode != ChanceMode::AlwaysResample),
    {
        !mode.requires_repeated_traversal()
    }
}

/// The best legal action of the first row.
pub open spec fn first_row_best<N: Scalar>(eval: EvaluationModel<N>) -> Result<usize, Fault> {
    if eval.values.len() == 0 {
        Err(Fault::NoValues)
    } else {
        best_legal(eval.values[0], eval.legal)
    }
}

/// `out` is `full` with one row of values each.
pub open spec fn first_heads<F, N>(
    full: Seq<(SearchEvaluation<N>, Vec<InteriorTarget<F, N>>)>,
    out: Seq<(SearchEvaluation<N>, Vec<InteriorTarget<F, N>>)>,
) -> bool {
    &&& out.len() == full.len()
    &&& forall|i: int|
        0 <= i < out.len() ==> {
            &&& (#[trigger] out[i]).1 == full[i].1
            &&& out[i].0@ == (EvaluationModel {
                values: if full[i].0@.values.len() > 1 {
                    full[i].0@.values.take(1)
                } else {
                    full[i].0@.values
                },
                ..full[i].0@
            })
        }
}

fn keep_first_heads<F, N>(full: Vec<(SearchEvaluation<N>, Vec<InteriorTarget<F, N>>)>) -> (r: Vec<
    (SearchEvaluation<N>, Vec<InteriorTarget<F, N>>),
>)
    ensures
        first_heads(full@, r@),
{
    let ghost all = full@;
    let n = full.len();
    let mut r: Vec<(SearchEvaluation<N>, Vec<InteriorTarget<F, N>>)> = Vec::new();
    let mut i: usize = 0;
    for one in it: full
        invariant
            it.seq() == all,
            all.len() == n,
            i == it.index(),
            r@.len() == i,
            forall|k: int|
                0 <= k < i ==> {
                    &&& (#[trigger] r@[k]).1 == all[k].1
                    &&& r@[k].0@ == (EvaluationModel {
                        values: if all[k].0@.values.len() > 1 {
                            all[k].0@.values.take(1)
                        } else {
                            all[k].0@.values
                        },
                        ..all[k].0@
                    })
                },
    {
        let (mut eval, interior) = one;
        let ghost before = eval@;
        eval.values.truncate(1);
        assert(eval@.values =~= (if before.values.len() > 1 {
            before.values.take(1)
        } else {
            before.values
        }));
        r.push((eval, interior));
        i = i + 1;
    }
    r
}

impl<N: Scalar, X> Policy<N> for Minimax<N, X> {
    type Evaluation = SearchEvaluation<N>;

    type PolicyState = Stateless;

    /// No simultaneous game is supported at all.
    open spec fn spec_max_agents(&self, sequential: bool) -> Option<usize> {
        if sequential {
            Some(2)
        } else {
            Some(0)
        }
    }

    fn max_agents(&self, sequential: bool) -> (r: Option<usize>) {
        if sequential {
            Some(2)
        } else {
            Some(0)
        }
    }

    open spec fn spec_evaluates_all_perspectives(
        &self,
        sequential: bool,
        num_agents: usize,
    ) -> bool {
        false
    }

    fn evaluates_all_perspectives(&self, sequential: bool, num_agents: usize) -> (r: bool) {
        false
    }

    open spec fn spec_supports_imperfect_information(&self) -> bool {
        false
    }

    fn supports_imperfect_information(&self) -> (r: bool) {
        false
    }

    open spec fn spec_begin_episode(&self, rng: SplitMix64) -> (Stateless, SplitMix64) {
        (Stateless, rng)
    }

    fn begin_episode(&self, rng: &mut SplitMix64) -> (r: Stateless) {
        Stateless
    }

    open spec fn spec_encode_eval(&self, eval: EvaluationModel<N>) -> Seq<u8> {
        eval_bytes(eval)
    }

    fn encode_eval(&self, eval: &SearchEvaluation<N>, out: &mut Vec<u8>) {
        encode_search_eval(eval, out);
    }

    open spec fn spec_decode_eval(&self, s: Seq<u8>, action_count: usize) -> Read<
        EvaluationModel<N>,
    > {
        read_eval(s, action_count, 1, false)
    }

    fn decode_eval(&self, r: &mut Reader, action_count: usize) -> (out: Result<
        SearchEvaluation<N>,
        DecodeFault,
    >) {
        decode_search_eval(r, action_count, 1, false)
    }

    open spec fn spec_policy_state_to_u64(&self, s: Stateless) -> u64 {
        0
    }

    fn policy_state_to_u64(&self, s: Stateless) -> (r: u64) {
        0
    }

    open spec fn spec_policy_state_from_u64(&self, v: u64) -> Result<Stateless, DecodeFault> {
        stored_nothing(v)
    }

    fn policy_state_from_u64(&self, v: u64) -> (r: Result<Stateless, DecodeFault>) {
        nothing_from_u64(v)
    }

    open spec fn selects(
        &self,
        eval: EvaluationModel<N>,
        state: Stateless,
        rng: SplitMix64,
        action: usize,
        next_state: Stateless,
        next_rng: SplitMix64,
    ) -> bool {
        next_rng == rng && first_row_best(eval) == Ok::<_, Fault>(action)
    }

    open spec fn cannot_select(&self, eval: EvaluationModel<N>, state: Stateless, f: Fault) -> bool {
        first_row_best(eval) == Err::<usize, _>(f)
    }

    fn select(&self, eval: &SearchEvaluation<N>, state: &mut Stateless, rng: &mut SplitMix64) -> (r: Result<
        usize,
        Fault,
    >) {
        if eval.values.len() == 0 {
            return Err(Fault::NoValues);
        }
        assert(eval@.values[0] == eval.values@[0]@);
        take_best(&eval.values[0], &eval.legal)
    }

    open spec fn spec_fold_telemetry(
        &self,
        eval: EvaluationModel<N>,
        stats: StatsModel<N>,
    ) -> Result<StatsModel<N>, Fault> {
        search_folded(eval, stats)
    }

    fn fold_telemetry(&self, eval: &SearchEvaluation<N>, stats: &mut CollectStats<N>) -> (r: Result<
        (),
        Fault,
    >) {
        fold_search_stats(eval, stats)
    }
}

impl<
    N: Scalar,
    G: Game<N> + Sync,
    E: StateEncoder<State = G::State> + Sync,
    W: Reward<N, Event = G::Event> + Sync,
    X: Exp<N> + Sync,
    I: Infer<E::Feature, N>,
> Planner<N, G, E, W, I> for Minimax<N, X> where
    G::State: Send,
    E::Feature: Send,
 {
    open spec fn evaluates(
        &self,
        game: G,
        enc: E,
        reward: W,
        requests: Seq<(G::State, usize)>,
        seed: u64,
        collect_interior: bool,
        source: (I, I),
        out: Seq<(SearchEvaluation<N>, Vec<InteriorTarget<E::Feature, N>>)>,
    ) -> bool {
        exists|full: Seq<(SearchEvaluation<N>, Vec<InteriorTarget<E::Feature, N>>)>|
            searches_say(
                Ctx { game: &game, enc: &enc, reward: &reward, cfg: self.cfg },
                self.exp,
                source,
                requests,
                seed,
                collect_interior,
                1,
                full,
            ) && #[trigger] first_heads(full, out)
    }

    open spec fn cannot_evaluate(
        &self,
        game: G,
        enc: E,
        reward: W,
        requests: Seq<(G::State, usize)>,
        seed: u64,
        collect_interior: bool,
        source: I,
        f: Fault,
    ) -> bool {
        searches_fail(
            Ctx { game: &game, enc: &enc, reward: &reward, cfg: self.cfg },
            self.exp,
            source,
            requests,
            seed,
            collect_interior,
            f,
        )
    }

    fn evaluate(
        &self,
        game: &G,
        enc: &E,
        reward: &W,
        requests: Vec<(G::State, usize)>,
        seed: u64,
        collect_interior: bool,
        source: I,
    ) -> (r: (
        Result<Vec<(SearchEvaluation<N>, Vec<InteriorTarget<E::Feature, N>>)>, Fault>,
        I,
    )) {
        let (found, after) = search_and_conclude(
            game,
            enc,
            reward,
            &self.cfg,
            requests,
            collect_interior,
            seed,
            &self.exp,
            source,
            1,
        );
        match found {
            Ok(full) => (Ok(keep_first_heads(full)), after),
            Err(f) => (Err(f), after),
        }
    }
}

} // verus!
