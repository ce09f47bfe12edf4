#![allow(dead_code)]

use std::cell::{Cell, RefCell};

use reinfors_core::codec::bytes::{DecodeFault, Reader};
use reinfors_core::encoder::{ActionView, StateEncoder};
use reinfors_core::fault::Fault;
use reinfors_core::game::{Actor, ChanceDist, Game, Transition};
use reinfors_core::num::Scalar;
use reinfors_core::policies::planner::Planner;
use reinfors_core::policies::tree::evaluation::{
    decode_search_eval, encode_search_eval, SearchEvaluation,
};
use reinfors_core::policies::tree::expectimax::backup::SearchResult;
use reinfors_core::policies::tree::expectimax::evaluate::{softmax_floor, Exp};
use reinfors_core::policies::tree::expectimax::policy::{root_disagreement, SelectiveExpectimax};
use reinfors_core::policies::tree::expectimax::search::{search_many, Infer};
use reinfors_core::policies::tree::expectimax::tree::{Opponent, SearchConfig, SearchStats};
use reinfors_core::policies::tree::minimax::Minimax;
use reinfors_core::policy::{ChanceMode, Policy, Stateless};
use reinfors_core::reward::Reward;
use reinfors_core::rng::SplitMix64;

#[derive(Clone, Copy, PartialEq, PartialOrd, Debug)]
struct F(f64);

impl Scalar for F {
    fn zero() -> F {
        F(0.0)
    }
    fn one() -> F {
        F(1.0)
    }
    fn lowest() -> F {
        F(f64::NEG_INFINITY)
    }
    fn highest() -> F {
        F(f64::INFINITY)
    }
    fn count(n: u64) -> F {
        F(n as f64)
    }
    fn plus(self, rhs: F) -> F {
        F(self.0 + rhs.0)
    }
    fn minus(self, rhs: F) -> F {
        F(self.0 - rhs.0)
    }
    fn times(self, rhs: F) -> F {
        F(self.0 * rhs.0)
    }
    fn over(self, rhs: F) -> F {
        F(self.0 / rhs.0)
    }
    fn negated(self) -> F {
        F(-self.0)
    }
    fn root(self) -> F {
        F(self.0.sqrt())
    }
    fn less(self, rhs: F) -> bool {
        self.0 < rhs.0
    }
    fn at_most(self, rhs: F) -> bool {
        self.0 <= rhs.0
    }
    fn same(self, rhs: F) -> bool {
        self.0 == rhs.0
    }
    fn larger(self, rhs: F) -> F {
        F(self.0.max(rhs.0))
    }
    fn smaller(self, rhs: F) -> F {
        F(self.0.min(rhs.0))
    }
    fn is_finite(self) -> bool {
        self.0.is_finite()
    }
    fn is_number(self) -> bool {
        !self.0.is_nan()
    }
    fn index(self) -> usize {
        self.0 as usize
    }
    fn bits(self) -> u64 {
        self.0.to_bits()
    }
    fn from_bits(bits: u64) -> F {
        F(f64::from_bits(bits))
    }
}

fn nums(xs: &[f64]) -> Vec<F> {
    xs.iter().map(|&x| F(x)).collect()
}

fn plain(xs: &[F]) -> Vec<f64> {
    xs.iter().map(|x| x.0).collect()
}

struct Maths;
impl Exp<F> for Maths {
    fn exp(&self, x: F) -> F {
        F(x.0.exp())
    }
}

struct Net<'a> {
    f: &'a dyn Fn(&[usize], &[f32], usize) -> Vec<f64>,
}
impl<'a> Infer<f32, F> for Net<'a> {
    fn infer(self, players: &[usize], obs: Vec<f32>, n_rows: usize) -> (Self, Vec<F>) {
        let out = nums(&(self.f)(players, &obs, n_rows));
        (self, out)
    }
}

fn attempt<G, E, W>(
    game: &G,
    enc: &E,
    reward: &W,
    cfg: &SearchConfig<F>,
    requests: Vec<(G::State, usize)>,
    interior: bool,
    seed: u64,
    f: &dyn Fn(&[usize], &[f32], usize) -> Vec<f64>,
) -> Result<Vec<SearchResult<f32, F>>, Fault>
where
    G: Game<F> + Sync,
    E: StateEncoder<State = G::State, Feature = f32> + Sync,
    W: Reward<F, Event = G::Event> + Sync,
    G::State: Send,
{
    search_many(
        game,
        enc,
        reward,
        cfg,
        requests,
        interior,
        seed,
        &Maths,
        Net { f },
    )
    .0
}

fn search<G, E, W>(
    game: &G,
    enc: &E,
    reward: &W,
    cfg: &SearchConfig<F>,
    requests: Vec<(G::State, usize)>,
    interior: bool,
    seed: u64,
    f: &dyn Fn(&[usize], &[f32], usize) -> Vec<f64>,
) -> Vec<SearchResult<f32, F>>
where
    G: Game<F> + Sync,
    E: StateEncoder<State = G::State, Feature = f32> + Sync,
    W: Reward<F, Event = G::Event> + Sync,
    G::State: Send,
{
    attempt(game, enc, reward, cfg, requests, interior, seed, f)
        .ok()
        .unwrap()
}

struct Pass;
impl Reward<F> for Pass {
    type Event = f64;
    fn step_reward(&self, event: &f64, _agent: usize) -> F {
        F(*event)
    }
}

struct Line;
impl Game<F> for Line {
    type State = i32;
    type Event = f64;
    fn num_agents(&self) -> usize {
        1
    }
    fn action_count(&self) -> usize {
        2
    }
    fn copy_state(&self, s: &i32) -> i32 {
        *s
    }
    fn actor(&self, _: &i32) -> Actor {
        Actor::Agent(0)
    }
    fn legal_actions(&self, _: &i32, agent: usize) -> Vec<usize> {
        if agent == 0 {
            vec![0, 1]
        } else {
            Vec::new()
        }
    }
    fn step(&self, pos: &i32, actions: &[usize]) -> Transition<i32, f64> {
        let a = actions[0] as i32;
        Transition {
            next_state: pos + a,
            events: vec![Some(a as f64)],
            terminal: false,
        }
    }
    fn chance_node(&self, _: &i32) -> ChanceDist<F> {
        unreachable!()
    }
    fn apply_chance_node(&self, _: &i32, _: usize) -> Transition<i32, f64> {
        unreachable!()
    }
    fn perfect_information(&self) -> bool {
        true
    }
    fn initial_state(&self) -> i32 {
        0
    }
    fn truncation_horizon(&self) -> Option<usize> {
        None
    }
    fn mark_truncation(&self, _: &i32, _: &mut Vec<(usize, f64)>) {}
}

struct LineEnc;
impl ActionView for LineEnc {
    fn head_index(&self, action: usize, _: usize) -> usize {
        action
    }
    fn game_action(&self, head: usize, _: usize) -> usize {
        head
    }
}
impl StateEncoder for LineEnc {
    type State = i32;
    type Feature = f32;
    fn encode(&self, pos: &i32, _: usize) -> Vec<f32> {
        vec![*pos as f32]
    }
    fn obs_shape(&self) -> (usize, usize, usize) {
        (1, 1, 1)
    }
}

fn line_cfg(expansion_budget: usize) -> SearchConfig<F> {
    SearchConfig {
        gamma: F(0.9),
        beta: F(1.0),
        expansion_budget,
        top_k: 2,
        max_depth: 4,
        chance: ChanceMode::Committed { samples: 1 },
        opponent: Opponent::Uniform,
    }
}

fn waves(obs: &[f32], n: usize) -> Vec<f64> {
    let dim = obs.len() / n;
    let mut out = Vec::new();
    for i in 0..n {
        let p = obs[i * dim] as f64;
        out.extend_from_slice(&[
            (p * 0.5).sin(),
            (p * 0.3).cos(),
            (p * 0.2).sin(),
            (p * 0.7).cos(),
        ]);
    }
    out
}

#[test]
fn search_pooled_search_matches_solo_and_issues_fewer_forwards() {
    let states = [0i32, 5, 10];
    let pooled_calls = Cell::new(0);
    let pooled = search(
        &Line,
        &LineEnc,
        &Pass,
        &line_cfg(8),
        states.iter().map(|&s| (s, 0)).collect(),
        false,
        0,
        &|_, obs, n| {
            pooled_calls.set(pooled_calls.get() + 1);
            waves(obs, n)
        },
    );
    let mut solo_calls = 0usize;
    for (i, &s) in states.iter().enumerate() {
        let c = Cell::new(0);
        let solo = search(
            &Line,
            &LineEnc,
            &Pass,
            &line_cfg(8),
            vec![(s, 0)],
            false,
            0,
            &|_, obs, n| {
                c.set(c.get() + 1);
                waves(obs, n)
            },
        );
        assert_eq!(
            pooled[i].0, solo[0].0,
            "pooled values must match solo for state {s}"
        );
        let (p, q) = (pooled[i].2, solo[0].2);
        assert_eq!(
            (p.max_depth, p.expansions, p.leaves, p.rounds),
            (q.max_depth, q.expansions, q.leaves, q.rounds),
            "pooled stats must match solo for state {s}"
        );
        solo_calls += c.get();
    }
    assert!(
        pooled_calls.get() < solo_calls,
        "pooling should issue fewer forwards: {} vs {}",
        pooled_calls.get(),
        solo_calls
    );
}

#[test]
fn many_lanes_match_solo_searches() {
    let states: Vec<i32> = (0..40).collect();
    let pooled = search(
        &Line,
        &LineEnc,
        &Pass,
        &line_cfg(6),
        states.iter().map(|&s| (s, 0)).collect(),
        true,
        3,
        &|_, obs, n| waves(obs, n),
    );
    assert_eq!(pooled.len(), 40);
    for &s in &[0i32, 17, 39] {
        let solo = search(
            &Line,
            &LineEnc,
            &Pass,
            &line_cfg(6),
            vec![(s, 0)],
            true,
            3,
            &|_, obs, n| waves(obs, n),
        );
        assert_eq!(pooled[s as usize].0, solo[0].0);
        assert_eq!(pooled[s as usize].1, solo[0].1);
    }
}

#[test]
fn search_backed_up_root_values_match_a_hand_computed_tree() {
    let results = search(
        &Line,
        &LineEnc,
        &Pass,
        &line_cfg(1),
        vec![(0, 0)],
        false,
        0,
        &|_, obs, n| {
            let dim = obs.len() / n;
            let mut out = Vec::new();
            for i in 0..n {
                let p = obs[i * dim] as f64;
                out.extend_from_slice(&[p * 10.0, p * 10.0 + 1.0]);
            }
            out
        },
    );
    let values = &results[0].0;
    assert_eq!(values.len(), 1);
    assert!((values[0][0].0 - 0.9).abs() < 1e-9);
    assert!((values[0][1].0 - 10.9).abs() < 1e-9);
}

#[derive(Clone)]
struct RiskySt {
    total: i32,
    ply: u8,
}
struct Risky;
impl Game<F> for Risky {
    type State = RiskySt;
    type Event = f64;
    fn num_agents(&self) -> usize {
        1
    }
    fn action_count(&self) -> usize {
        2
    }
    fn copy_state(&self, s: &RiskySt) -> RiskySt {
        s.clone()
    }
    fn actor(&self, s: &RiskySt) -> Actor {
        if s.ply == 2 {
            Actor::Chance
        } else {
            Actor::Agent(0)
        }
    }
    fn legal_actions(&self, s: &RiskySt, agent: usize) -> Vec<usize> {
        if agent == 0 && s.ply != 2 {
            vec![0, 1]
        } else {
            Vec::new()
        }
    }
    fn step(&self, s: &RiskySt, actions: &[usize]) -> Transition<RiskySt, f64> {
        if s.ply == 0 {
            let (total, ply) = if actions[0] == 0 {
                (s.total + 1, 1)
            } else {
                (s.total, 2)
            };
            Transition {
                next_state: RiskySt { total, ply },
                events: vec![Some(0.0)],
                terminal: false,
            }
        } else {
            Transition {
                next_state: s.clone(),
                events: vec![Some(f64::from(s.total))],
                terminal: true,
            }
        }
    }
    fn chance_node(&self, _s: &RiskySt) -> ChanceDist<F> {
        ChanceDist::Weighted(nums(&[0.5, 0.5]))
    }
    fn apply_chance_node(&self, s: &RiskySt, outcome: usize) -> Transition<RiskySt, f64> {
        Transition {
            next_state: RiskySt {
                total: s.total + if outcome == 0 { 0 } else { 3 },
                ply: 1,
            },
            events: vec![None],
            terminal: false,
        }
    }
    fn perfect_information(&self) -> bool {
        true
    }
    fn initial_state(&self) -> RiskySt {
        RiskySt { total: 0, ply: 0 }
    }
    fn truncation_horizon(&self) -> Option<usize> {
        None
    }
    fn mark_truncation(&self, _: &RiskySt, _: &mut Vec<(usize, f64)>) {}
}

struct RiskyEnc;
impl ActionView for RiskyEnc {
    fn head_index(&self, action: usize, _: usize) -> usize {
        action
    }
    fn game_action(&self, head: usize, _: usize) -> usize {
        head
    }
}
impl StateEncoder for RiskyEnc {
    type State = RiskySt;
    type Feature = f32;
    fn encode(&self, s: &RiskySt, _: usize) -> Vec<f32> {
        vec![s.total as f32, f32::from(s.ply)]
    }
    fn obs_shape(&self) -> (usize, usize, usize) {
        (1, 1, 2)
    }
}

fn risky_cfg(chance: ChanceMode) -> SearchConfig<F> {
    SearchConfig {
        gamma: F(1.0),
        beta: F(1.0),
        expansion_budget: 16,
        top_k: 4,
        max_depth: 4,
        chance,
        opponent: Opponent::Uniform,
    }
}

fn run_risky(chance: ChanceMode, seed: u64) -> Vec<Vec<F>> {
    search(
        &Risky,
        &RiskyEnc,
        &Pass,
        &risky_cfg(chance),
        vec![(RiskySt { total: 0, ply: 0 }, 0)],
        false,
        seed,
        &|_, _, n| vec![0.0; n * 2],
    )
    .remove(0)
    .0
}

#[test]
fn search_expand_all_is_the_exact_expectation() {
    let values = run_risky(ChanceMode::ExpandAll, 7);
    assert_eq!(
        values[0][1],
        F(1.5),
        "risky = 0.5*0 + 0.5*3 exactly, no sampling"
    );
    assert_eq!(values[0][0], F(1.0));
}

#[test]
fn search_committed_one_freezes_one_world() {
    let (mut lo, mut hi) = (false, false);
    for seed in 0..12 {
        let q = run_risky(ChanceMode::Committed { samples: 1 }, seed)[0][1].0;
        assert!(
            q == 0.0 || q == 3.0,
            "one frozen world: q in {{0, 3}}, got {q}"
        );
        lo |= q == 0.0;
        hi |= q == 3.0;
    }
    assert!(lo && hi, "both worlds should occur across seeds");
}

#[test]
fn search_selective_expectimax_rejects_always_resample() {
    let r = attempt(
        &Risky,
        &RiskyEnc,
        &Pass,
        &risky_cfg(ChanceMode::AlwaysResample),
        vec![(RiskySt { total: 0, ply: 0 }, 0)],
        false,
        0,
        &|_, _, n| vec![0.0; n * 2],
    );
    assert_eq!(r.err(), Some(Fault::ChanceMode));
}

#[derive(Clone)]
struct TurnSt {
    id: i32,
    turn: usize,
}
struct Turns;
impl Game<F> for Turns {
    type State = TurnSt;
    type Event = f64;
    fn num_agents(&self) -> usize {
        2
    }
    fn action_count(&self) -> usize {
        2
    }
    fn copy_state(&self, s: &TurnSt) -> TurnSt {
        s.clone()
    }
    fn actor(&self, s: &TurnSt) -> Actor {
        Actor::Agent(s.turn)
    }
    fn legal_actions(&self, s: &TurnSt, agent: usize) -> Vec<usize> {
        if agent == s.turn {
            vec![0, 1]
        } else {
            Vec::new()
        }
    }
    fn step(&self, s: &TurnSt, actions: &[usize]) -> Transition<TurnSt, f64> {
        Transition {
            next_state: TurnSt {
                id: s.id * 2 + actions[s.turn] as i32 + 1,
                turn: 1 - s.turn,
            },
            events: vec![Some(0.0), Some(0.0)],
            terminal: false,
        }
    }
    fn chance_node(&self, _: &TurnSt) -> ChanceDist<F> {
        unreachable!()
    }
    fn apply_chance_node(&self, _: &TurnSt, _: usize) -> Transition<TurnSt, f64> {
        unreachable!()
    }
    fn perfect_information(&self) -> bool {
        true
    }
    fn initial_state(&self) -> TurnSt {
        TurnSt { id: 0, turn: 0 }
    }
    fn truncation_horizon(&self) -> Option<usize> {
        None
    }
    fn mark_truncation(&self, _: &TurnSt, _: &mut Vec<(usize, f64)>) {}
}

/// Swaps the second agent's heads, or none.
struct TurnEnc {
    swapped: bool,
}
impl ActionView for TurnEnc {
    fn head_index(&self, action: usize, agent: usize) -> usize {
        if self.swapped && agent == 1 {
            1 - action
        } else {
            action
        }
    }
    fn game_action(&self, head: usize, agent: usize) -> usize {
        if self.swapped && agent == 1 {
            1 - head
        } else {
            head
        }
    }
}
impl StateEncoder for TurnEnc {
    type State = TurnSt;
    type Feature = f32;
    fn encode(&self, s: &TurnSt, agent: usize) -> Vec<f32> {
        vec![s.id as f32, agent as f32]
    }
    fn obs_shape(&self) -> (usize, usize, usize) {
        (1, 1, 2)
    }
}

fn v(id: f64, a: usize, h: usize, g: usize) -> f64 {
    ((id as i64 * 3 + a as i64 * 7 + h as i64 * 5 + g as i64 * 2) % 11) as f64 * 0.1
}

#[test]
fn leaf_and_opponent_gathers_cross_via_each_rows_view() {
    let cfg = SearchConfig {
        gamma: F(0.9),
        beta: F(1.0),
        expansion_budget: 5,
        top_k: 2,
        max_depth: 3,
        chance: ChanceMode::Committed { samples: 1 },
        opponent: Opponent::Distributional {
            temperature: F(1.0),
            floor: F(0.1),
        },
    };
    let run = |swapped: bool| {
        search(
            &Turns,
            &TurnEnc { swapped },
            &Pass,
            &cfg,
            vec![(TurnSt { id: 0, turn: 0 }, 0)],
            true,
            0,
            &|_, obs, n| {
                (0..n)
                    .flat_map(|i| {
                        let id = f64::from(obs[i * 2]);
                        let g = obs[i * 2 + 1] as usize;
                        (0..2).flat_map(move |h| {
                            (0..2).map(move |slot| {
                                let game_a = if swapped && g == 1 { 1 - slot } else { slot };
                                v(id, game_a, h, g)
                            })
                        })
                    })
                    .collect()
            },
        )
        .remove(0)
    };
    let id = run(false);
    let sw = run(true);
    assert_eq!(id.0, sw.0, "root values: a gather skipped its row's view");
    assert_eq!(
        id.1, sw.1,
        "interior targets are game-frame search products: must be frame-invariant"
    );
}

fn wide_cfg(opponent: Opponent<F>) -> SearchConfig<F> {
    SearchConfig {
        gamma: F(1.0),
        beta: F(1.0),
        expansion_budget: 16,
        top_k: 8,
        max_depth: 8,
        chance: ChanceMode::Committed { samples: 1 },
        opponent,
    }
}

/// All agents choose at once, and it ends. The first is paid what the next two chose.
struct SimSum {
    agents: usize,
}
impl Game<F> for SimSum {
    type State = bool;
    type Event = f64;
    fn num_agents(&self) -> usize {
        self.agents
    }
    fn action_count(&self) -> usize {
        2
    }
    fn copy_state(&self, s: &bool) -> bool {
        *s
    }
    fn actor(&self, _s: &bool) -> Actor {
        Actor::Simultaneous
    }
    fn legal_actions(&self, s: &bool, _agent: usize) -> Vec<usize> {
        if *s {
            Vec::new()
        } else {
            vec![0, 1]
        }
    }
    fn step(&self, _s: &bool, actions: &[usize]) -> Transition<bool, f64> {
        let others: f64 = actions[1..].iter().take(2).map(|&a| a as f64).sum();
        let mine = if actions[0] == 1 { others } else { 0.0 };
        let mut events = vec![Some(0.0); self.agents];
        events[0] = Some(mine);
        Transition {
            next_state: true,
            events,
            terminal: true,
        }
    }
    fn chance_node(&self, _: &bool) -> ChanceDist<F> {
        unreachable!()
    }
    fn apply_chance_node(&self, _: &bool, _: usize) -> Transition<bool, f64> {
        unreachable!()
    }
    fn perfect_information(&self) -> bool {
        true
    }
    fn initial_state(&self) -> bool {
        false
    }
    fn truncation_horizon(&self) -> Option<usize> {
        None
    }
    fn mark_truncation(&self, _: &bool, _: &mut Vec<(usize, f64)>) {}
}

struct SimEnc;
impl ActionView for SimEnc {
    fn head_index(&self, action: usize, _: usize) -> usize {
        action
    }
    fn game_action(&self, head: usize, _: usize) -> usize {
        head
    }
}
impl StateEncoder for SimEnc {
    type State = bool;
    type Feature = f32;
    fn encode(&self, s: &bool, agent: usize) -> Vec<f32> {
        vec![f32::from(u8::from(*s)), agent as f32]
    }
    fn obs_shape(&self) -> (usize, usize, usize) {
        (1, 1, 2)
    }
}

#[test]
fn factored_uniform_co_movers_average_exactly() {
    let results = search(
        &SimSum { agents: 3 },
        &SimEnc,
        &Pass,
        &wide_cfg(Opponent::Uniform),
        vec![(false, 0)],
        false,
        0,
        &|_, _, n| vec![0.0; n * 2],
    );
    for head in &results[0].0 {
        assert!(
            (head[1].0 - 1.0).abs() < 1e-12,
            "E[sum of 2 uniform bits] = 1"
        );
        assert_eq!(head[0], F(0.0));
    }
}

#[derive(Clone)]
struct ChainSt {
    phase: usize,
    a1: usize,
}
struct Chain;
impl Game<F> for Chain {
    type State = ChainSt;
    type Event = f64;
    fn num_agents(&self) -> usize {
        3
    }
    fn action_count(&self) -> usize {
        2
    }
    fn copy_state(&self, s: &ChainSt) -> ChainSt {
        s.clone()
    }
    fn actor(&self, s: &ChainSt) -> Actor {
        Actor::Agent(s.phase.min(2))
    }
    fn legal_actions(&self, s: &ChainSt, agent: usize) -> Vec<usize> {
        if s.phase < 3 && agent == s.phase {
            vec![0, 1]
        } else {
            Vec::new()
        }
    }
    fn step(&self, s: &ChainSt, actions: &[usize]) -> Transition<ChainSt, f64> {
        match s.phase {
            0 if actions[0] == 1 => Transition {
                next_state: ChainSt { phase: 3, a1: 0 },
                events: vec![Some(1.0), Some(0.0), Some(0.0)],
                terminal: true,
            },
            0 => Transition {
                next_state: ChainSt { phase: 1, a1: 0 },
                events: vec![Some(0.0); 3],
                terminal: false,
            },
            1 => Transition {
                next_state: ChainSt {
                    phase: 2,
                    a1: actions[1],
                },
                events: vec![Some(0.0); 3],
                terminal: false,
            },
            2 => {
                let mine =
                    2.0 * f64::from(u8::from(s.a1 == 0)) + f64::from(u8::from(actions[2] == 0));
                Transition {
                    next_state: ChainSt { phase: 3, a1: s.a1 },
                    events: vec![Some(mine), Some(0.0), Some(0.0)],
                    terminal: true,
                }
            }
            _ => unreachable!("stepping a terminal state"),
        }
    }
    fn chance_node(&self, _: &ChainSt) -> ChanceDist<F> {
        unreachable!()
    }
    fn apply_chance_node(&self, _: &ChainSt, _: usize) -> Transition<ChainSt, f64> {
        unreachable!()
    }
    fn perfect_information(&self) -> bool {
        true
    }
    fn initial_state(&self) -> ChainSt {
        ChainSt { phase: 0, a1: 0 }
    }
    fn truncation_horizon(&self) -> Option<usize> {
        None
    }
    fn mark_truncation(&self, _: &ChainSt, _: &mut Vec<(usize, f64)>) {}
}

struct ChainEnc;
impl ActionView for ChainEnc {
    fn head_index(&self, action: usize, agent: usize) -> usize {
        (action + agent) % 2
    }
    fn game_action(&self, head: usize, agent: usize) -> usize {
        (head + agent) % 2
    }
}
impl StateEncoder for ChainEnc {
    type State = ChainSt;
    type Feature = f32;
    fn encode(&self, s: &ChainSt, agent: usize) -> Vec<f32> {
        vec![s.phase as f32, agent as f32, s.a1 as f32]
    }
    fn obs_shape(&self) -> (usize, usize, usize) {
        (1, 1, 3)
    }
}

#[test]
fn sequential_uniform_co_movers_average_exactly() {
    let results = search(
        &Chain,
        &ChainEnc,
        &Pass,
        &wide_cfg(Opponent::Uniform),
        vec![(ChainSt { phase: 0, a1: 0 }, 0)],
        false,
        0,
        &|_, _, n| vec![0.0; n * 2],
    );
    for head in &results[0].0 {
        assert!((head[0].0 - 1.5).abs() < 1e-12, "L = E[2·b1 + b2] = 1.5");
        assert!((head[1].0 - 1.0).abs() < 1e-12, "R pays exactly 1");
    }
}

#[test]
fn distributional_weights_come_from_each_movers_own_row_and_view() {
    let (temperature, floor) = (F(1.0), F(0.05));
    let results = search(
        &Chain,
        &ChainEnc,
        &Pass,
        &wide_cfg(Opponent::Distributional { temperature, floor }),
        vec![(ChainSt { phase: 0, a1: 0 }, 0)],
        false,
        0,
        &|_, obs, n| {
            let mut out = Vec::new();
            for r in 0..n {
                let agent = obs[r * 3 + 1];
                if agent == 0.0 {
                    out.extend([0.0, 0.0]);
                } else {
                    out.extend([0.0, 10.0]);
                }
            }
            out
        },
    );
    let ph = softmax_floor(&Maths, &nums(&[10.0, 0.0]), temperature, floor)[0].0;
    let expect_l = 2.0 * ph + (1.0 - ph);
    for head in &results[0].0 {
        assert!(
            (head[0].0 - expect_l).abs() < 1e-9,
            "L must mix each mover's own distribution: got {}, want {expect_l}",
            head[0].0
        );
        assert!((head[1].0 - 1.0).abs() < 1e-12);
    }
}

#[test]
fn oversized_co_mover_fans_panic_instead_of_wrapping() {
    let cfg = SearchConfig {
        gamma: F(1.0),
        beta: F(1.0),
        expansion_budget: 1,
        top_k: 1,
        max_depth: 2,
        chance: ChanceMode::Committed { samples: 1 },
        opponent: Opponent::Uniform,
    };
    let r = attempt(
        &SimSum { agents: 65 },
        &SimEnc,
        &Pass,
        &cfg,
        vec![(false, 0)],
        false,
        0,
        &|_, _, n| vec![0.0; n * 2],
    );
    assert_eq!(r.err(), Some(Fault::JointLimit));
}

#[test]
fn mod_root_disagreement_matches_population_std_definition() {
    let d = |values: &[&[f64]], legal: &[usize]| -> f64 {
        let values: Vec<Vec<F>> = values.iter().map(|r| nums(r)).collect();
        root_disagreement(&values, legal).ok().unwrap().0
    };
    assert!((d(&[&[0.0], &[2.0]], &[0]) - 1.0).abs() < 1e-12);
    assert_eq!(d(&[&[5.0, 5.0], &[5.0, 5.0]], &[0, 1]), 0.0);
    assert_eq!(d(&[&[1.0, 2.0, 3.0]], &[0, 1, 2]), 0.0);
    let heads: [&[f64]; 2] = [&[0.0, 0.0], &[0.0, 2.0]];
    assert!((d(&heads, &[1]) - 1.0).abs() < 1e-12);
    assert!((d(&heads, &[0, 1]) - 0.5).abs() < 1e-12);
}

fn selective(n_heads: usize) -> SelectiveExpectimax<F, Maths> {
    SelectiveExpectimax::new(
        SearchConfig {
            gamma: F(1.0),
            beta: F(1.0),
            expansion_budget: 4,
            top_k: 2,
            max_depth: 2,
            chance: ChanceMode::Committed { samples: 1 },
            opponent: Opponent::Uniform,
        },
        n_heads,
        F(0.0),
        Maths,
    )
}

#[test]
fn mod_select_never_picks_an_illegal_zero_in_a_losing_position() {
    let policy = selective(1);
    let eval = SearchEvaluation {
        values: vec![nums(&[0.0, -0.6, -0.9])],
        visits: Vec::new(),
        legal: vec![1, 2],
        stats: SearchStats::default(),
    };
    let mut head = 0;
    assert_eq!(
        policy.select(&eval, &mut head, &mut SplitMix64::new(0)),
        Ok(1),
        "the best LEGAL action, not the illegal densified zero"
    );
}

fn encoded(heads: usize, visits: bool, actions: usize) -> Vec<u8> {
    let e = SearchEvaluation {
        values: vec![vec![F(0.0); actions]; heads],
        visits: if visits {
            vec![F(0.0); actions]
        } else {
            Vec::new()
        },
        legal: vec![0, 1],
        stats: SearchStats::default(),
    };
    let mut out = Vec::new();
    encode_search_eval(&e, &mut out);
    out
}

#[test]
fn mod_decoding_enforces_the_policy_shape() {
    let a = 4;
    let decode = |bytes: &[u8], heads: usize, visits: bool| -> Option<DecodeFault> {
        let r: Result<SearchEvaluation<F>, DecodeFault> =
            decode_search_eval(&mut Reader::new(bytes), a, heads, visits);
        r.err()
    };
    let ex = encoded(2, false, a);
    assert_eq!(decode(&ex, 2, false), None);
    assert_eq!(decode(&ex, 1, true), Some(DecodeFault::Heads));
    assert_eq!(decode(&ex, 3, false), Some(DecodeFault::Heads));
    assert_eq!(decode(&encoded(0, true, a), 1, true), Some(DecodeFault::Heads));
    assert_eq!(decode(&encoded(1, false, a), 1, true), Some(DecodeFault::VisitWidth));
    assert_eq!(decode(&encoded(1, true, a), 1, false), Some(DecodeFault::Visits));
    assert_eq!(decode(&encoded(1, true, a), 1, true), None);
    assert_eq!(decode(&ex[..10], 2, false), Some(DecodeFault::Truncated));
}

#[test]
fn decoding_refuses_what_no_search_gives() {
    let mut e = SearchEvaluation {
        values: vec![nums(&[0.0, f64::NAN])],
        visits: nums(&[1.0, 1.0]),
        legal: vec![0],
        stats: SearchStats::default(),
    };
    let decode = |e: &SearchEvaluation<F>| -> Option<DecodeFault> {
        let mut out = Vec::new();
        encode_search_eval(e, &mut out);
        let r: Result<SearchEvaluation<F>, DecodeFault> =
            decode_search_eval(&mut Reader::new(&out), 2, 1, true);
        r.err()
    };
    assert_eq!(decode(&e), Some(DecodeFault::NotFinite));
    e.values = vec![nums(&[0.0, 1.0])];
    assert_eq!(decode(&e), None);
    e.visits = nums(&[1.0, -1.0]);
    assert_eq!(decode(&e), Some(DecodeFault::VisitCount));
    e.visits = nums(&[1.0, 1.0]);
    e.legal = vec![2];
    assert_eq!(decode(&e), Some(DecodeFault::ActionRange));
    e.legal = vec![1];
    e.values = vec![nums(&[0.0])];
    assert_eq!(decode(&e), Some(DecodeFault::RowWidth));
}

#[derive(Clone)]
struct DuelSt {
    ply: u8,
    first: usize,
}
struct Duel;
impl Game<F> for Duel {
    type State = DuelSt;
    type Event = f64;
    fn num_agents(&self) -> usize {
        2
    }
    fn action_count(&self) -> usize {
        2
    }
    fn copy_state(&self, s: &DuelSt) -> DuelSt {
        s.clone()
    }
    fn actor(&self, s: &DuelSt) -> Actor {
        Actor::Agent(usize::from(s.ply))
    }
    fn legal_actions(&self, s: &DuelSt, agent: usize) -> Vec<usize> {
        if s.ply < 2 && agent == usize::from(s.ply) {
            vec![0, 1]
        } else {
            Vec::new()
        }
    }
    fn step(&self, s: &DuelSt, actions: &[usize]) -> Transition<DuelSt, f64> {
        if s.ply == 0 {
            Transition {
                next_state: DuelSt {
                    ply: 1,
                    first: actions[0],
                },
                events: vec![Some(0.0), Some(0.0)],
                terminal: false,
            }
        } else {
            let pay = match (s.first, actions[1]) {
                (0, 0) => 2.0,
                (0, 1) => -3.0,
                (1, 0) => 0.5,
                _ => 1.0,
            };
            Transition {
                next_state: DuelSt {
                    ply: 2,
                    first: s.first,
                },
                events: vec![Some(pay), Some(-pay)],
                terminal: true,
            }
        }
    }
    fn chance_node(&self, _: &DuelSt) -> ChanceDist<F> {
        unreachable!()
    }
    fn apply_chance_node(&self, _: &DuelSt, _: usize) -> Transition<DuelSt, f64> {
        unreachable!()
    }
    fn perfect_information(&self) -> bool {
        true
    }
    fn initial_state(&self) -> DuelSt {
        DuelSt { ply: 0, first: 0 }
    }
    fn truncation_horizon(&self) -> Option<usize> {
        None
    }
    fn mark_truncation(&self, _: &DuelSt, _: &mut Vec<(usize, f64)>) {}
}

struct DuelEnc;
impl ActionView for DuelEnc {
    fn head_index(&self, action: usize, _: usize) -> usize {
        action
    }
    fn game_action(&self, head: usize, _: usize) -> usize {
        head
    }
}
impl StateEncoder for DuelEnc {
    type State = DuelSt;
    type Feature = f32;
    fn encode(&self, s: &DuelSt, _: usize) -> Vec<f32> {
        vec![f32::from(s.ply), s.first as f32]
    }
    fn obs_shape(&self) -> (usize, usize, usize) {
        (1, 1, 2)
    }
}

fn adversarial_cfg(depth: i32, move_cap: usize, chance: ChanceMode) -> SearchConfig<F> {
    SearchConfig {
        gamma: F(1.0),
        beta: F(1.0),
        expansion_budget: usize::MAX,
        top_k: usize::MAX,
        max_depth: depth,
        chance,
        opponent: Opponent::Adversarial { move_cap },
    }
}

const ONE: ChanceMode = ChanceMode::Committed { samples: 1 };

#[test]
fn opponent_replies_back_up_as_a_minimum_not_an_expectation() {
    let results = search(
        &Duel,
        &DuelEnc,
        &Pass,
        &adversarial_cfg(2, usize::MAX, ONE),
        vec![(DuelSt { ply: 0, first: 0 }, 0)],
        false,
        0,
        &|_, _, n| vec![0.0; n * 2],
    );
    let v = &results[0].0[0];
    assert!((v[0].0 - -3.0).abs() < 1e-12, "min over replies");
    assert!((v[1].0 - 0.5).abs() < 1e-12, "min over replies");
}

#[test]
fn selection_avoids_the_greedy_bait() {
    let policy = Minimax::new(2, None, ONE, F(1.0), Maths);
    let eval = SearchEvaluation {
        values: vec![nums(&[-3.0, 0.5])],
        visits: Vec::new(),
        legal: vec![0, 1],
        stats: SearchStats::default(),
    };
    assert_eq!(
        policy.select(&eval, &mut Stateless, &mut SplitMix64::new(0)),
        Ok(1)
    );
}

#[test]
fn the_minimax_policy_evaluates_by_adversarial_search() {
    let policy = Minimax::new(2, None, ONE, F(1.0), Maths);
    let (out, _) = policy.evaluate(
        &Duel,
        &DuelEnc,
        &Pass,
        vec![(DuelSt { ply: 0, first: 0 }, 0)],
        0,
        false,
        Net {
            f: &|_, _, n| vec![0.0; n * 2],
        },
    );
    let out = out.ok().unwrap();
    assert_eq!(out.len(), 1);
    assert_eq!(out[0].0.values, vec![nums(&[-3.0, 0.5])]);
    assert_eq!(
        policy.select(&out[0].0, &mut Stateless, &mut SplitMix64::new(0)),
        Ok(1)
    );
}

#[test]
fn the_selective_policy_evaluates_by_selective_search() {
    let policy = selective(1);
    let (out, _) = policy.evaluate(
        &Line,
        &LineEnc,
        &Pass,
        vec![(0, 0), (1, 0)],
        0,
        true,
        Net {
            f: &|_, _, n| vec![0.0; n * 2],
        },
    );
    let out = out.ok().unwrap();
    assert_eq!(out.len(), 2);
    assert_eq!(out[0].0.legal, vec![0, 1]);
    assert_eq!(out[0].0.values.len(), 1);
    assert!(out[0].0.values[0][1].0 > out[0].0.values[0][0].0);
    assert!(!out[0].1.is_empty());
}

#[derive(Clone)]
struct RiskSt {
    ply: u8,
    risky: bool,
}
struct Risk;
impl Game<F> for Risk {
    type State = RiskSt;
    type Event = f64;
    fn num_agents(&self) -> usize {
        2
    }
    fn action_count(&self) -> usize {
        2
    }
    fn copy_state(&self, s: &RiskSt) -> RiskSt {
        s.clone()
    }
    fn actor(&self, s: &RiskSt) -> Actor {
        if s.ply == 1 && s.risky {
            Actor::Chance
        } else {
            Actor::Agent(0)
        }
    }
    fn legal_actions(&self, s: &RiskSt, agent: usize) -> Vec<usize> {
        if s.ply == 0 && agent == 0 {
            vec![0, 1]
        } else {
            Vec::new()
        }
    }
    fn step(&self, s: &RiskSt, actions: &[usize]) -> Transition<RiskSt, f64> {
        assert_eq!(s.ply, 0);
        if actions[0] == 1 {
            Transition {
                next_state: RiskSt {
                    ply: 1,
                    risky: true,
                },
                events: vec![Some(0.0), Some(0.0)],
                terminal: false,
            }
        } else {
            Transition {
                next_state: RiskSt {
                    ply: 1,
                    risky: false,
                },
                events: vec![Some(1.0), Some(-1.0)],
                terminal: true,
            }
        }
    }
    fn chance_node(&self, _s: &RiskSt) -> ChanceDist<F> {
        ChanceDist::Weighted(nums(&[0.5, 0.5]))
    }
    fn apply_chance_node(&self, s: &RiskSt, outcome: usize) -> Transition<RiskSt, f64> {
        let pay = if outcome == 0 { 0.0 } else { 3.0 };
        Transition {
            next_state: RiskSt {
                ply: 2,
                risky: s.risky,
            },
            events: vec![Some(pay), Some(-pay)],
            terminal: true,
        }
    }
    fn perfect_information(&self) -> bool {
        true
    }
    fn initial_state(&self) -> RiskSt {
        RiskSt {
            ply: 0,
            risky: false,
        }
    }
    fn truncation_horizon(&self) -> Option<usize> {
        None
    }
    fn mark_truncation(&self, _: &RiskSt, _: &mut Vec<(usize, f64)>) {}
}

struct RiskEnc;
impl ActionView for RiskEnc {
    fn head_index(&self, action: usize, _: usize) -> usize {
        action
    }
    fn game_action(&self, head: usize, _: usize) -> usize {
        head
    }
}
impl StateEncoder for RiskEnc {
    type State = RiskSt;
    type Feature = f32;
    fn encode(&self, s: &RiskSt, _: usize) -> Vec<f32> {
        vec![f32::from(s.ply), f32::from(u8::from(s.risky))]
    }
    fn obs_shape(&self) -> (usize, usize, usize) {
        (1, 1, 2)
    }
}

#[test]
fn expand_all_backs_up_the_exact_expectiminimax_value() {
    let results = search(
        &Risk,
        &RiskEnc,
        &Pass,
        &adversarial_cfg(2, usize::MAX, ChanceMode::ExpandAll),
        vec![(
            RiskSt {
                ply: 0,
                risky: false,
            },
            0,
        )],
        false,
        0,
        &|_, _, n| vec![0.0; n * 2],
    );
    let v = &results[0].0[0];
    assert_eq!(v[1], F(1.5), "0.5*0 + 0.5*3 exactly");
    assert_eq!(v[0], F(1.0));
}

struct Corridor;
impl Game<F> for Corridor {
    type State = u8;
    type Event = f64;
    fn num_agents(&self) -> usize {
        2
    }
    fn action_count(&self) -> usize {
        2
    }
    fn copy_state(&self, s: &u8) -> u8 {
        *s
    }
    fn actor(&self, s: &u8) -> Actor {
        Actor::Agent(usize::from(s % 2))
    }
    fn legal_actions(&self, s: &u8, agent: usize) -> Vec<usize> {
        if *s < 3 && agent == usize::from(s % 2) {
            vec![0, 1]
        } else {
            Vec::new()
        }
    }
    fn step(&self, s: &u8, _actions: &[usize]) -> Transition<u8, f64> {
        let next = s + 1;
        if next == 3 {
            Transition {
                next_state: next,
                events: vec![Some(1.0), Some(-1.0)],
                terminal: true,
            }
        } else {
            Transition {
                next_state: next,
                events: vec![Some(0.0), Some(0.0)],
                terminal: false,
            }
        }
    }
    fn chance_node(&self, _: &u8) -> ChanceDist<F> {
        unreachable!()
    }
    fn apply_chance_node(&self, _: &u8, _: usize) -> Transition<u8, f64> {
        unreachable!()
    }
    fn perfect_information(&self) -> bool {
        true
    }
    fn initial_state(&self) -> u8 {
        0
    }
    fn truncation_horizon(&self) -> Option<usize> {
        None
    }
    fn mark_truncation(&self, _: &u8, _: &mut Vec<(usize, f64)>) {}
}

struct ByteEnc;
impl ActionView for ByteEnc {
    fn head_index(&self, action: usize, _: usize) -> usize {
        action
    }
    fn game_action(&self, head: usize, _: usize) -> usize {
        head
    }
}
impl StateEncoder for ByteEnc {
    type State = u8;
    type Feature = f32;
    fn encode(&self, s: &u8, _: usize) -> Vec<f32> {
        vec![f32::from(*s)]
    }
    fn obs_shape(&self) -> (usize, usize, usize) {
        (1, 1, 1)
    }
}

#[test]
fn a_zero_evaluator_is_horizon_perfect_and_horizon_blind() {
    let run = |depth: i32| {
        search(
            &Corridor,
            &ByteEnc,
            &Pass,
            &adversarial_cfg(depth, usize::MAX, ONE),
            vec![(0, 0)],
            false,
            0,
            &|_, _, n| vec![0.0; n * 2],
        )
        .remove(0)
        .0
    };
    let seen = run(3);
    assert!((seen[0][0].0 - 1.0).abs() < 1e-12, "win inside the horizon");
    let blind = run(2);
    assert_eq!(blind[0][0].0, 0.0, "win beyond the horizon is invisible");
}

#[derive(Clone)]
struct BeamSt {
    ply: u8,
    reply: usize,
}
struct Beam;
impl Game<F> for Beam {
    type State = BeamSt;
    type Event = f64;
    fn num_agents(&self) -> usize {
        2
    }
    fn action_count(&self) -> usize {
        2
    }
    fn copy_state(&self, s: &BeamSt) -> BeamSt {
        s.clone()
    }
    fn actor(&self, s: &BeamSt) -> Actor {
        Actor::Agent(usize::from(s.ply == 1))
    }
    fn legal_actions(&self, s: &BeamSt, agent: usize) -> Vec<usize> {
        match (s.ply, agent) {
            (0, 0) => vec![0],
            (1, 1) => vec![0, 1],
            (2, 0) => vec![0],
            _ => Vec::new(),
        }
    }
    fn step(&self, s: &BeamSt, actions: &[usize]) -> Transition<BeamSt, f64> {
        match s.ply {
            0 => Transition {
                next_state: BeamSt { ply: 1, reply: 0 },
                events: vec![Some(0.0), Some(0.0)],
                terminal: false,
            },
            1 => Transition {
                next_state: BeamSt {
                    ply: 2,
                    reply: actions[1],
                },
                events: vec![Some(0.0), Some(0.0)],
                terminal: false,
            },
            _ => {
                let pay = if s.reply == 0 { -1.0 } else { -4.0 };
                Transition {
                    next_state: BeamSt {
                        ply: 3,
                        reply: s.reply,
                    },
                    events: vec![Some(pay), Some(-pay)],
                    terminal: true,
                }
            }
        }
    }
    fn chance_node(&self, _: &BeamSt) -> ChanceDist<F> {
        unreachable!()
    }
    fn apply_chance_node(&self, _: &BeamSt, _: usize) -> Transition<BeamSt, f64> {
        unreachable!()
    }
    fn perfect_information(&self) -> bool {
        true
    }
    fn initial_state(&self) -> BeamSt {
        BeamSt { ply: 0, reply: 0 }
    }
    fn truncation_horizon(&self) -> Option<usize> {
        None
    }
    fn mark_truncation(&self, _: &BeamSt, _: &mut Vec<(usize, f64)>) {}
}

struct BeamEnc;
impl ActionView for BeamEnc {
    fn head_index(&self, action: usize, _: usize) -> usize {
        action
    }
    fn game_action(&self, head: usize, _: usize) -> usize {
        head
    }
}
impl StateEncoder for BeamEnc {
    type State = BeamSt;
    type Feature = f32;
    fn encode(&self, s: &BeamSt, _: usize) -> Vec<f32> {
        vec![f32::from(s.ply), s.reply as f32]
    }
    fn obs_shape(&self) -> (usize, usize, usize) {
        (1, 1, 2)
    }
}

#[test]
fn a_one_move_beam_keeps_the_leaf_ranked_reply() {
    let run = |cap: usize| {
        search(
            &Beam,
            &BeamEnc,
            &Pass,
            &adversarial_cfg(3, cap, ONE),
            vec![(BeamSt { ply: 0, reply: 0 }, 0)],
            false,
            0,
            &|_, obs, n| {
                (0..n)
                    .flat_map(|i| {
                        if obs[i * 2] as u8 == 1 {
                            vec![9.0, -9.0]
                        } else {
                            vec![0.0, 0.0]
                        }
                    })
                    .collect()
            },
        )
        .remove(0)
        .0
    };
    let full = run(usize::MAX);
    assert!((full[0][0].0 - -4.0).abs() < 1e-12, "true min");
    let beamed = run(1);
    assert!(
        (beamed[0][0].0 - -1.0).abs() < 1e-12,
        "beam keeps the leaf-ranked reply"
    );
}

#[test]
fn opponent_horizons_are_evaluated_on_turn_and_negated() {
    let routed: RefCell<Vec<usize>> = RefCell::new(Vec::new());
    let results = search(
        &Duel,
        &DuelEnc,
        &Pass,
        &adversarial_cfg(1, usize::MAX, ONE),
        vec![(DuelSt { ply: 0, first: 0 }, 0)],
        false,
        0,
        &|players, obs, n| {
            routed.borrow_mut().extend_from_slice(players);
            (0..n)
                .flat_map(|i| {
                    if obs[i * 2 + 1] == 0.0 {
                        vec![-10.0, 10.0]
                    } else {
                        vec![-2.0, 1.0]
                    }
                })
                .collect()
        },
    );
    let v = &results[0].0[0];
    assert!((v[0].0 - -10.0).abs() < 1e-12, "negated mover max");
    assert!((v[1].0 - -1.0).abs() < 1e-12, "negated mover max");
    assert_eq!(
        *routed.borrow(),
        vec![1, 1],
        "opponent-horizon rows must be requested for the opponent"
    );
}

struct WideFinal;
impl Game<F> for WideFinal {
    type State = u8;
    type Event = f64;
    fn num_agents(&self) -> usize {
        2
    }
    fn action_count(&self) -> usize {
        1100
    }
    fn copy_state(&self, s: &u8) -> u8 {
        *s
    }
    fn actor(&self, s: &u8) -> Actor {
        Actor::Agent(usize::from(*s))
    }
    fn legal_actions(&self, s: &u8, agent: usize) -> Vec<usize> {
        if *s < 2 && agent == usize::from(*s) {
            (0..1100).collect()
        } else {
            Vec::new()
        }
    }
    fn step(&self, s: &u8, _a: &[usize]) -> Transition<u8, f64> {
        Transition {
            next_state: s + 1,
            events: vec![Some(0.0), Some(0.0)],
            terminal: *s == 1,
        }
    }
    fn chance_node(&self, _: &u8) -> ChanceDist<F> {
        unreachable!()
    }
    fn apply_chance_node(&self, _: &u8, _: usize) -> Transition<u8, f64> {
        unreachable!()
    }
    fn perfect_information(&self) -> bool {
        true
    }
    fn initial_state(&self) -> u8 {
        0
    }
    fn truncation_horizon(&self) -> Option<usize> {
        None
    }
    fn mark_truncation(&self, _: &u8, _: &mut Vec<(usize, f64)>) {}
}

#[test]
fn one_wide_final_ply_cannot_allocate_past_the_bound() {
    let r = attempt(
        &WideFinal,
        &ByteEnc,
        &Pass,
        &adversarial_cfg(2, usize::MAX, ONE),
        vec![(0, 0)],
        false,
        0,
        &|_, _, n| vec![0.0; n * 1100],
    );
    assert_eq!(r.err(), Some(Fault::TreeLimit));
}

#[test]
fn adversarial_search_rejects_simultaneous_decisions() {
    let r = attempt(
        &SimSum { agents: 2 },
        &SimEnc,
        &Pass,
        &adversarial_cfg(2, usize::MAX, ONE),
        vec![(false, 0)],
        false,
        0,
        &|_, _, n| vec![0.0; n * 2],
    );
    assert_eq!(r.err(), Some(Fault::Simultaneous));
}

#[test]
fn a_network_that_answers_too_little_is_a_fault() {
    let r = attempt(
        &Line,
        &LineEnc,
        &Pass,
        &line_cfg(2),
        vec![(0, 0)],
        false,
        0,
        &|_, _, n| vec![0.0; n],
    );
    assert!(r.is_err());
}

#[test]
fn beliefs_are_floored_and_sum_to_one() {
    let p = softmax_floor(&Maths, &nums(&[1.0, 3.0]), F(1.0), F(0.2));
    assert!((p[0].0 + p[1].0 - 1.0).abs() < 1e-12);
    let z = (-2.0f64).exp();
    assert!((p[0].0 - (0.8 * z / (1.0 + z) + 0.1)).abs() < 1e-12);
}

#[test]
fn a_search_keeps_to_its_budget() {
    for budget in [1, 2, 3, 8, 50] {
        let results = search(
            &Line,
            &LineEnc,
            &Pass,
            &line_cfg(budget),
            vec![(0, 0), (5, 0)],
            false,
            0,
            &|_, obs, n| waves(obs, n),
        );
        for (_, _, stats) in &results {
            assert!(stats.rounds <= stats.expansions && stats.expansions <= budget);
            assert!(stats.max_depth <= 4);
        }
        if budget <= 3 {
            assert_eq!(results[0].2.expansions, budget);
        }
    }
}
