#![allow(dead_code)]

use reinfors_core::codec::bytes::{DecodeFault, Reader};
use reinfors_core::encoder::{ActionView, StateEncoder};
use reinfors_core::fault::Fault;
use reinfors_core::game::{Actor, ChanceDist, Game, Rng, Transition};
use reinfors_core::num::Scalar;
use reinfors_core::policies::tree::alphazero::{alphazero_many, AlphaZero, AlphaZeroConfig};
use reinfors_core::policies::tree::evaluation::SearchEvaluation;
use reinfors_core::policies::tree::expectimax::evaluate::Exp;
use reinfors_core::policies::tree::expectimax::tree::SearchStats;
use reinfors_core::policies::tree::mcts::act::{sample_visits, Pow};
use reinfors_core::policies::tree::mcts::grow::Ctx;
use reinfors_core::policies::tree::mcts::policy::{
    mcts_many, search_many, ActBy, Mcts, MctsConfig, NoiseScope, SequentialBackup,
};
use reinfors_core::policies::tree::mcts::pool::{Batch, Resolve, Rules};
use reinfors_core::policies::tree::mcts::read::softmax;
use reinfors_core::policies::tree::mcts::search::PooledSearch;
use reinfors_core::policies::tree::mcts::select::{log_table, select_scored, Guidance, Ln};
use reinfors_core::policies::tree::mcts::tree::{Arm, Table};
use reinfors_core::policy::{ChanceMode, Policy};
use reinfors_core::reward::Reward;
use reinfors_core::rng::{GammaSource, SplitMix64};

#[derive(Clone, Copy, PartialEq, PartialOrd, Debug)]
struct F(f64);

impl Scalar for F {
    fn zero() -> F {
        F(0.0)
    }
    fn one() -> F {
        F(1.0)
    }
    fn lowest() -> F {
        F(f64::NEG_INFINITY)
    }
    fn highest() -> F {
        F(f64::INFINITY)
    }
    fn count(n: u64) -> F {
        F(n as f64)
    }
    fn plus(self, rhs: F) -> F {
        F(self.0 + rhs.0)
    }
    fn minus(self, rhs: F) -> F {
        F(self.0 - rhs.0)
    }
    fn times(self, rhs: F) -> F {
        F(self.0 * rhs.0)
    }
    fn over(self, rhs: F) -> F {
        F(self.0 / rhs.0)
    }
    fn negated(self) -> F {
        F(-self.0)
    }
    fn root(self) -> F {
        F(self.0.sqrt())
    }
    fn less(self, rhs: F) -> bool {
        self.0 < rhs.0
    }
    fn at_most(self, rhs: F) -> bool {
        self.0 <= rhs.0
    }
    fn same(self, rhs: F) -> bool {
        self.0 == rhs.0
    }
    fn larger(self, rhs: F) -> F {
        F(self.0.max(rhs.0))
    }
    fn smaller(self, rhs: F) -> F {
        F(self.0.min(rhs.0))
    }
    fn is_finite(self) -> bool {
        self.0.is_finite()
    }
    fn is_number(self) -> bool {
        !self.0.is_nan()
    }
    fn index(self) -> usize {
        self.0 as usize
    }
    fn bits(self) -> u64 {
        self.0.to_bits()
    }
    fn from_bits(bits: u64) -> F {
        F(f64::from_bits(bits))
    }
}

fn nums(xs: &[f64]) -> Vec<F> {
    xs.iter().map(|&x| F(x)).collect()
}

fn plain(xs: &[F]) -> Vec<f64> {
    xs.iter().map(|x| x.0).collect()
}

struct Maths;
impl Exp<F> for Maths {
    fn exp(&self, x: F) -> F {
        F(x.0.exp())
    }
}
impl Ln<F> for Maths {
    fn ln(&self, x: F) -> F {
        F(x.0.ln())
    }
}
impl Pow<F> for Maths {
    fn pow(&self, x: F, y: F) -> F {
        F(x.0.powf(y.0))
    }
}

fn unit(rng: &mut SplitMix64) -> f64 {
    let u: F = Rng::<F>::unit(rng);
    u.0
}

fn normal(rng: &mut SplitMix64) -> f64 {
    let u1 = unit(rng).max(f64::MIN_POSITIVE);
    let u2 = unit(rng);
    (-2.0 * u1.ln()).sqrt() * (std::f64::consts::TAU * u2).cos()
}

fn gamma_sample(rng: &mut SplitMix64, alpha: f64) -> f64 {
    if alpha < 1.0 {
        let u = unit(rng).max(f64::MIN_POSITIVE);
        return gamma_sample(rng, alpha + 1.0) * u.powf(1.0 / alpha);
    }
    let d = alpha - 1.0 / 3.0;
    let c = 1.0 / (9.0 * d).sqrt();
    loop {
        let x = normal(rng);
        let v = (1.0 + c * x).powi(3);
        if v <= 0.0 {
            continue;
        }
        let u = unit(rng).max(f64::MIN_POSITIVE);
        if u < 1.0 - 0.0331 * x.powi(4) || u.ln() < 0.5 * x * x + d * (1.0 - v + v.ln()) {
            return d * v;
        }
    }
}

impl GammaSource<F, SplitMix64> for Maths {
    fn gamma(&self, rng: SplitMix64, alpha: F) -> (F, SplitMix64) {
        let mut rng = rng;
        let x = gamma_sample(&mut rng, alpha.0);
        (F(x), rng)
    }
}

/// Network rows for staged observations.
struct Net<'a> {
    f: &'a dyn Fn(&[f32], usize) -> Vec<f64>,
    obs: Vec<f32>,
    n: usize,
}

impl<'a> Net<'a> {
    fn new(f: &'a dyn Fn(&[f32], usize) -> Vec<f64>) -> Net<'a> {
        Net {
            f,
            obs: Vec::new(),
            n: 0,
        }
    }
}

impl<'a> Batch<f32, F> for Net<'a> {
    fn is_empty(&self) -> bool {
        self.n == 0
    }
    fn resolve_or_stage(self, _player: usize, obs: &[f32]) -> (Self, Resolve<F>) {
        let mut b = self;
        b.obs.extend_from_slice(obs);
        let ticket = b.n;
        b.n += 1;
        (b, Resolve::Staged(ticket))
    }
    fn commit(self) -> (Self, Vec<Vec<F>>) {
        let mut rows = Vec::new();
        if self.n > 0 {
            let flat = (self.f)(&self.obs, self.n);
            let w = flat.len() / self.n;
            for i in 0..self.n {
                rows.push(nums(&flat[i * w..(i + 1) * w]));
            }
        }
        (Net::new(self.f), rows)
    }
}

/// The inverse of an odd number modulo two to the sixty-fourth.
fn inverse(x: u64) -> u64 {
    let mut y: u64 = x;
    for _ in 0..6 {
        y = y.wrapping_mul(2u64.wrapping_sub(x.wrapping_mul(y)));
    }
    y
}

/// A generator whose next unit draw is `u`.
fn drawing(u: f64) -> SplitMix64 {
    let mut z = ((u * (1u64 << 53) as f64) as u64) << 11;
    z = z ^ (z >> 31) ^ (z >> 62);
    z = z.wrapping_mul(inverse(0x94D0_49BB_1331_11EB));
    z = z ^ (z >> 27) ^ (z >> 54);
    z = z.wrapping_mul(inverse(0xBF58_476D_1CE4_E5B9));
    z = z ^ (z >> 30) ^ (z >> 60);
    SplitMix64::from_state(z.wrapping_sub(0x9E37_79B9_7F4A_7C15))
}

#[test]
fn a_drawing_generator_draws_what_it_should() {
    for u in [0.1, 0.5, 0.9, 0.999] {
        assert!((unit(&mut drawing(u)) - u).abs() < 1e-12);
    }
}

fn eval(values: &[f64], visits: &[f64]) -> SearchEvaluation<F> {
    SearchEvaluation {
        values: vec![nums(values)],
        visits: nums(visits),
        legal: (0..2).collect(),
        stats: SearchStats {
            max_depth: 1,
            expansions: 1,
            leaves: 1,
            rounds: 1,
            sigma_sum: F(0.0),
            ..SearchStats::default()
        },
    }
}

fn mcts(temperature: f64, temperature_drop: u32, act_by: ActBy) -> Mcts<F, Maths> {
    Mcts::new(
        MctsConfig {
            num_simulations: 8,
            uct_c: F(1.4),
            gamma: F(1.0),
            max_depth: 8,
            temperature: F(temperature),
            temperature_drop,
            chance: ChanceMode::AlwaysResample,
        },
        act_by,
        Maths,
    )
}

#[test]
fn mcts_sample_visits_is_proportional_at_temperature_one() {
    let visits = nums(&[1.0, 3.0, 0.0]);
    assert_eq!(sample_visits(&Maths, &visits, F(1.0), &mut drawing(0.1)), 0);
    assert_eq!(sample_visits(&Maths, &visits, F(1.0), &mut drawing(0.9)), 1);
}

#[test]
fn mcts_sample_visits_never_picks_unvisited() {
    for u in [0.0, 0.5, 0.999] {
        assert_eq!(
            sample_visits(&Maths, &nums(&[0.0, 5.0, 0.0]), F(1.0), &mut drawing(u)),
            1
        );
    }
}

#[test]
fn mcts_low_temperature_approaches_greedy() {
    assert_eq!(
        sample_visits(&Maths, &nums(&[1.0, 3.0]), F(0.05), &mut drawing(0.5)),
        1
    );
}

#[test]
fn value_acting_never_picks_an_illegal_densified_zero() {
    let p = mcts(0.0, u32::MAX, ActBy::Value);
    let mut e = eval(&[0.0, -0.5], &[0.0, 6.0]);
    e.legal = vec![1];
    let mut moves = 0u32;
    assert_eq!(p.select(&e, &mut moves, &mut SplitMix64::new(0)), Ok(1));
}

#[test]
fn mcts_zero_temperature_acts_greedily_and_ignores_rng() {
    let p = mcts(0.0, u32::MAX, ActBy::Visits);
    let e = eval(&[0.9, 0.1], &[2.0, 6.0]);
    let mut moves = 0u32;
    let mut rng = SplitMix64::new(3);
    assert_eq!(p.select(&e, &mut moves, &mut rng), Ok(1));
    assert_eq!(moves, 1);
    assert_eq!(rng.state(), 3, "nothing was drawn");
}

#[test]
fn mcts_temperature_drop_switches_to_greedy() {
    let p = mcts(1.0, 1, ActBy::Visits);
    let e = eval(&[0.9, 0.1], &[6.0, 2.0]);
    let mut moves = 0u32;
    assert_eq!(p.select(&e, &mut moves, &mut drawing(0.99)), Ok(1));
    assert_eq!(p.select(&e, &mut moves, &mut SplitMix64::new(0)), Ok(0));
}

#[test]
fn mcts_softmax_is_a_distribution_and_orders_by_logit() {
    let p = softmax(&Maths, &nums(&[1.0, 3.0, 2.0]));
    assert!((p.iter().map(|x| x.0).sum::<f64>() - 1.0).abs() < 1e-12);
    assert!(p[1].0 > p[2].0 && p[2].0 > p[0].0);
    let u = softmax(&Maths, &nums(&[5.0, 5.0]));
    assert!((u[0].0 - 0.5).abs() < 1e-12);
}

fn puct_table(prior: &[f64], visits: &[u32], value_sum: &[f64]) -> Table<F> {
    Table {
        agent: 0,
        arms: (0..prior.len())
            .map(|a| Arm {
                action: a,
                visits: visits[a],
                value_sum: F(value_sum[a]),
                prior: F(prior[a]),
            })
            .collect(),
        total_visits: visits.iter().sum(),
        evaluated: true,
    }
}

fn puct_pick(t: &Table<F>, c: f64) -> usize {
    select_scored(
        t,
        &Guidance::Puct {
            c: F(c),
            noise: None,
            noise_all: false,
        },
        F(0.0),
    )
}

#[test]
fn mcts_puct_first_selection_is_prior_ordered() {
    let t = puct_table(&[0.2, 0.5, 0.3], &[0, 0, 0], &[0.0; 3]);
    assert_eq!(puct_pick(&t, 1.5), 1);
}

#[test]
fn mcts_puct_high_visits_shrink_the_exploration_term() {
    let t = puct_table(&[0.3, 0.7], &[1, 99], &[0.1, 9.9]);
    assert_eq!(puct_pick(&t, 2.0), 0);
}

#[test]
fn mcts_puct_exploits_value_at_equal_priors() {
    let t = puct_table(&[0.5, 0.5], &[10, 10], &[9.0, 1.0]);
    assert_eq!(puct_pick(&t, 0.1), 0);
}

#[test]
fn uct_takes_an_unvisited_arm_first_and_balances_after() {
    let t = puct_table(&[0.0, 0.0], &[3, 0], &[3.0, 0.0]);
    let g = Guidance::Uct { c: F(1.0) };
    assert_eq!(select_scored(&t, &g, F(3.0f64.ln())), 1);
    let t = puct_table(&[0.0, 0.0], &[100, 1], &[60.0, 0.5]);
    assert_eq!(select_scored(&t, &g, F(101.0f64.ln())), 1);
    let t = puct_table(&[0.0, 0.0], &[2, 2], &[2.0, 0.0]);
    assert_eq!(select_scored(&t, &g, F(4.0f64.ln())), 0);
}

fn az_cfg(sims: usize, c: f64, eps: f64, scope: NoiseScope, depth: i32) -> AlphaZeroConfig<F> {
    AlphaZeroConfig {
        num_simulations: sims,
        c_puct: F(c),
        gamma: F(1.0),
        max_depth: depth,
        noise_epsilon: F(eps),
        noise_alpha: F(0.3),
        temperature: F(0.0),
        temperature_drop: u32::MAX,
        chance: ChanceMode::AlwaysResample,
        noise_scope: scope,
        sequential_backup: SequentialBackup::Auto,
    }
}

fn uct_cfg(sims: usize, c: f64, gamma: f64, depth: i32, chance: ChanceMode) -> MctsConfig<F> {
    MctsConfig {
        num_simulations: sims,
        uct_c: F(c),
        gamma: F(gamma),
        max_depth: depth,
        temperature: F(0.0),
        temperature_drop: u32::MAX,
        chance,
    }
}

fn uct<G, E, W>(
    game: &G,
    enc: &E,
    reward: &W,
    cfg: &MctsConfig<F>,
    requests: Vec<(G::State, usize)>,
    seed: u64,
    f: &dyn Fn(&[f32], usize) -> Vec<f64>,
) -> Vec<SearchEvaluation<F>>
where
    G: Game<F>,
    E: StateEncoder<State = G::State, Feature = f32>,
    W: Reward<F, Event = G::Event>,
{
    let (r, _) = mcts_many(game, enc, reward, cfg, &Maths, requests, seed, Net::new(f));
    r.ok().unwrap()
}

fn az<G, E, W>(
    game: &G,
    enc: &E,
    reward: &W,
    cfg: &AlphaZeroConfig<F>,
    requests: Vec<(G::State, usize)>,
    seed: u64,
    f: &dyn Fn(&[f32], usize) -> Vec<f64>,
) -> Vec<SearchEvaluation<F>>
where
    G: Game<F>,
    E: StateEncoder<State = G::State, Feature = f32>,
    W: Reward<F, Event = G::Event>,
{
    let (r, _) = alphazero_many(game, enc, reward, cfg, &Maths, requests, seed, Net::new(f));
    r.ok().unwrap()
}

struct Passthrough;
impl Reward<F> for Passthrough {
    type Event = f64;
    fn step_reward(&self, event: &f64, _agent: usize) -> F {
        F(*event)
    }
}

struct EvenOnly;
impl Game<F> for EvenOnly {
    type State = i32;
    type Event = f64;
    fn num_agents(&self) -> usize {
        1
    }
    fn action_count(&self) -> usize {
        10
    }
    fn copy_state(&self, s: &i32) -> i32 {
        *s
    }
    fn actor(&self, _s: &i32) -> Actor {
        Actor::Agent(0)
    }
    fn legal_actions(&self, _s: &i32, _agent: usize) -> Vec<usize> {
        (0..10).filter(|a| a % 2 == 0).collect()
    }
    fn step(&self, s: &i32, actions: &[usize]) -> Transition<i32, f64> {
        let a = actions[0] as i32;
        assert!(a % 2 == 0, "search stepped an illegal (odd) action: {a}");
        let total = s + a;
        Transition {
            next_state: total,
            events: vec![Some(if total >= 8 { 1.0 } else { 0.0 })],
            terminal: total >= 8,
        }
    }
    fn chance_node(&self, _: &i32) -> ChanceDist<F> {
        unreachable!()
    }
    fn apply_chance_node(&self, _: &i32, _: usize) -> Transition<i32, f64> {
        unreachable!()
    }
    fn perfect_information(&self) -> bool {
        true
    }
    fn initial_state(&self) -> i32 {
        0
    }
    fn truncation_horizon(&self) -> Option<usize> {
        None
    }
    fn mark_truncation(&self, _: &i32, _: &mut Vec<(usize, f64)>) {}
}

struct IntEnc;
impl ActionView for IntEnc {
    fn head_index(&self, action: usize, _: usize) -> usize {
        action
    }
    fn game_action(&self, head: usize, _: usize) -> usize {
        head
    }
}
impl StateEncoder for IntEnc {
    type State = i32;
    type Feature = f32;
    fn encode(&self, s: &i32, _agent: usize) -> Vec<f32> {
        vec![*s as f32]
    }
    fn obs_shape(&self) -> (usize, usize, usize) {
        (1, 1, 1)
    }
}

#[test]
fn mcts_uct_visits_only_legal_actions() {
    let cfg = uct_cfg(40, 1.4, 1.0, 8, ChanceMode::AlwaysResample);
    let evals = uct(&EvenOnly, &IntEnc, &Passthrough, &cfg, vec![(0, 0)], 7, &|_, n| {
        vec![0.0; n * 10]
    });
    let eval = &evals[0];
    for a in (1..10).step_by(2) {
        assert_eq!(eval.visits[a], F(0.0), "illegal action {a} was visited");
        assert_eq!(eval.values[0][a], F(0.0));
    }
    assert!(eval.visits.iter().map(|x| x.0).sum::<f64>() > 0.0);
    let best = (0..10).max_by(|&x, &y| eval.visits[x].partial_cmp(&eval.visits[y]).unwrap());
    assert_eq!(best.unwrap() % 2, 0);
}

#[test]
fn a_uct_roots_visits_add_up_to_its_simulations() {
    for sims in [1, 7, 40] {
        let cfg = uct_cfg(sims, 1.4, 1.0, 8, ChanceMode::AlwaysResample);
        let evals = uct(
            &EvenOnly,
            &IntEnc,
            &Passthrough,
            &cfg,
            vec![(0, 0), (1, 0)],
            7,
            &|_, n| vec![0.0; n * 10],
        );
        for eval in &evals {
            let total: f64 = eval.visits.iter().map(|x| x.0).sum();
            assert_eq!(total, sims as f64);
        }
    }
}

#[test]
fn mcts_puct_visits_and_noise_stay_legal() {
    let cfg = az_cfg(40, 1.5, 0.9, NoiseScope::Requester, 8);
    let evals = az(&EvenOnly, &IntEnc, &Passthrough, &cfg, vec![(0, 0)], 7, &|_, n| {
        vec![0.0; n * 11]
    });
    let eval = &evals[0];
    for a in (1..10).step_by(2) {
        assert_eq!(
            eval.visits[a],
            F(0.0),
            "illegal action {a} was visited under noise"
        );
    }
    assert!((eval.visits.iter().map(|x| x.0).sum::<f64>() - 39.0).abs() < 1e-9);
}

#[derive(Clone)]
struct RiskySt {
    total: i32,
    ply: u8,
}
struct RiskyGame;
impl Game<F> for RiskyGame {
    type State = RiskySt;
    type Event = f64;
    fn num_agents(&self) -> usize {
        1
    }
    fn action_count(&self) -> usize {
        2
    }
    fn copy_state(&self, s: &RiskySt) -> RiskySt {
        s.clone()
    }
    fn actor(&self, s: &RiskySt) -> Actor {
        if s.ply == 2 {
            Actor::Chance
        } else {
            Actor::Agent(0)
        }
    }
    fn legal_actions(&self, s: &RiskySt, _agent: usize) -> Vec<usize> {
        if s.ply == 2 {
            Vec::new()
        } else {
            vec![0, 1]
        }
    }
    fn step(&self, s: &RiskySt, actions: &[usize]) -> Transition<RiskySt, f64> {
        if s.ply == 0 {
            let (total, ply) = if actions[0] == 0 {
                (s.total + 1, 1)
            } else {
                (s.total, 2)
            };
            Transition {
                next_state: RiskySt { total, ply },
                events: vec![Some(0.0)],
                terminal: false,
            }
        } else {
            Transition {
                next_state: s.clone(),
                events: vec![Some(f64::from(s.total))],
                terminal: true,
            }
        }
    }
    fn chance_node(&self, _s: &RiskySt) -> ChanceDist<F> {
        ChanceDist::Weighted(nums(&[0.5, 0.5]))
    }
    fn apply_chance_node(&self, s: &RiskySt, outcome: usize) -> Transition<RiskySt, f64> {
        Transition {
            next_state: RiskySt {
                total: s.total + if outcome == 0 { 0 } else { 3 },
                ply: 1,
            },
            events: vec![None],
            terminal: false,
        }
    }
    fn perfect_information(&self) -> bool {
        true
    }
    fn initial_state(&self) -> RiskySt {
        RiskySt { total: 0, ply: 0 }
    }
    fn truncation_horizon(&self) -> Option<usize> {
        None
    }
    fn mark_truncation(&self, _: &RiskySt, _: &mut Vec<(usize, f64)>) {}
}

struct RiskyEnc;
impl ActionView for RiskyEnc {
    fn head_index(&self, action: usize, _: usize) -> usize {
        action
    }
    fn game_action(&self, head: usize, _: usize) -> usize {
        head
    }
}
impl StateEncoder for RiskyEnc {
    type State = RiskySt;
    type Feature = f32;
    fn encode(&self, s: &RiskySt, _agent: usize) -> Vec<f32> {
        vec![s.total as f32, f32::from(s.ply)]
    }
    fn obs_shape(&self) -> (usize, usize, usize) {
        (1, 1, 2)
    }
}

fn root() -> Vec<(RiskySt, usize)> {
    vec![(RiskySt { total: 0, ply: 0 }, 0)]
}

fn run_uct(sims: usize, chance: ChanceMode, seed: u64) -> SearchEvaluation<F> {
    let cfg = uct_cfg(sims, 3.0, 1.0, 8, chance);
    uct(&RiskyGame, &RiskyEnc, &Passthrough, &cfg, root(), seed, &|_, n| {
        vec![0.0; n * 2]
    })
    .remove(0)
}

#[test]
fn mcts_always_resample_converges_to_the_expectation() {
    let eval = run_uct(600, ChanceMode::AlwaysResample, 7);
    assert!(
        (eval.values[0][1].0 - 1.5).abs() < 0.25,
        "Q(risky) should approach E = 1.5, got {}",
        eval.values[0][1].0
    );
    assert!((eval.values[0][0].0 - 1.0).abs() < 0.25);
    assert!(
        eval.visits[1].0 > eval.visits[0].0,
        "risky (E=1.5) must out-visit safe (1)"
    );
}

#[test]
fn mcts_committed_one_freezes_a_single_world() {
    let (mut saw_low, mut saw_high) = (false, false);
    for seed in 0..12 {
        let q = run_uct(200, ChanceMode::Committed { samples: 1 }, seed).values[0][1].0;
        assert!(
            q.abs() < 0.25 || (q - 3.0).abs() < 0.25,
            "Committed{{1}} must condition on one world (Q ~0 or ~3), got {q}"
        );
        saw_low |= q < 1.5;
        saw_high |= q > 1.5;
    }
    assert!(
        saw_low && saw_high,
        "both worlds should be drawn across seeds"
    );
}

#[test]
fn mcts_committed_two_averages_its_frozen_draws() {
    for seed in 0..8 {
        let q = run_uct(400, ChanceMode::Committed { samples: 2 }, seed).values[0][1].0;
        let near = [0.0, 1.5, 3.0].iter().any(|m| (q - m).abs() < 0.25);
        assert!(
            near,
            "Committed{{2}} Q should sit near a frozen-pair mean, got {q}"
        );
    }
}

#[test]
fn mcts_chance_search_is_deterministic_per_seed() {
    for chance in [
        ChanceMode::AlwaysResample,
        ChanceMode::Committed { samples: 2 },
        ChanceMode::ExpandAll,
    ] {
        let a = run_uct(100, chance, 42);
        let b = run_uct(100, chance, 42);
        assert_eq!(a.values, b.values);
        assert_eq!(a.visits, b.visits);
    }
}

#[test]
fn mcts_expand_all_seeds_the_exact_expectation_immediately() {
    let cfg = uct_cfg(2, 3.0, 1.0, 8, ChanceMode::ExpandAll);
    let out = uct(&RiskyGame, &RiskyEnc, &Passthrough, &cfg, root(), 3, &|obs, n| {
        (0..n).flat_map(|i| [f64::from(obs[i * 2]); 2]).collect()
    })
    .remove(0);
    assert_eq!(
        out.values[0][1],
        F(1.5),
        "fan backup must be the exact weighted expectation"
    );
    assert_eq!(out.stats.extra_eval_rows, 1);
    let s = &out.stats;
    assert_eq!(
        2,
        s.fresh_rows + s.hit_rows + s.shared_rows + s.terminal_sims + s.depthcap_sims
            - s.extra_eval_rows
    );
}

#[test]
fn mcts_puct_searches_chance_games() {
    let cfg = az_cfg(300, 2.0, 0.0, NoiseScope::Requester, 8);
    let out = az(&RiskyGame, &RiskyEnc, &Passthrough, &cfg, root(), 11, &|_, n| {
        vec![0.0; n * 3]
    })
    .remove(0);
    assert!(
        out.visits[1].0 > out.visits[0].0,
        "PUCT should favor the E=1.5 risky action"
    );
}

struct MatrixGame;
impl Game<F> for MatrixGame {
    type State = bool;
    type Event = f64;
    fn num_agents(&self) -> usize {
        2
    }
    fn action_count(&self) -> usize {
        2
    }
    fn copy_state(&self, s: &bool) -> bool {
        *s
    }
    fn actor(&self, _s: &bool) -> Actor {
        Actor::Simultaneous
    }
    fn legal_actions(&self, _s: &bool, _agent: usize) -> Vec<usize> {
        vec![0, 1]
    }
    fn step(&self, _s: &bool, actions: &[usize]) -> Transition<bool, f64> {
        let coord = f64::from(u8::from(actions[0] == actions[1]));
        Transition {
            next_state: true,
            events: vec![Some(coord), Some(f64::from(actions[1] as u8))],
            terminal: true,
        }
    }
    fn chance_node(&self, _: &bool) -> ChanceDist<F> {
        unreachable!()
    }
    fn apply_chance_node(&self, _: &bool, _: usize) -> Transition<bool, f64> {
        unreachable!()
    }
    fn perfect_information(&self) -> bool {
        true
    }
    fn initial_state(&self) -> bool {
        false
    }
    fn truncation_horizon(&self) -> Option<usize> {
        None
    }
    fn mark_truncation(&self, _: &bool, _: &mut Vec<(usize, f64)>) {}
}

struct SeatEnc;
impl ActionView for SeatEnc {
    fn head_index(&self, action: usize, _: usize) -> usize {
        action
    }
    fn game_action(&self, head: usize, _: usize) -> usize {
        head
    }
}
impl StateEncoder for SeatEnc {
    type State = bool;
    type Feature = f32;
    fn encode(&self, s: &bool, agent: usize) -> Vec<f32> {
        vec![f32::from(u8::from(*s)), agent as f32]
    }
    fn obs_shape(&self) -> (usize, usize, usize) {
        (1, 1, 2)
    }
}

#[test]
fn mcts_uct_finds_each_requesters_dominant_action() {
    let cfg = uct_cfg(60, 2.0, 1.0, 8, ChanceMode::AlwaysResample);
    let evals = uct(
        &MatrixGame,
        &SeatEnc,
        &Passthrough,
        &cfg,
        vec![(false, 0), (false, 1)],
        5,
        &|_, n| vec![0.0; n * 2],
    );
    assert_eq!(evals.len(), 2);
    for (seat, e) in evals.iter().enumerate() {
        assert!(
            e.visits[1].0 > e.visits[0].0,
            "seat {seat} should favor action 1 (dominant / coordinate-with-dominant)"
        );
    }
}

#[test]
fn mcts_puct_finds_the_dominant_action_and_is_deterministic() {
    let run = |seed: u64| {
        az(
            &MatrixGame,
            &SeatEnc,
            &Passthrough,
            &az_cfg(60, 2.0, 0.25, NoiseScope::Requester, 8),
            vec![(false, 0)],
            seed,
            &|_, n| vec![0.0; n * 3],
        )
        .remove(0)
    };
    let a = run(3);
    assert!(a.visits[1].0 > a.visits[0].0);
    let b = run(3);
    assert_eq!(a.visits, b.visits, "same seed, same simultaneous search");
    assert_eq!(a.values, b.values);
}

#[test]
fn mcts_noise_scope_changes_only_the_opponent_stream() {
    let run = |eps: f64, scope: NoiseScope| {
        az(
            &MatrixGame,
            &SeatEnc,
            &Passthrough,
            &az_cfg(40, 2.0, eps, scope, 8),
            vec![(false, 0)],
            9,
            &|obs, n| {
                (0..n)
                    .flat_map(|i| [f64::from(obs[i * 2 + 1]), 0.5, 0.0])
                    .collect()
            },
        )
        .remove(0)
    };
    assert_eq!(
        run(0.0, NoiseScope::Requester).visits,
        run(0.0, NoiseScope::All).visits,
        "noise off: scope must be inert"
    );
    assert_ne!(
        run(0.6, NoiseScope::Requester).visits,
        run(0.6, NoiseScope::All).visits,
        "noise on: Both must perturb the opponent's selection stream"
    );
}

#[test]
fn mcts_simultaneous_eval_rows_close_the_identity() {
    let out = az(
        &MatrixGame,
        &SeatEnc,
        &Passthrough,
        &az_cfg(20, 2.0, 0.0, NoiseScope::Requester, 8),
        vec![(false, 0)],
        1,
        &|_, n| vec![0.0; n * 3],
    )
    .remove(0);
    let s = &out.stats;
    assert!(
        s.extra_eval_rows > 0,
        "two-perspective evals must record extra rows"
    );
    assert_eq!(
        20,
        s.fresh_rows + s.hit_rows + s.shared_rows + s.terminal_sims + s.depthcap_sims
            - s.extra_eval_rows
    );
}

struct SwapFor1;
impl ActionView for SwapFor1 {
    fn head_index(&self, action: usize, agent: usize) -> usize {
        if agent == 1 {
            1 - action
        } else {
            action
        }
    }
    fn game_action(&self, head: usize, agent: usize) -> usize {
        if agent == 1 {
            1 - head
        } else {
            head
        }
    }
}
impl StateEncoder for SwapFor1 {
    type State = bool;
    type Feature = f32;
    fn encode(&self, s: &bool, agent: usize) -> Vec<f32> {
        vec![f32::from(u8::from(*s)), agent as f32]
    }
    fn obs_shape(&self) -> (usize, usize, usize) {
        (1, 1, 2)
    }
}

#[test]
fn duct_tables_gather_through_each_agents_own_view() {
    let rows = |obs: &[f32], n: usize, swapped: bool| -> Vec<f64> {
        (0..n)
            .flat_map(|i| {
                let seat = obs[i * 2 + 1] as usize;
                let l = if seat == 0 { [1.2, -0.4] } else { [-0.8, 0.9] };
                let (l0, l1) = if swapped && seat == 1 {
                    (l[1], l[0])
                } else {
                    (l[0], l[1])
                };
                [l0, l1, 0.1]
            })
            .collect()
    };
    let cfg = az_cfg(40, 2.0, 0.0, NoiseScope::Requester, 8);
    let states = || vec![(false, 0), (false, 1)];
    let id = az(&MatrixGame, &SeatEnc, &Passthrough, &cfg, states(), 9, &|o, n| {
        rows(o, n, false)
    });
    let sw = az(&MatrixGame, &SwapFor1, &Passthrough, &cfg, states(), 9, &|o, n| {
        rows(o, n, true)
    });
    for (seat, (a, b)) in id.iter().zip(&sw).enumerate() {
        assert_eq!(a.visits, b.visits, "seat {seat}: per-table view broken");
        assert_eq!(a.values, b.values, "seat {seat}: per-table view broken");
    }
}

struct Sparse;
impl Game<F> for Sparse {
    type State = i32;
    type Event = f64;
    fn num_agents(&self) -> usize {
        1
    }
    fn action_count(&self) -> usize {
        4
    }
    fn copy_state(&self, s: &i32) -> i32 {
        *s
    }
    fn actor(&self, _: &i32) -> Actor {
        Actor::Agent(0)
    }
    fn legal_actions(&self, _: &i32, _: usize) -> Vec<usize> {
        vec![0, 2]
    }
    fn step(&self, s: &i32, actions: &[usize]) -> Transition<i32, f64> {
        let next = s * 3 + actions[0] as i32 + 1;
        Transition {
            next_state: next,
            events: vec![Some(0.0)],
            terminal: next > 40,
        }
    }
    fn chance_node(&self, _: &i32) -> ChanceDist<F> {
        unreachable!()
    }
    fn apply_chance_node(&self, _: &i32, _: usize) -> Transition<i32, f64> {
        unreachable!()
    }
    fn perfect_information(&self) -> bool {
        true
    }
    fn initial_state(&self) -> i32 {
        0
    }
    fn truncation_horizon(&self) -> Option<usize> {
        None
    }
    fn mark_truncation(&self, _: &i32, _: &mut Vec<(usize, f64)>) {}
}

struct ZeroReward;
impl Reward<F> for ZeroReward {
    type Event = f64;
    fn step_reward(&self, _: &f64, _: usize) -> F {
        F(0.0)
    }
}

const A: usize = 4;

struct RotEnc;
impl ActionView for RotEnc {
    fn head_index(&self, action: usize, _: usize) -> usize {
        (action + 1) % A
    }
    fn game_action(&self, head: usize, _: usize) -> usize {
        (head + A - 1) % A
    }
}
impl StateEncoder for RotEnc {
    type State = i32;
    type Feature = f32;
    fn encode(&self, s: &i32, _: usize) -> Vec<f32> {
        vec![*s as f32]
    }
    fn obs_shape(&self) -> (usize, usize, usize) {
        (1, 1, 1)
    }
}

fn v(s: f64, a: usize) -> f64 {
    ((s as i64 * 3 + a as i64 * 7) % 11) as f64 * 0.1
}

fn q_rows(obs: &[f32], n: usize, use_rot: bool) -> Vec<f64> {
    (0..n)
        .flat_map(|i| {
            let s = f64::from(obs[i]);
            (0..A).map(move |slot| {
                let game_a = if use_rot { (slot + A - 1) % A } else { slot };
                v(s, game_a)
            })
        })
        .collect()
}

#[test]
fn uct_leaf_values_gather_through_the_view() {
    let cfg = uct_cfg(30, 1.4, 0.95, 6, ChanceMode::AlwaysResample);
    let id = uct(&Sparse, &IntEnc, &ZeroReward, &cfg, vec![(0, 0)], 3, &|o, n| {
        q_rows(o, n, false)
    })
    .remove(0);
    let rot = uct(&Sparse, &RotEnc, &ZeroReward, &cfg, vec![(0, 0)], 3, &|o, n| {
        q_rows(o, n, true)
    })
    .remove(0);
    assert_eq!(id.visits, rot.visits, "UCT leaf gathers must be frame-true");
    assert_eq!(id.values, rot.values);
}

fn logit_rows(obs: &[f32], n: usize, use_rot: bool) -> Vec<f64> {
    (0..n)
        .flat_map(|i| {
            let s = f64::from(obs[i]);
            let mut row: Vec<f64> = (0..A)
                .map(|slot| {
                    let game_a = if use_rot { (slot + A - 1) % A } else { slot };
                    v(s, game_a) * 4.0
                })
                .collect();
            row.push(0.2);
            row
        })
        .collect()
}

#[test]
fn puct_priors_gather_through_the_view() {
    let cfg = az_cfg(30, 1.5, 0.0, NoiseScope::Requester, 6);
    let id = az(&Sparse, &IntEnc, &ZeroReward, &cfg, vec![(0, 0)], 3, &|o, n| {
        logit_rows(o, n, false)
    })
    .remove(0);
    let rot = az(&Sparse, &RotEnc, &ZeroReward, &cfg, vec![(0, 0)], 3, &|o, n| {
        logit_rows(o, n, true)
    })
    .remove(0);
    assert_eq!(
        id.visits, rot.visits,
        "PUCT prior gathers must be frame-true"
    );
    assert_eq!(id.values, rot.values);
}

#[derive(Clone)]
enum Lr {
    Root,
    AfterL,
    Done,
}

/// With three agents or two: the first may leave the choice to the second, who then takes what pays
/// itself.
struct Discriminator {
    agents: usize,
}
impl Discriminator {
    fn paid(&self, to: &[f64]) -> Vec<Option<f64>> {
        (0..self.agents)
            .map(|i| Some(if i < to.len() { to[i] } else { 0.0 }))
            .collect()
    }
}
impl Game<F> for Discriminator {
    type State = Lr;
    type Event = f64;
    fn num_agents(&self) -> usize {
        self.agents
    }
    fn action_count(&self) -> usize {
        2
    }
    fn copy_state(&self, s: &Lr) -> Lr {
        s.clone()
    }
    fn actor(&self, s: &Lr) -> Actor {
        match s {
            Lr::AfterL => Actor::Agent(1),
            _ => Actor::Agent(0),
        }
    }
    fn legal_actions(&self, s: &Lr, agent: usize) -> Vec<usize> {
        match (s, agent) {
            (Lr::Root, 0) | (Lr::AfterL, 1) => vec![0, 1],
            _ => Vec::new(),
        }
    }
    fn step(&self, s: &Lr, actions: &[usize]) -> Transition<Lr, f64> {
        match s {
            Lr::Root if actions[0] == 0 => Transition {
                next_state: Lr::AfterL,
                events: self.paid(&[]),
                terminal: false,
            },
            Lr::Root => Transition {
                next_state: Lr::Done,
                events: self.paid(&[3.0]),
                terminal: true,
            },
            Lr::AfterL if actions[1] == 0 => Transition {
                next_state: Lr::Done,
                events: self.paid(&[5.0, 10.0]),
                terminal: true,
            },
            Lr::AfterL => Transition {
                next_state: Lr::Done,
                events: self.paid(&[]),
                terminal: true,
            },
            Lr::Done => unreachable!("stepping a terminal state"),
        }
    }
    fn chance_node(&self, _: &Lr) -> ChanceDist<F> {
        unreachable!()
    }
    fn apply_chance_node(&self, _: &Lr, _: usize) -> Transition<Lr, f64> {
        unreachable!()
    }
    fn perfect_information(&self) -> bool {
        true
    }
    fn initial_state(&self) -> Lr {
        Lr::Root
    }
    fn truncation_horizon(&self) -> Option<usize> {
        None
    }
    fn mark_truncation(&self, _: &Lr, _: &mut Vec<(usize, f64)>) {}
}

struct LrEnc;
impl ActionView for LrEnc {
    fn head_index(&self, action: usize, _: usize) -> usize {
        action
    }
    fn game_action(&self, head: usize, _: usize) -> usize {
        head
    }
}
impl StateEncoder for LrEnc {
    type State = Lr;
    type Feature = f32;
    fn encode(&self, s: &Lr, agent: usize) -> Vec<f32> {
        let phase = match s {
            Lr::Root => 0.0,
            Lr::AfterL => 1.0,
            Lr::Done => 2.0,
        };
        vec![phase, agent as f32]
    }
    fn obs_shape(&self) -> (usize, usize, usize) {
        (1, 1, 2)
    }
}

fn lr_cfg(backup: SequentialBackup) -> AlphaZeroConfig<F> {
    let mut cfg = az_cfg(200, 1.5, 0.0, NoiseScope::Requester, 8);
    cfg.temperature_drop = 0;
    cfg.chance = ChanceMode::Committed { samples: 1 };
    cfg.sequential_backup = backup;
    cfg
}

#[test]
fn maxn_models_co_players_as_self_interested() {
    let e = az(
        &Discriminator { agents: 3 },
        &LrEnc,
        &Passthrough,
        &lr_cfg(SequentialBackup::Auto),
        vec![(Lr::Root, 0)],
        0,
        &|_, n| vec![0.0; n * 3],
    )
    .remove(0);
    assert!(
        e.visits[0].0 > e.visits[1].0,
        "Max^N must prefer L (self-interested co-player)"
    );
    assert!(
        (e.values[0][1].0 - 3.0).abs() < 1e-9,
        "R's value is its exact payoff"
    );
    assert!(
        e.values[0][0].0 > 4.0,
        "L's value must converge toward 5 (agent 1 picks a), got {}",
        e.values[0][0].0
    );
}

struct Dominant;
impl Game<F> for Dominant {
    type State = bool;
    type Event = f64;
    fn num_agents(&self) -> usize {
        3
    }
    fn action_count(&self) -> usize {
        2
    }
    fn copy_state(&self, s: &bool) -> bool {
        *s
    }
    fn actor(&self, _s: &bool) -> Actor {
        Actor::Simultaneous
    }
    fn legal_actions(&self, s: &bool, _agent: usize) -> Vec<usize> {
        if *s {
            Vec::new()
        } else {
            vec![0, 1]
        }
    }
    fn step(&self, _s: &bool, actions: &[usize]) -> Transition<bool, f64> {
        Transition {
            next_state: true,
            events: actions.iter().map(|&a| Some(a as f64)).collect(),
            terminal: true,
        }
    }
    fn chance_node(&self, _: &bool) -> ChanceDist<F> {
        unreachable!()
    }
    fn apply_chance_node(&self, _: &bool, _: usize) -> Transition<bool, f64> {
        unreachable!()
    }
    fn perfect_information(&self) -> bool {
        true
    }
    fn initial_state(&self) -> bool {
        false
    }
    fn truncation_horizon(&self) -> Option<usize> {
        None
    }
    fn mark_truncation(&self, _: &bool, _: &mut Vec<(usize, f64)>) {}
}

#[test]
fn duct_three_agents_each_find_their_dominant_action() {
    let mut cfg = uct_cfg(64, 1.0, 1.0, 4, ChanceMode::Committed { samples: 1 });
    cfg.temperature_drop = 0;
    for requester in 0..3 {
        let e = uct(
            &Dominant,
            &SeatEnc,
            &Passthrough,
            &cfg,
            vec![(false, requester)],
            9,
            &|_, n| vec![0.0; n * 2],
        )
        .remove(0);
        assert!(
            e.visits[1].0 > e.visits[0].0,
            "agent {requester} must concentrate on its dominant action"
        );
    }
}

#[test]
fn sequential_backup_maxn_changes_the_two_agent_tree() {
    let run = |backup| {
        az(
            &Discriminator { agents: 2 },
            &LrEnc,
            &Passthrough,
            &lr_cfg(backup),
            vec![(Lr::Root, 0)],
            0,
            &|_, n| vec![0.0; n * 3],
        )
        .remove(0)
    };
    let auto = run(SequentialBackup::Auto);
    assert!(
        auto.visits[1].0 > auto.visits[0].0,
        "negamax (paranoid at general-sum) must prefer R"
    );
    let maxn = run(SequentialBackup::MaxN);
    assert!(
        maxn.visits[0].0 > maxn.visits[1].0,
        "forced Max^N (self-interested opponent) must prefer L"
    );
    assert!(
        (maxn.values[0][1].0 - 3.0).abs() < 1e-9 && maxn.values[0][0].0 > 4.0,
        "Max^N root values converge to the self-interested payoffs"
    );
}

struct SimPair;
impl Game<F> for SimPair {
    type State = usize;
    type Event = ();
    fn num_agents(&self) -> usize {
        2
    }
    fn action_count(&self) -> usize {
        2
    }
    fn copy_state(&self, s: &usize) -> usize {
        *s
    }
    fn actor(&self, _s: &usize) -> Actor {
        Actor::Simultaneous
    }
    fn legal_actions(&self, _s: &usize, _agent: usize) -> Vec<usize> {
        vec![0, 1]
    }
    fn step(&self, s: &usize, _actions: &[usize]) -> Transition<usize, ()> {
        Transition {
            next_state: s + 1,
            events: vec![None; 2],
            terminal: s + 1 >= 4,
        }
    }
    fn chance_node(&self, _: &usize) -> ChanceDist<F> {
        unreachable!()
    }
    fn apply_chance_node(&self, _: &usize, _: usize) -> Transition<usize, ()> {
        unreachable!()
    }
    fn perfect_information(&self) -> bool {
        true
    }
    fn initial_state(&self) -> usize {
        0
    }
    fn truncation_horizon(&self) -> Option<usize> {
        None
    }
    fn mark_truncation(&self, _: &usize, _: &mut Vec<(usize, ())>) {}
}

struct PairEnc;
impl ActionView for PairEnc {
    fn head_index(&self, action: usize, _: usize) -> usize {
        action
    }
    fn game_action(&self, head: usize, _: usize) -> usize {
        head
    }
}
impl StateEncoder for PairEnc {
    type State = usize;
    type Feature = f32;
    fn encode(&self, s: &usize, agent: usize) -> Vec<f32> {
        vec![*s as f32, agent as f32]
    }
    fn obs_shape(&self) -> (usize, usize, usize) {
        (1, 1, 2)
    }
}

struct Unpaid;
impl Reward<F> for Unpaid {
    type Event = ();
    fn step_reward(&self, _e: &(), _agent: usize) -> F {
        F(0.0)
    }
}

fn quarter(obs: &[f32], n: usize) -> Vec<f64> {
    assert_eq!(obs.len(), n * 2);
    vec![0.25; n * 2]
}

type PairPool<'c> = PooledSearch<'c, F, SimPair, PairEnc, Unpaid, Maths, Maths>;

fn new_pool<'c>(logs: &'c [F], sims: usize) -> PairPool<'c> {
    PooledSearch::new(
        Rules {
            ctx: Ctx {
                game: &SimPair,
                enc: &PairEnc,
                reward: &Unpaid,
                guidance: Guidance::Uct { c: F(1.0) },
                logs,
                chance: ChanceMode::AlwaysResample,
                gamma: F(1.0),
                max_depth: 64,
            },
            exp: &Maths,
            gammas: &Maths,
            actions: 2,
            num_simulations: sims,
        },
        7,
        vec![(0, 0)],
        false,
    )
    .ok()
    .unwrap()
}

#[test]
fn final_round_is_outstanding_until_applied() {
    let logs = log_table(&Maths, 1);
    let mut p = new_pool(&logs, 1);
    let (r, batch) = p.stage_round(Net::new(&quarter));
    assert!(r.is_ok());
    assert!(!p.finished());
    let (_, rows) = batch.commit();
    assert_eq!(p.apply_rows(&rows), Ok(()));
    assert!(p.finished());
    let evals = p.into_evaluations().ok().unwrap();
    assert_eq!(evals.len(), 1);
}

#[test]
fn double_stage_panics() {
    let logs = log_table(&Maths, 2);
    let mut p = new_pool(&logs, 2);
    let (r, _) = p.stage_round(Net::new(&quarter));
    assert!(r.is_ok());
    let (r, _) = p.stage_round(Net::new(&quarter));
    assert_eq!(r, Err(Fault::RoundOrder));
}

#[test]
fn apply_without_stage_panics() {
    let logs = log_table(&Maths, 1);
    let (_, empty) = Net::new(&quarter).commit();
    let mut p = new_pool(&logs, 1);
    assert_eq!(p.apply_rows(&empty), Err(Fault::RoundOrder));
}

#[test]
fn into_evaluations_while_awaiting_panics() {
    let logs = log_table(&Maths, 1);
    let mut p = new_pool(&logs, 1);
    let (r, _) = p.stage_round(Net::new(&quarter));
    assert!(r.is_ok());
    assert_eq!(p.into_evaluations().err(), Some(Fault::RoundOrder));
}

#[test]
fn nonempty_batch_panics() {
    let logs = log_table(&Maths, 1);
    let mut p = new_pool(&logs, 1);
    let (batch, _) = Net::new(&quarter).resolve_or_stage(0, &[9.0, 9.0]);
    let (r, _) = p.stage_round(batch);
    assert_eq!(r, Err(Fault::BatchInUse));
}

#[test]
fn missing_rows_are_a_fault() {
    let logs = log_table(&Maths, 1);
    let mut p = new_pool(&logs, 1);
    let (r, _) = p.stage_round(Net::new(&quarter));
    assert!(r.is_ok());
    assert_eq!(p.apply_rows(&Vec::new()), Err(Fault::RowCount));
}

#[test]
fn alternated_pools_match_search_many() {
    let sims = 6;
    let (reference, _) = search_many(
        &SimPair,
        &PairEnc,
        &Unpaid,
        sims,
        F(1.0),
        64,
        Guidance::Uct { c: F(1.0) },
        ChanceMode::AlwaysResample,
        &Maths,
        7,
        vec![(0, 0)],
        Net::new(&quarter),
        false,
    );
    let reference = reference.ok().unwrap();
    let logs = log_table(&Maths, sims);
    let mut a = new_pool(&logs, sims);
    let mut b = new_pool(&logs, sims);
    while !a.finished() || !b.finished() {
        for p in [&mut a, &mut b] {
            if p.finished() {
                continue;
            }
            let (r, batch) = p.stage_round(Net::new(&quarter));
            assert!(r.is_ok());
            let (_, rows) = batch.commit();
            assert_eq!(p.apply_rows(&rows), Ok(()));
        }
    }
    for evals in [a.into_evaluations(), b.into_evaluations()] {
        let evals = evals.ok().unwrap();
        assert_eq!(evals.len(), 1);
        assert_eq!(evals[0].visits, reference[0].visits);
        assert_eq!(evals[0].values, reference[0].values);
    }
}

#[test]
fn pooling_changes_no_search() {
    let cfg = az_cfg(25, 2.0, 0.3, NoiseScope::Requester, 8);
    let net = |o: &[f32], n: usize| -> Vec<f64> {
        (0..n).flat_map(|i| [f64::from(o[i * 2 + 1]), 0.3, 0.1]).collect()
    };
    let solo = az(&MatrixGame, &SeatEnc, &Passthrough, &cfg, vec![(false, 0)], 4, &net);
    let pooled = az(
        &MatrixGame,
        &SeatEnc,
        &Passthrough,
        &cfg,
        vec![(false, 0), (false, 1), (false, 0)],
        4,
        &net,
    );
    assert_eq!(pooled.len(), 3);
    assert_eq!(pooled[0].visits, solo[0].visits);
    assert_eq!(pooled[0].values, solo[0].values);
}

#[test]
fn unsupported_compositions_are_refused() {
    let (r, _) = mcts_many(
        &Discriminator { agents: 3 },
        &LrEnc,
        &Passthrough,
        &uct_cfg(4, 1.0, 1.0, 4, ChanceMode::AlwaysResample),
        &Maths,
        vec![(Lr::Root, 0)],
        0,
        Net::new(&|_, n| vec![0.0; n * 2]),
    );
    assert_eq!(r.err(), Some(Fault::UctAgents));
    let (r, _) = mcts_many(
        &RiskyGame,
        &RiskyEnc,
        &Passthrough,
        &uct_cfg(4, 1.0, 1.0, 4, ChanceMode::AlwaysResample),
        &Maths,
        vec![(RiskySt { total: 0, ply: 2 }, 0)],
        0,
        Net::new(&|_, n| vec![0.0; n * 2]),
    );
    assert_eq!(r.err(), Some(Fault::ChanceRoot));
}

#[test]
fn a_short_row_is_a_fault() {
    let (r, _) = alphazero_many(
        &MatrixGame,
        &SeatEnc,
        &Passthrough,
        &az_cfg(4, 1.0, 0.0, NoiseScope::Requester, 4),
        &Maths,
        vec![(false, 0)],
        0,
        Net::new(&|_, n| vec![0.0; n]),
    );
    assert_eq!(r.err(), Some(Fault::RowWidth));
}

#[test]
fn tree_policies_store_and_read_evaluations() {
    let policy = mcts(0.0, 0, ActBy::Visits);
    let e = eval(&[0.9, 0.1], &[6.0, 2.0]);
    let mut buf = Vec::new();
    policy.encode_eval(&e, &mut buf);
    let back = policy.decode_eval(&mut Reader::new(&buf), 2).ok().unwrap();
    assert_eq!(back.values, e.values);
    assert_eq!(back.visits, e.visits);
    assert_eq!(back.legal, e.legal);
    assert_eq!(back.stats.rounds, 1);
    assert_eq!(
        policy.decode_eval(&mut Reader::new(&buf), 3).err(),
        Some(DecodeFault::RowWidth)
    );
    assert_eq!(policy.policy_state_to_u64(5), 5);
    assert_eq!(policy.policy_state_from_u64(5), Ok(5));
    assert_eq!(
        policy.policy_state_from_u64(u64::MAX),
        Err(DecodeFault::PolicyState)
    );
    let az = AlphaZero::new(az_cfg(4, 1.0, 0.0, NoiseScope::Requester, 4), Maths);
    assert!(az.evaluates_all_perspectives(true, 3));
    assert!(!az.evaluates_all_perspectives(true, 2));
    assert_eq!(policy.max_agents(true), Some(2));
    assert_eq!(policy.max_agents(false), None);
}
