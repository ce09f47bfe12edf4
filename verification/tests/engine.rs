#![allow(dead_code)]

use reinfors_core::codec::bytes::{
    put_blob, put_i64, put_nums, put_sizes, put_u32, put_u64, put_u8, put_words, sizes, words,
    DecodeFault, Reader, Word,
};
use reinfors_core::codec::StateCodec;
use reinfors_core::encoder::{ActionView, StateEncoder};
use reinfors_core::engine::run::{Engine, EngineParams};
use reinfors_core::fault::Fault;
use reinfors_core::game::{Actor, ChanceDist, Game, Rng, Transition};
use reinfors_core::learners::alphazero::AlphaZeroLearner;
use reinfors_core::learners::dqn::{Dqn, DqnRecord};
use reinfors_core::learners::ppo::Ppo;
use reinfors_core::learners::treestrap::TreeStrap;
use reinfors_core::num::Scalar;
use reinfors_core::policies::modelfree::epsilon_greedy_q::EpsilonGreedyQ;
use reinfors_core::policies::modelfree::ppo::PpoActor;
use reinfors_core::policies::tree::alphazero::{AlphaZero, AlphaZeroConfig};
use reinfors_core::policies::tree::expectimax::evaluate::Exp;
use reinfors_core::policies::tree::expectimax::policy::SelectiveExpectimax;
use reinfors_core::policies::tree::expectimax::search::Infer;
use reinfors_core::policies::tree::expectimax::tree::{Opponent, SearchConfig};
use reinfors_core::policies::tree::mcts::act::Pow;
use reinfors_core::policies::tree::mcts::policy::{NoiseScope, SequentialBackup};
use reinfors_core::policies::tree::mcts::pool::{Batch, Resolve};
use reinfors_core::policies::tree::mcts::select::Ln;
use reinfors_core::policy::ChanceMode;
use reinfors_core::reward::Reward;
use reinfors_core::rng::{GammaSource, SplitMix64};
use reinfors_core::start::{Start, StartDistribution, StoredStart};

#[derive(Clone, Copy, PartialEq, PartialOrd, Debug)]
struct F(f64);

impl Scalar for F {
    fn zero() -> F {
        F(0.0)
    }
    fn one() -> F {
        F(1.0)
    }
    fn lowest() -> F {
        F(f64::NEG_INFINITY)
    }
    fn highest() -> F {
        F(f64::INFINITY)
    }
    fn count(n: u64) -> F {
        F(n as f64)
    }
    fn plus(self, rhs: F) -> F {
        F(self.0 + rhs.0)
    }
    fn minus(self, rhs: F) -> F {
        F(self.0 - rhs.0)
    }
    fn times(self, rhs: F) -> F {
        F(self.0 * rhs.0)
    }
    fn over(self, rhs: F) -> F {
        F(self.0 / rhs.0)
    }
    fn negated(self) -> F {
        F(-self.0)
    }
    fn root(self) -> F {
        F(self.0.sqrt())
    }
    fn less(self, rhs: F) -> bool {
        self.0 < rhs.0
    }
    fn at_most(self, rhs: F) -> bool {
        self.0 <= rhs.0
    }
    fn same(self, rhs: F) -> bool {
        self.0 == rhs.0
    }
    fn larger(self, rhs: F) -> F {
        F(self.0.max(rhs.0))
    }
    fn smaller(self, rhs: F) -> F {
        F(self.0.min(rhs.0))
    }
    fn is_finite(self) -> bool {
        self.0.is_finite()
    }
    fn is_number(self) -> bool {
        !self.0.is_nan()
    }
    fn index(self) -> usize {
        self.0 as usize
    }
    fn bits(self) -> u64 {
        self.0.to_bits()
    }
    fn from_bits(bits: u64) -> F {
        F(f64::from_bits(bits))
    }
}

fn nums(xs: &[f64]) -> Vec<F> {
    xs.iter().map(|&x| F(x)).collect()
}

fn plain(xs: &[F]) -> Vec<f64> {
    xs.iter().map(|x| x.0).collect()
}

struct Maths;
impl Exp<F> for Maths {
    fn exp(&self, x: F) -> F {
        F(x.0.exp())
    }
}
impl Ln<F> for Maths {
    fn ln(&self, x: F) -> F {
        F(x.0.ln())
    }
}
impl Pow<F> for Maths {
    fn pow(&self, x: F, y: F) -> F {
        F(x.0.powf(y.0))
    }
}

fn unit(rng: &mut SplitMix64) -> f64 {
    let u: F = Rng::<F>::unit(rng);
    u.0
}

fn normal(rng: &mut SplitMix64) -> f64 {
    let u1 = unit(rng).max(f64::MIN_POSITIVE);
    let u2 = unit(rng);
    (-2.0 * u1.ln()).sqrt() * (std::f64::consts::TAU * u2).cos()
}

fn gamma_sample(rng: &mut SplitMix64, alpha: f64) -> f64 {
    if alpha < 1.0 {
        let u = unit(rng).max(f64::MIN_POSITIVE);
        return gamma_sample(rng, alpha + 1.0) * u.powf(1.0 / alpha);
    }
    let d = alpha - 1.0 / 3.0;
    let c = 1.0 / (9.0 * d).sqrt();
    loop {
        let x = normal(rng);
        let v = (1.0 + c * x).powi(3);
        if v <= 0.0 {
            continue;
        }
        let u = unit(rng).max(f64::MIN_POSITIVE);
        if u < 1.0 - 0.0331 * x.powi(4) || u.ln() < 0.5 * x * x + d * (1.0 - v + v.ln()) {
            return d * v;
        }
    }
}

impl GammaSource<F, SplitMix64> for Maths {
    fn gamma(&self, rng: SplitMix64, alpha: F) -> (F, SplitMix64) {
        let mut rng = rng;
        let x = gamma_sample(&mut rng, alpha.0);
        (F(x), rng)
    }
}

#[derive(Clone, Copy, PartialEq, Debug)]
struct Pix(f32);
impl Word for Pix {
    fn word(self) -> u32 {
        self.0.to_bits()
    }
    fn from_word(word: u32) -> Pix {
        Pix(f32::from_bits(word))
    }
}

fn pix(xs: &[f32]) -> Vec<Pix> {
    xs.iter().map(|&x| Pix(x)).collect()
}

struct Net<'a> {
    f: &'a dyn Fn(&[usize], &[f32], usize) -> Vec<f64>,
    players: Vec<usize>,
    obs: Vec<f32>,
}
impl<'a> Net<'a> {
    fn new(f: &'a dyn Fn(&[usize], &[f32], usize) -> Vec<f64>) -> Net<'a> {
        Net {
            f,
            players: Vec::new(),
            obs: Vec::new(),
        }
    }
}
impl<'a> Infer<Pix, F> for Net<'a> {
    fn infer(self, players: &[usize], obs: Vec<Pix>, n_rows: usize) -> (Self, Vec<F>) {
        let flat: Vec<f32> = obs.iter().map(|p| p.0).collect();
        let out = nums(&(self.f)(players, &flat, n_rows));
        (self, out)
    }
}
impl<'a> Batch<Pix, F> for Net<'a> {
    fn is_empty(&self) -> bool {
        self.players.is_empty()
    }
    fn resolve_or_stage(self, player: usize, obs: &[Pix]) -> (Self, Resolve<F>) {
        let mut b = self;
        let ticket = b.players.len();
        b.players.push(player);
        b.obs.extend(obs.iter().map(|p| p.0));
        (b, Resolve::Staged(ticket))
    }
    fn commit(self) -> (Self, Vec<Vec<F>>) {
        let n = self.players.len();
        let mut rows = Vec::new();
        if n > 0 {
            let flat = (self.f)(&self.players, &self.obs, n);
            let w = flat.len() / n;
            for i in 0..n {
                rows.push(nums(&flat[i * w..(i + 1) * w]));
            }
        }
        (Net::new(self.f), rows)
    }
}

/// One decision among three actions, or two of them, that ends it.
struct OneShot {
    legal: Vec<usize>,
}
impl Game<F> for OneShot {
    type State = i32;
    type Event = ();
    fn num_agents(&self) -> usize {
        1
    }
    fn action_count(&self) -> usize {
        3
    }
    fn copy_state(&self, s: &i32) -> i32 {
        *s
    }
    fn actor(&self, _: &i32) -> Actor {
        Actor::Agent(0)
    }
    fn legal_actions(&self, s: &i32, _: usize) -> Vec<usize> {
        if *s > 0 {
            Vec::new()
        } else {
            self.legal.clone()
        }
    }
    fn step(&self, s: &i32, _: &[usize]) -> Transition<i32, ()> {
        Transition {
            next_state: s + 1,
            events: vec![None],
            terminal: true,
        }
    }
    fn chance_node(&self, _: &i32) -> ChanceDist<F> {
        unreachable!()
    }
    fn apply_chance_node(&self, _: &i32, _: usize) -> Transition<i32, ()> {
        unreachable!()
    }
    fn perfect_information(&self) -> bool {
        true
    }
    fn initial_state(&self) -> i32 {
        0
    }
    fn truncation_horizon(&self) -> Option<usize> {
        None
    }
    fn mark_truncation(&self, _: &i32, _: &mut Vec<(usize, ())>) {}
}

struct NoReward;
impl Reward<F> for NoReward {
    type Event = ();
    fn step_reward(&self, _: &(), _: usize) -> F {
        F(0.0)
    }
}

/// Rotates the heads of three actions by so many places.
struct RotEnc(usize);
impl ActionView for RotEnc {
    fn head_index(&self, action: usize, _: usize) -> usize {
        (action + self.0) % 3
    }
    fn game_action(&self, head: usize, _: usize) -> usize {
        (head + 3 - self.0) % 3
    }
}
impl StateEncoder for RotEnc {
    type State = i32;
    type Feature = Pix;
    fn encode(&self, s: &i32, _: usize) -> Vec<Pix> {
        pix(&[*s as f32])
    }
    fn obs_shape(&self) -> (usize, usize, usize) {
        (1, 1, 1)
    }
}

fn shot(legal: &[usize], rot: usize) -> Vec<DqnRecord<Pix, F>> {
    let mut engine = Engine::new(
        OneShot {
            legal: legal.to_vec(),
        },
        RotEnc(rot),
        NoReward,
        EpsilonGreedyQ::new(1, F(0.0)),
        Dqn::new(1, F(1.0), 1, F(0.99)),
        EngineParams {
            n_games: 1,
            seed: 0,
        },
    )
    .ok()
    .unwrap();
    let (r, _) = engine.collect(
        1,
        100,
        Net::new(&|_, _, n| (0..n).flat_map(|_| [10.0, 0.0, 5.0]).collect()),
    );
    r.ok().unwrap().0
}

#[test]
fn rotated_view_reroutes_selection_and_head_frame_records() {
    let id = shot(&[0, 1, 2], 0);
    assert_eq!(id[0].action, 0);
    assert_eq!(id[0].legal, vec![0, 1, 2]);

    let rot = shot(&[0, 1, 2], 1);
    assert_eq!(rot[0].action, 0);
    assert_eq!(rot[0].legal, vec![1, 2, 0]);
    assert!(rot[0].next_legal.is_empty());
}

#[test]
fn sparse_legal_sets_map_and_select_under_a_permutation() {
    let records = shot(&[0, 2], 1);
    assert_eq!(records[0].action, 0);
    assert_eq!(records[0].legal, vec![1, 0]);
}

/// A walk of one agent: the second action climbs, the top ends it and pays.
struct Ladder {
    top: i32,
    horizon: Option<usize>,
}
impl Game<F> for Ladder {
    type State = i32;
    type Event = f64;
    fn num_agents(&self) -> usize {
        1
    }
    fn action_count(&self) -> usize {
        2
    }
    fn copy_state(&self, s: &i32) -> i32 {
        *s
    }
    fn actor(&self, _: &i32) -> Actor {
        Actor::Agent(0)
    }
    fn legal_actions(&self, s: &i32, agent: usize) -> Vec<usize> {
        if agent == 0 && *s < self.top {
            vec![0, 1]
        } else {
            Vec::new()
        }
    }
    fn step(&self, s: &i32, actions: &[usize]) -> Transition<i32, f64> {
        let next = s + actions[0] as i32;
        let terminal = next >= self.top;
        Transition {
            next_state: next,
            events: vec![if terminal { Some(1.0) } else { None }],
            terminal,
        }
    }
    fn chance_node(&self, _: &i32) -> ChanceDist<F> {
        unreachable!()
    }
    fn apply_chance_node(&self, _: &i32, _: usize) -> Transition<i32, f64> {
        unreachable!()
    }
    fn perfect_information(&self) -> bool {
        true
    }
    fn initial_state(&self) -> i32 {
        0
    }
    fn truncation_horizon(&self) -> Option<usize> {
        self.horizon
    }
    fn mark_truncation(&self, _: &i32, trace: &mut Vec<(usize, f64)>) {
        trace.push((0, 0.25));
    }
}

struct Paid;
impl Reward<F> for Paid {
    type Event = f64;
    fn step_reward(&self, event: &f64, _: usize) -> F {
        F(*event)
    }
}

struct Flat;
impl ActionView for Flat {
    fn head_index(&self, action: usize, _: usize) -> usize {
        action
    }
    fn game_action(&self, head: usize, _: usize) -> usize {
        head
    }
}
impl StateEncoder for Flat {
    type State = i32;
    type Feature = Pix;
    fn encode(&self, s: &i32, agent: usize) -> Vec<Pix> {
        pix(&[*s as f32, agent as f32])
    }
    fn obs_shape(&self) -> (usize, usize, usize) {
        (1, 1, 2)
    }
}

fn climb(_: &[usize], _: &[f32], n: usize) -> Vec<f64> {
    (0..n).flat_map(|_| [0.0, 1.0]).collect()
}

fn params(n_games: usize, seed: u64) -> EngineParams {
    EngineParams { n_games, seed }
}

#[test]
fn finished_episodes_are_summarised_and_begin_anew() {
    let mut engine = Engine::new(
        Ladder {
            top: 3,
            horizon: None,
        },
        Flat,
        Paid,
        EpsilonGreedyQ::new(1, F(0.0)),
        Dqn::new(1, F(1.0), 1, F(0.5)),
        params(2, 7),
    )
    .ok()
    .unwrap();
    let (r, _) = engine.collect(6, 100, Net::new(&climb));
    let (records, stats) = r.ok().unwrap();
    assert_eq!(records.len(), 6);
    assert_eq!(stats.decisions, 6);
    assert_eq!(stats.episodes.len(), 2);
    for e in &stats.episodes {
        assert_eq!(e.reward, nums(&[1.0]));
        assert_eq!(e.length, 3);
        assert!(!e.seeded);
    }
    let first: Vec<f64> = records[..3].iter().map(|r| r.reward.0).collect();
    assert_eq!(first, vec![0.0, 0.0, 1.0]);
    assert_eq!(records[0].next_obs, pix(&[1.0, 0.0]));
    assert_eq!(records[0].discount, F(0.5));
    assert!(records[2].terminal);
    let (r, _) = engine.collect(6, 100, Net::new(&climb));
    assert_eq!(r.ok().unwrap().0.len(), 6);
}

#[test]
fn ticks_are_bounded() {
    let mut engine = Engine::new(
        Ladder {
            top: 3,
            horizon: None,
        },
        Flat,
        Paid,
        EpsilonGreedyQ::new(1, F(0.0)),
        Dqn::new(1, F(1.0), 1, F(0.5)),
        params(1, 7),
    )
    .ok()
    .unwrap();
    let (r, _) = engine.collect(6, 2, Net::new(&climb));
    let (records, stats) = r.ok().unwrap();
    assert!(records.is_empty());
    assert_eq!(stats.decisions, 2);
    let (r, _) = engine.collect(1, 1, Net::new(&climb));
    assert_eq!(r.ok().unwrap().0.len(), 3);
}

#[test]
fn truncation_marks_the_tick_and_bootstraps_the_tail() {
    let mut engine = Engine::new(
        Ladder {
            top: 100,
            horizon: Some(2),
        },
        Flat,
        Paid,
        SelectiveExpectimax::new(
            SearchConfig {
                gamma: F(1.0),
                beta: F(1.0),
                expansion_budget: 1,
                top_k: 1,
                max_depth: 1,
                chance: ChanceMode::Committed { samples: 1 },
                opponent: Opponent::Uniform,
            },
            1,
            F(0.0),
            Maths,
        ),
        TreeStrap::new(F(0.5), F(1.0), F(1.0), false),
        params(1, 3),
    )
    .ok()
    .unwrap();
    let (r, _) = engine.collect(
        1,
        100,
        Net::new(&|_, obs, n| {
            (0..n)
                .flat_map(|i| [0.0, f64::from(obs[2 * i])])
                .collect()
        }),
    );
    let (records, stats) = r.ok().unwrap();
    assert_eq!(records.len(), 2);
    assert_eq!(stats.episodes[0].reward, nums(&[0.25]));
    assert_eq!(stats.episodes[0].length, 2);
    // Both steps climbed; the cut tick pays a quarter and the row at two is worth two.
    assert_eq!(records[1].1[0][1], F(0.25 + 0.5 * 2.0));
    assert_eq!(records[0].1[0][1], F(0.5 * (0.25 + 0.5 * 2.0)));
}

/// Two agents in turn. The first agent's third move wins, and the other is paid the loss on it.
struct Race;
impl Game<F> for Race {
    type State = i32;
    type Event = f64;
    fn num_agents(&self) -> usize {
        3
    }
    fn action_count(&self) -> usize {
        2
    }
    fn copy_state(&self, s: &i32) -> i32 {
        *s
    }
    fn actor(&self, s: &i32) -> Actor {
        Actor::Agent((s % 3) as usize)
    }
    fn legal_actions(&self, s: &i32, agent: usize) -> Vec<usize> {
        if *s < 4 && agent == (s % 3) as usize {
            vec![0, 1]
        } else {
            Vec::new()
        }
    }
    fn step(&self, s: &i32, _: &[usize]) -> Transition<i32, f64> {
        let next = s + 1;
        let terminal = next == 4;
        Transition {
            next_state: next,
            events: if terminal {
                vec![Some(2.0), Some(-1.0), Some(-1.0)]
            } else {
                vec![None, None, None]
            },
            terminal,
        }
    }
    fn chance_node(&self, _: &i32) -> ChanceDist<F> {
        unreachable!()
    }
    fn apply_chance_node(&self, _: &i32, _: usize) -> Transition<i32, f64> {
        unreachable!()
    }
    fn perfect_information(&self) -> bool {
        true
    }
    fn initial_state(&self) -> i32 {
        0
    }
    fn truncation_horizon(&self) -> Option<usize> {
        None
    }
    fn mark_truncation(&self, _: &i32, _: &mut Vec<(usize, f64)>) {}
}

fn zero_cfg() -> AlphaZeroConfig<F> {
    AlphaZeroConfig {
        num_simulations: 4,
        c_puct: F(1.0),
        gamma: F(1.0),
        max_depth: 8,
        noise_epsilon: F(0.0),
        noise_alpha: F(0.3),
        temperature: F(0.0),
        temperature_drop: 0,
        chance: ChanceMode::Committed { samples: 1 },
        noise_scope: NoiseScope::Requester,
        sequential_backup: SequentialBackup::Auto,
    }
}

#[test]
fn every_perspective_of_a_many_player_game_is_recorded() {
    let mut engine = Engine::new(
        Race,
        Flat,
        Paid,
        AlphaZero::new(zero_cfg(), Maths),
        AlphaZeroLearner::new(F(1.0)),
        params(1, 5),
    )
    .ok()
    .unwrap();
    let (r, _) = engine.collect(1, 100, Net::new(&|_, _, n| vec![0.0; n * 3]));
    let (records, stats) = r.ok().unwrap();
    assert_eq!(stats.decisions, 4);
    assert_eq!(records.len(), 12, "a step for each agent on each tick");
    assert_eq!(stats.episodes[0].reward, nums(&[2.0, -1.0, -1.0]));
    let weights: Vec<f64> = records.iter().map(|r| r.3 .0).collect();
    assert_eq!(weights.iter().sum::<f64>(), 4.0);
    for r in &records {
        assert_eq!(r.2, if r.4 == 0 { F(2.0) } else { F(-1.0) });
    }
    assert_eq!(
        stats.sum_fresh_rows + stats.sum_hit_rows + stats.sum_shared_rows
            + stats.sum_terminal_sims
            + stats.sum_depthcap_sims
            - stats.sum_extra_eval_rows,
        16
    );
}

#[test]
fn an_agent_that_did_not_act_is_scored_on_its_last_step() {
    let mut engine = Engine::new(
        Race,
        Flat,
        Paid,
        EpsilonGreedyQ::new(1, F(0.0)),
        Dqn::new(1, F(1.0), 1, F(1.0)),
        params(1, 5),
    )
    .ok()
    .unwrap();
    let (r, _) = engine.collect(1, 100, Net::new(&climb));
    let (records, _) = r.ok().unwrap();
    assert_eq!(records.len(), 4);
    let of = |agent: usize| -> Vec<f64> {
        records
            .iter()
            .filter(|r| r.player == agent)
            .map(|r| r.reward.0)
            .collect()
    };
    assert_eq!(of(0), vec![0.0, 2.0]);
    assert_eq!(of(1), vec![-1.0]);
    assert_eq!(of(2), vec![-1.0]);
    assert!(records.iter().filter(|r| r.player == 1).all(|r| r.terminal));
}

#[test]
fn live_fragments_are_bootstrapped_and_emitted() {
    let mut engine = Engine::new(
        Ladder {
            top: 100,
            horizon: None,
        },
        Flat,
        Paid,
        PpoActor::new(Maths),
        Ppo::new(F(1.0), F(1.0)),
        params(2, 11),
    )
    .ok()
    .unwrap();
    let net = |_: &[usize], _: &[f32], n: usize| -> Vec<f64> {
        (0..n).flat_map(|_| [0.0, 0.0, 7.0]).collect()
    };
    let (r, _) = engine.collect(5, 100, Net::new(&net));
    let (records, stats) = r.ok().unwrap();
    assert_eq!(records.len(), 6, "complete rounds of two games");
    assert_eq!(stats.decisions, 6);
    assert!(stats.episodes.is_empty());
    for r in &records {
        assert_eq!(r.value, F(7.0));
        assert_eq!(r.ret, F(7.0), "the value beyond is the bootstrap");
    }
    let (r, _) = engine.collect(1, 100, Net::new(&net));
    assert_eq!(r.ok().unwrap().0.len(), 2, "no record spans two collections");
}

/// No agents at all.
struct Nobody;
impl Game<F> for Nobody {
    type State = i32;
    type Event = f64;
    fn num_agents(&self) -> usize {
        0
    }
    fn action_count(&self) -> usize {
        1
    }
    fn copy_state(&self, s: &i32) -> i32 {
        *s
    }
    fn actor(&self, _: &i32) -> Actor {
        Actor::Simultaneous
    }
    fn legal_actions(&self, _: &i32, _: usize) -> Vec<usize> {
        Vec::new()
    }
    fn step(&self, s: &i32, _: &[usize]) -> Transition<i32, f64> {
        Transition {
            next_state: *s,
            events: Vec::new(),
            terminal: true,
        }
    }
    fn chance_node(&self, _: &i32) -> ChanceDist<F> {
        unreachable!()
    }
    fn apply_chance_node(&self, _: &i32, _: usize) -> Transition<i32, f64> {
        unreachable!()
    }
    fn perfect_information(&self) -> bool {
        true
    }
    fn initial_state(&self) -> i32 {
        0
    }
    fn truncation_horizon(&self) -> Option<usize> {
        None
    }
    fn mark_truncation(&self, _: &i32, _: &mut Vec<(usize, f64)>) {}
}

#[test]
fn an_engine_needs_agents_that_its_policy_supports() {
    let none = Engine::new(
        Nobody,
        Flat,
        Paid,
        EpsilonGreedyQ::new(1, F(0.0)),
        Dqn::new(1, F(1.0), 1, F(1.0)),
        params(1, 0),
    );
    assert_eq!(none.err(), Some(Fault::NoAgents));
    let many = Engine::new(
        Race,
        Flat,
        Paid,
        reinfors_core::policies::tree::minimax::Minimax::new(
            1,
            None,
            ChanceMode::Committed { samples: 1 },
            F(1.0),
            Maths,
        ),
        TreeStrap::new(F(1.0), F(0.0), F(1.0), false),
        params(1, 0),
    );
    assert_eq!(many.err(), Some(Fault::TooManyAgents));
}

#[test]
fn nothing_to_do_ends_a_collection() {
    let mut engine = Engine::new(
        Ladder {
            top: 3,
            horizon: None,
        },
        Flat,
        Paid,
        EpsilonGreedyQ::new(1, F(0.0)),
        Dqn::new(1, F(1.0), 1, F(0.5)),
        params(0, 7),
    )
    .ok()
    .unwrap();
    let (r, _) = engine.collect(1, 100, Net::new(&climb));
    assert!(r.ok().unwrap().0.is_empty());
}

struct IntCodec;
impl StateCodec for IntCodec {
    type State = i32;
    fn encode(&self, state: &i32) -> Vec<u8> {
        state.to_le_bytes().to_vec()
    }
    fn decode(&self, bytes: &[u8]) -> Result<i32, String> {
        if bytes.len() != 4 {
            return Err(format!("{} bytes", bytes.len()));
        }
        Ok(i32::from_le_bytes([bytes[0], bytes[1], bytes[2], bytes[3]]))
    }
    fn validate_state(&self, state: &i32, done: bool) -> Result<(), String> {
        if *state < 0 || done {
            return Err(format!("state {state}"));
        }
        Ok(())
    }
}

type LadderEngine = Engine<
    F,
    Ladder,
    Flat,
    Paid,
    EpsilonGreedyQ<F>,
    Dqn<F>,
    reinfors_core::start::AlwaysInitialState,
>;

fn ladder(games: usize, seed: u64, horizon: Option<usize>) -> LadderEngine {
    Engine::new(
        Ladder { top: 6, horizon },
        Flat,
        Paid,
        EpsilonGreedyQ::new(2, F(0.5)),
        Dqn::new(2, F(0.5), 2, F(0.9)),
        params(games, seed),
    )
    .ok()
    .unwrap()
}

fn two_heads(_: &[usize], _: &[f32], n: usize) -> Vec<f64> {
    (0..n).flat_map(|_| [0.0, 1.0, 1.0, 0.5]).collect()
}

fn same(a: &DqnRecord<Pix, F>, b: &DqnRecord<Pix, F>) -> bool {
    a.player == b.player
        && a.obs == b.obs
        && a.action == b.action
        && a.reward == b.reward
        && a.next_obs == b.next_obs
        && a.terminal == b.terminal
        && a.discount == b.discount
        && a.mask == b.mask
        && a.legal == b.legal
        && a.next_legal == b.next_legal
}

#[test]
fn a_restored_engine_collects_the_same_records() {
    let mut a = ladder(3, 9, None);
    let (r, _) = a.collect(1000, 7, Net::new(&two_heads));
    assert!(r.is_ok());
    let bytes = a.snapshot_bytes(&IntCodec);
    let mut b = ladder(3, 1234, None);
    assert_eq!(b.restore_bytes(&IntCodec, &bytes), Ok(()));
    assert_eq!(b.snapshot_bytes(&IntCodec), bytes);
    let (ra, _) = a.collect(40, 1000, Net::new(&two_heads));
    let (rb, _) = b.collect(40, 1000, Net::new(&two_heads));
    let (ra, sa) = ra.ok().unwrap();
    let (rb, sb) = rb.ok().unwrap();
    assert!(ra.len() >= 40);
    assert_eq!(ra.len(), rb.len());
    assert!(ra.iter().zip(&rb).all(|(x, y)| same(x, y)));
    assert_eq!(sa.decisions, sb.decisions);
}

#[test]
fn refused_bytes_leave_the_engine_as_it_was() {
    let mut a = ladder(2, 9, None);
    let (r, _) = a.collect(1000, 3, Net::new(&two_heads));
    assert!(r.is_ok());
    let bytes = a.snapshot_bytes(&IntCodec);
    let mut b = ladder(2, 5, None);
    let before = b.snapshot_bytes(&IntCodec);
    let mut refused = |bytes: &[u8], fault: DecodeFault| {
        assert_eq!(b.restore_bytes(&IntCodec, bytes), Err(fault));
        assert_eq!(b.snapshot_bytes(&IntCodec), before);
    };
    for n in 0..bytes.len() {
        refused(&bytes[..n], DecodeFault::Truncated);
    }
    let mut longer = bytes.clone();
    longer.push(0);
    refused(&longer, DecodeFault::Trailing);
    let mut version = bytes.clone();
    version[0] = 2;
    refused(&version, DecodeFault::Version);
    let mut games = bytes.clone();
    games[1] = 3;
    refused(&games, DecodeFault::Shape);
    // After the header: the state's length, then the state itself.
    let mut state = bytes.clone();
    state[25 + 4 + 3] = 0x80;
    refused(&state, DecodeFault::InvalidState);
    let mut seeded = bytes.clone();
    seeded[25 + 8 + 8 + 8] = 2;
    refused(&seeded, DecodeFault::NotBool);
    let mut tick = bytes.clone();
    tick[25 + 8 + 8 + 7] = 1;
    refused(&tick, DecodeFault::Ticks);
    let mut early = bytes.clone();
    early[25 + 8 + 8] = 1;
    refused(&early, DecodeFault::Decisions);
    let mut long = bytes.clone();
    long[25 + 8 + 8 + 8 + 1 + 8 + 3] = 1;
    refused(&long, DecodeFault::Trajectory);
    let mut head = bytes.clone();
    head[25 + 8 + 8 + 8 + 1] = 9;
    refused(&head, DecodeFault::PolicyState);
}

#[test]
fn a_snapshot_past_the_horizon_is_refused() {
    let mut a = ladder(1, 9, None);
    let (r, _) = a.collect(1000, 4, Net::new(&two_heads));
    assert!(r.is_ok());
    let bytes = a.snapshot_bytes(&IntCodec);
    let mut b = ladder(1, 9, Some(4));
    assert_eq!(b.restore_bytes(&IntCodec, &bytes), Err(DecodeFault::Horizon));
    let mut c = ladder(1, 9, Some(5));
    assert_eq!(c.restore_bytes(&IntCodec, &bytes), Ok(()));
}

#[test]
fn a_snapshot_is_read_back_in_every_part() {
    let mut a = ladder(1, 9, None);
    let (r, _) = a.collect(1000, 1, Net::new(&two_heads));
    assert!(r.is_ok());
    let bytes = a.snapshot_bytes(&IntCodec);
    let mut b = ladder(1, 9, None);
    // The last step ends with its flag, before the empty bytes of the start distribution.
    let mut ended = bytes.clone();
    let flag = bytes.len() - 5;
    ended[flag] = 1;
    assert_eq!(b.restore_bytes(&IntCodec, &ended), Err(DecodeFault::Terminal));
    let mut short = bytes.clone();
    short[25] = 3;
    short.remove(29);
    assert_eq!(b.restore_bytes(&IntCodec, &short), Err(DecodeFault::State));
    // The first step begins with the count of its features.
    let mut wide = bytes.clone();
    let step = 25 + 8 + 8 + 8 + 1 + 8 + 4;
    assert_eq!(wide[step], 2);
    wide[step] = 1;
    assert_eq!(b.restore_bytes(&IntCodec, &wide), Err(DecodeFault::ObsWidth));
    assert_eq!(b.restore_bytes(&IntCodec, &bytes), Ok(()));
}

#[test]
fn what_is_left_after_a_collection_can_be_stored() {
    for ticks in 0..12 {
        let mut a = ladder(2, 3, Some(4));
        let (r, _) = a.collect(1000, ticks, Net::new(&two_heads));
        assert!(r.is_ok());
        let mut b = ladder(2, 4, Some(4));
        let bytes = a.snapshot_bytes(&IntCodec);
        assert_eq!(b.restore_bytes(&IntCodec, &bytes), Ok(()));
    }
}

#[test]
fn each_stream_draws_for_itself() {
    let mut a = ladder(2, 3, Some(2));
    let before = a.snapshot_bytes(&IntCodec);
    let (r, _) = a.collect(1000, 5, Net::new(&two_heads));
    assert!(!r.ok().unwrap().1.episodes.is_empty());
    let after = a.snapshot_bytes(&IntCodec);
    let at = |bytes: &[u8], from: usize| {
        let mut word = [0u8; 8];
        word.copy_from_slice(&bytes[from..from + 8]);
        u64::from_le_bytes(word)
    };
    // The header ends with the generators of the search and of the start distribution.
    let golden = 0x9E37_79B9_7F4A_7C15u64;
    assert_eq!(at(&after, 9), at(&before, 9).wrapping_add(golden.wrapping_mul(5)));
    assert_eq!(at(&after, 17), at(&before, 17));
}

/// Begins every other episode at a fixed state.
struct Every {
    at: i32,
    fresh: bool,
    seen: usize,
}
impl StartDistribution<i32> for Every {
    fn observe(&mut self, _: &i32, _: &mut SplitMix64) {
        self.seen += 1;
    }
    fn next_start(&mut self, rng: &mut SplitMix64) -> Start<i32> {
        rng.next_u64();
        self.fresh = !self.fresh;
        if self.fresh {
            Start::Fresh
        } else {
            Start::Restore(self.at)
        }
    }
}
impl StoredStart<i32, IntCodec> for Every {
    fn snapshot_bytes(&self, codec: &IntCodec) -> Vec<u8> {
        let mut out = codec.encode(&self.at);
        out.push(u8::from(self.fresh));
        out
    }
    fn restore_bytes(&mut self, codec: &IntCodec, bytes: &[u8]) -> Result<(), DecodeFault> {
        if bytes.len() != 5 {
            return Err(DecodeFault::Start);
        }
        let at = codec.decode(&bytes[..4]).map_err(|_| DecodeFault::Start)?;
        self.at = at;
        self.fresh = bytes[4] == 1;
        Ok(())
    }
}

#[test]
fn episodes_begin_where_the_start_distribution_says() {
    let mut engine = ladder_greedy().with_start_distribution(Every {
        at: 4,
        fresh: true,
        seen: 0,
    });
    let (r, _) = engine.collect(14, 1000, Net::new(&climb));
    let (_, stats) = r.ok().unwrap();
    let lengths: Vec<(usize, bool)> = stats.episodes.iter().map(|e| (e.length, e.seeded)).collect();
    assert_eq!(lengths, vec![(6, false), (2, true), (6, false)]);
    let bytes = engine.snapshot_bytes(&IntCodec);
    let mut other = ladder_greedy().with_start_distribution(Every {
        at: 1,
        fresh: true,
        seen: 0,
    });
    assert_eq!(other.restore_bytes(&IntCodec, &bytes), Ok(()));
    assert_eq!(other.snapshot_bytes(&IntCodec), bytes);
    let mut plain = ladder_greedy();
    assert_eq!(
        plain.restore_bytes(&IntCodec, &bytes),
        Err(DecodeFault::Start)
    );
}

fn ladder_greedy() -> LadderEngine {
    Engine::new(
        Ladder {
            top: 6,
            horizon: None,
        },
        Flat,
        Paid,
        EpsilonGreedyQ::new(1, F(0.0)),
        Dqn::new(1, F(1.0), 1, F(0.9)),
        params(1, 2),
    )
    .ok()
    .unwrap()
}

#[test]
fn bytes_are_little_endian_and_counted() {
    let mut out = Vec::new();
    put_u8(&mut out, 7);
    put_u32(&mut out, 0x0102_0304);
    put_u64(&mut out, 5);
    put_i64(&mut out, -1);
    put_blob(&mut out, &[9, 8]);
    put_nums(&mut out, &nums(&[1.5]));
    put_words(&mut out, &pix(&[2.0]));
    put_sizes(&mut out, &[3]);
    assert_eq!(out[..5], [7, 4, 3, 2, 1]);
    let mut r = Reader::new(&out);
    assert_eq!(r.u8(), Ok(7));
    assert_eq!(r.u32(), Ok(0x0102_0304));
    assert_eq!(r.u64(), Ok(5));
    assert_eq!(r.i64(), Ok(-1));
    assert_eq!(r.blob().map(|b| b.to_vec()), Ok(vec![9, 8]));
    let xs: Result<Vec<F>, DecodeFault> = reinfors_core::codec::bytes::nums(&mut r);
    assert_eq!(xs, Ok(nums(&[1.5])));
    assert_eq!(words(&mut r), Ok(pix(&[2.0])));
    assert_eq!(r.done(), Err(DecodeFault::Trailing));
    assert_eq!(sizes(&mut r), Ok(vec![3]));
    assert_eq!(r.done(), Ok(()));
    assert_eq!(r.u8(), Err(DecodeFault::Truncated));
}
