#![allow(dead_code)]

use std::sync::atomic::{AtomicUsize, Ordering};

use reinfors_core::action::Action;
use reinfors_core::codec::bytes::{DecodeFault, Reader};
use reinfors_core::encoder::{ActionView, PermTable, StateEncoder};
use reinfors_core::fault::Fault;
use reinfors_core::game::{step_env, Actor, ChanceDist, Game, Rng, Transition};
use reinfors_core::num::Scalar;
use reinfors_core::policies::modelfree::epsilon_greedy_q::EpsilonGreedyQ;
use reinfors_core::policies::modelfree::ppo::{PpoActor, PpoEvaluation};
use reinfors_core::policies::modelfree::{one_shot_begin, one_shot_round};
use reinfors_core::policies::planner::Planner;
use reinfors_core::policies::tree::evaluation::SearchEvaluation;
use reinfors_core::policies::tree::expectimax::evaluate::Exp;
use reinfors_core::policies::tree::expectimax::policy::SelectiveExpectimax;
use reinfors_core::policies::tree::expectimax::search::{search_many, Infer};
use reinfors_core::policies::tree::expectimax::tree::{Opponent, SearchConfig, SearchStats};
use reinfors_core::policies::tree::mcts::act::Pow;
use reinfors_core::policies::tree::mcts::fan::{flatten_chance_fan, FanState};
use reinfors_core::policies::tree::mcts::policy::{mcts_many, ActBy, Mcts, MctsConfig};
use reinfors_core::policies::tree::mcts::pool::{Batch, Resolve};
use reinfors_core::policies::tree::mcts::select::Ln;
use reinfors_core::policies::tree::minimax::Minimax;
use reinfors_core::policy::{
    take_best, ChanceMode, Policy, RequestSink, RoundStatus, RowsView, MAX_ENUMERATED_OUTCOMES,
};
use reinfors_core::reward::Reward;
use reinfors_core::rng::{GammaSource, SplitMix64};
use reinfors_core::stats::{fold_search_stats, CollectStats};

#[derive(Clone, Copy, PartialEq, PartialOrd, Debug)]
struct F(f64);

impl Scalar for F {
    fn zero() -> F {
        F(0.0)
    }
    fn one() -> F {
        F(1.0)
    }
    fn lowest() -> F {
        F(f64::NEG_INFINITY)
    }
    fn highest() -> F {
        F(f64::INFINITY)
    }
    fn count(n: u64) -> F {
        F(n as f64)
    }
    fn plus(self, rhs: F) -> F {
        F(self.0 + rhs.0)
    }
    fn minus(self, rhs: F) -> F {
        F(self.0 - rhs.0)
    }
    fn times(self, rhs: F) -> F {
        F(self.0 * rhs.0)
    }
    fn over(self, rhs: F) -> F {
        F(self.0 / rhs.0)
    }
    fn negated(self) -> F {
        F(-self.0)
    }
    fn root(self) -> F {
        F(self.0.sqrt())
    }
    fn less(self, rhs: F) -> bool {
        self.0 < rhs.0
    }
    fn at_most(self, rhs: F) -> bool {
        self.0 <= rhs.0
    }
    fn same(self, rhs: F) -> bool {
        self.0 == rhs.0
    }
    fn larger(self, rhs: F) -> F {
        F(self.0.max(rhs.0))
    }
    fn smaller(self, rhs: F) -> F {
        F(self.0.min(rhs.0))
    }
    fn is_finite(self) -> bool {
        self.0.is_finite()
    }
    fn is_number(self) -> bool {
        !self.0.is_nan()
    }
    fn index(self) -> usize {
        self.0 as usize
    }
    fn bits(self) -> u64 {
        self.0.to_bits()
    }
    fn from_bits(bits: u64) -> F {
        F(f64::from_bits(bits))
    }
}

fn nums(xs: &[f64]) -> Vec<F> {
    xs.iter().map(|&x| F(x)).collect()
}

fn plain(xs: &[F]) -> Vec<f64> {
    xs.iter().map(|x| x.0).collect()
}

struct Maths;
impl Exp<F> for Maths {
    fn exp(&self, x: F) -> F {
        F(x.0.exp())
    }
}
impl Ln<F> for Maths {
    fn ln(&self, x: F) -> F {
        F(x.0.ln())
    }
}
impl Pow<F> for Maths {
    fn pow(&self, x: F, y: F) -> F {
        F(x.0.powf(y.0))
    }
}

fn unit(rng: &mut SplitMix64) -> f64 {
    let u: F = Rng::<F>::unit(rng);
    u.0
}

fn normal(rng: &mut SplitMix64) -> f64 {
    let u1 = unit(rng).max(f64::MIN_POSITIVE);
    let u2 = unit(rng);
    (-2.0 * u1.ln()).sqrt() * (std::f64::consts::TAU * u2).cos()
}

fn gamma_sample(rng: &mut SplitMix64, alpha: f64) -> f64 {
    if alpha < 1.0 {
        let u = unit(rng).max(f64::MIN_POSITIVE);
        return gamma_sample(rng, alpha + 1.0) * u.powf(1.0 / alpha);
    }
    let d = alpha - 1.0 / 3.0;
    let c = 1.0 / (9.0 * d).sqrt();
    loop {
        let x = normal(rng);
        let v = (1.0 + c * x).powi(3);
        if v <= 0.0 {
            continue;
        }
        let u = unit(rng).max(f64::MIN_POSITIVE);
        if u < 1.0 - 0.0331 * x.powi(4) || u.ln() < 0.5 * x * x + d * (1.0 - v + v.ln()) {
            return d * v;
        }
    }
}

impl GammaSource<F, SplitMix64> for Maths {
    fn gamma(&self, rng: SplitMix64, alpha: F) -> (F, SplitMix64) {
        let mut rng = rng;
        let x = gamma_sample(&mut rng, alpha.0);
        (F(x), rng)
    }
}

struct Net<'a> {
    f: &'a dyn Fn(&[f32], usize) -> Vec<f64>,
    obs: Vec<f32>,
    n: usize,
}

impl<'a> Net<'a> {
    fn new(f: &'a dyn Fn(&[f32], usize) -> Vec<f64>) -> Net<'a> {
        Net {
            f,
            obs: Vec::new(),
            n: 0,
        }
    }
}

impl<'a> Batch<f32, F> for Net<'a> {
    fn is_empty(&self) -> bool {
        self.n == 0
    }
    fn resolve_or_stage(self, _player: usize, obs: &[f32]) -> (Self, Resolve<F>) {
        let mut b = self;
        b.obs.extend_from_slice(obs);
        let ticket = b.n;
        b.n += 1;
        (b, Resolve::Staged(ticket))
    }
    fn commit(self) -> (Self, Vec<Vec<F>>) {
        let mut rows = Vec::new();
        if self.n > 0 {
            let flat = (self.f)(&self.obs, self.n);
            let w = flat.len() / self.n;
            for i in 0..self.n {
                rows.push(nums(&flat[i * w..(i + 1) * w]));
            }
        }
        (Net::new(self.f), rows)
    }
}

impl<'a> Infer<f32, F> for Net<'a> {
    fn infer(self, _players: &[usize], obs: Vec<f32>, n_rows: usize) -> (Self, Vec<F>) {
        let out = nums(&(self.f)(&obs, n_rows));
        (self, out)
    }
}

/// Two agents. State 0 leads to state 1, whose actor varies; every later state is the first agent's.
#[derive(Clone, Copy)]
struct Odd {
    second: Actor,
    hidden: bool,
    outcomes: usize,
}

impl Game<F> for Odd {
    type State = i32;
    type Event = f64;
    fn num_agents(&self) -> usize {
        2
    }
    fn action_count(&self) -> usize {
        2
    }
    fn copy_state(&self, s: &i32) -> i32 {
        *s
    }
    fn actor(&self, s: &i32) -> Actor {
        if *s == 1 {
            self.second
        } else {
            Actor::Agent(0)
        }
    }
    fn legal_actions(&self, s: &i32, agent: usize) -> Vec<usize> {
        if agent == 0 || (*s == 1 && self.second == Actor::Simultaneous) {
            vec![0, 1]
        } else {
            Vec::new()
        }
    }
    fn step(&self, s: &i32, _: &[usize]) -> Transition<i32, f64> {
        Transition {
            next_state: s + 1,
            events: vec![None, None],
            terminal: false,
        }
    }
    fn chance_node(&self, _: &i32) -> ChanceDist<F> {
        ChanceDist::Uniform(self.outcomes)
    }
    fn apply_chance_node(&self, s: &i32, _: usize) -> Transition<i32, f64> {
        Transition {
            next_state: s + 1,
            events: vec![None, None],
            terminal: false,
        }
    }
    fn perfect_information(&self) -> bool {
        !self.hidden
    }
    fn initial_state(&self) -> i32 {
        0
    }
    fn truncation_horizon(&self) -> Option<usize> {
        None
    }
    fn mark_truncation(&self, _: &i32, _: &mut Vec<(usize, f64)>) {}
}

fn odd(second: Actor) -> Odd {
    Odd {
        second,
        hidden: false,
        outcomes: 2,
    }
}

struct Quiet;
impl Reward<F> for Quiet {
    type Event = f64;
    fn step_reward(&self, event: &f64, _: usize) -> F {
        F(*event)
    }
}

struct Enc;
impl ActionView for Enc {
    fn head_index(&self, action: usize, _: usize) -> usize {
        action
    }
    fn game_action(&self, head: usize, _: usize) -> usize {
        head
    }
}
impl StateEncoder for Enc {
    type State = i32;
    type Feature = f32;
    fn encode(&self, s: &i32, agent: usize) -> Vec<f32> {
        vec![*s as f32, agent as f32]
    }
    fn obs_shape(&self) -> (usize, usize, usize) {
        (1, 1, 2)
    }
}

fn cfg(top_k: usize, expansion_budget: usize) -> SearchConfig<F> {
    SearchConfig {
        gamma: F(1.0),
        beta: F(1.0),
        expansion_budget,
        top_k,
        max_depth: 6,
        chance: ChanceMode::Committed { samples: 1 },
        opponent: Opponent::Uniform,
    }
}

fn selective(
    game: Odd,
    cfg: SearchConfig<F>,
    requests: Vec<(i32, usize)>,
    f: &dyn Fn(&[f32], usize) -> Vec<f64>,
) -> Result<usize, Fault> {
    let (r, _) = search_many(
        &game,
        &Enc,
        &Quiet,
        &cfg,
        requests,
        false,
        0,
        &Maths,
        Net::new(f),
    );
    r.map(|out| out.len())
}

fn uct(game: Odd, requests: Vec<(i32, usize)>, chance: ChanceMode) -> Result<usize, Fault> {
    let cfg = MctsConfig {
        num_simulations: 8,
        uct_c: F(1.0),
        gamma: F(1.0),
        max_depth: 6,
        temperature: F(0.0),
        temperature_drop: 0,
        chance,
    };
    let (r, _) = mcts_many(
        &game,
        &Enc,
        &Quiet,
        &cfg,
        &Maths,
        requests,
        0,
        Net::new(&|_, n| vec![0.0; n * 2]),
    );
    r.map(|out| out.len())
}

const ONE: ChanceMode = ChanceMode::Committed { samples: 1 };

#[test]
fn hidden_information_is_not_searched() {
    let game = Odd {
        hidden: true,
        ..odd(Actor::Agent(0))
    };
    let quiet = |_: &[f32], n: usize| vec![0.0; n * 2];
    assert_eq!(
        selective(game, cfg(1, 4), vec![(0, 0)], &quiet),
        Err(Fault::HiddenInformation)
    );
    assert_eq!(uct(game, vec![(0, 0)], ONE), Err(Fault::HiddenInformation));
}

#[test]
fn a_request_is_for_an_agent_of_the_game() {
    let game = odd(Actor::Agent(0));
    let quiet = |_: &[f32], n: usize| vec![0.0; n * 2];
    assert_eq!(
        selective(game, cfg(1, 4), vec![(0, 0), (0, 2)], &quiet),
        Err(Fault::EventArity)
    );
    assert_eq!(
        selective(odd(Actor::Simultaneous), cfg(1, 4), vec![(1, 2)], &quiet),
        Err(Fault::AgentRange)
    );
    // Where nothing is expanded, nobody is asked what it means for the agent.
    assert_eq!(selective(game, cfg(1, 0), vec![(0, 2)], &quiet), Ok(1));
    assert_eq!(selective(game, cfg(1, 4), vec![(0, 0)], &quiet), Ok(1));
    assert_eq!(uct(game, vec![(0, 0)], ONE), Ok(1));
}

#[test]
fn a_chance_state_decides_nothing() {
    let game = odd(Actor::Chance);
    let quiet = |_: &[f32], n: usize| vec![0.0; n * 2];
    assert_eq!(
        selective(game, cfg(1, 4), vec![(1, 0)], &quiet),
        Err(Fault::ChanceActor)
    );
    assert_eq!(uct(game, vec![(1, 0)], ONE), Err(Fault::ChanceRoot));
}

#[test]
fn one_tree_has_one_kind_of_decision() {
    assert_eq!(
        uct(odd(Actor::Simultaneous), vec![(0, 0)], ONE),
        Err(Fault::MixedDynamics)
    );
}

#[test]
fn a_fan_is_enumerated_up_to_its_bound() {
    let game = Odd {
        outcomes: MAX_ENUMERATED_OUTCOMES + 1,
        ..odd(Actor::Chance)
    };
    assert_eq!(
        uct(game, vec![(0, 0)], ChanceMode::ExpandAll),
        Err(Fault::FanLimit)
    );
    assert_eq!(uct(game, vec![(0, 0)], ChanceMode::AlwaysResample), Ok(1));
    assert_eq!(uct(odd(Actor::Chance), vec![(0, 0)], ChanceMode::ExpandAll), Ok(1));
}

#[test]
fn priorities_are_numbers() {
    let game = odd(Actor::Agent(0));
    let nowhere = |_: &[f32], n: usize| vec![f64::NAN; n * 4];
    assert_eq!(
        selective(game, cfg(1, 4), vec![(0, 0)], &nowhere),
        Err(Fault::NotANumber)
    );
}

#[test]
fn rounds_that_expand_nothing_are_refused() {
    let game = odd(Actor::Agent(0));
    let quiet = |_: &[f32], n: usize| vec![0.0; n * 2];
    let policy = SelectiveExpectimax::new(cfg(0, 4), 1, F(0.0), Maths);
    let (r, _) = policy.evaluate(&game, &Enc, &Quiet, vec![(0, 0)], 0, false, Net::new(&quiet));
    assert_eq!(r.err(), Some(Fault::NoBeam));
    let (r, _) = policy.evaluate(&game, &Enc, &Quiet, vec![], 0, false, Net::new(&quiet));
    assert_eq!(r.ok().map(|out| out.len()), Some(0));
    assert_eq!(selective(game, cfg(0, 4), vec![], &quiet), Ok(0));
}

#[test]
fn a_choice_needs_a_legal_action_of_the_row() {
    let row = nums(&[0.5, -1.0, 0.5]);
    assert_eq!(take_best(&row, &[]), Err(Fault::NoAction));
    assert_eq!(take_best(&row, &[1, 2]), Ok(2));
    assert_eq!(take_best(&row, &[0, 2]), Ok(0));
}

fn told(fresh: usize, extra: usize) -> SearchEvaluation<F> {
    SearchEvaluation {
        values: Vec::new(),
        visits: Vec::new(),
        legal: Vec::new(),
        stats: SearchStats {
            max_depth: 3,
            expansions: 4,
            leaves: 5,
            rounds: 6,
            terminal_sims: 1,
            depthcap_sims: 2,
            shared_rows: 3,
            fresh_rows: fresh,
            hit_rows: 5,
            extra_eval_rows: extra,
            ..SearchStats::default()
        },
    }
}

#[test]
fn telemetry_adds_up_and_is_not_half_folded() {
    let mut stats: CollectStats<F> = CollectStats::default();
    assert_eq!(fold_search_stats(&told(4, 7), &mut stats), Ok(()));
    assert_eq!(fold_search_stats(&told(4, 7), &mut stats), Ok(()));
    assert_eq!(stats.max_depth, 3);
    assert_eq!(stats.sum_leaves, F(10.0));
    assert_eq!(stats.sum_rounds, F(12.0));
    assert_eq!(stats.sum_expansions, F(8.0));
    let sums = |s: &CollectStats<F>| {
        vec![
            s.sum_terminal_sims,
            s.sum_depthcap_sims,
            s.sum_shared_rows,
            s.sum_fresh_rows,
            s.sum_hit_rows,
            s.sum_extra_eval_rows,
        ]
    };
    assert_eq!(sums(&stats), vec![2, 4, 6, 8, 10, 14]);
    assert_eq!(
        fold_search_stats(&told(usize::MAX, 0), &mut stats),
        Err(Fault::VisitCount)
    );
    assert_eq!(sums(&stats), vec![2, 4, 6, 8, 10, 14]);
    assert_eq!(stats.sum_leaves, F(10.0));
}

#[test]
fn headings_oppose_and_turn() {
    let all = [Action::Up, Action::Down, Action::Left, Action::Right];
    for a in all {
        assert_eq!(a.opposite().opposite(), a);
        let (r, c) = a.delta();
        assert_eq!(a.opposite().delta(), (-r, -c));
        let mut step = (r, c);
        for _ in 0..a.ego_rot_k() {
            step = (-step.1, step.0);
        }
        assert_eq!(step, Action::Up.delta());
    }
    assert_eq!(Action::Right.ego_rot_k(), 1);
    assert_eq!(Action::Left.opposite(), Action::Right);
}

#[test]
fn a_sink_keeps_requests_in_order_and_roots_where_asked() {
    for capture in [false, true] {
        let mut sink: RequestSink<f32> = RequestSink::new(capture);
        assert!(sink.is_empty());
        sink.push(1, &[0.5]);
        sink.push_root(0, vec![1.5, 2.5], 1);
        sink.push_state(&Enc, 1, &7);
        assert_eq!(sink.len(), 3);
        let roots = sink.into_roots();
        if capture {
            assert_eq!(roots, vec![(1, vec![1.5, 2.5])]);
        } else {
            assert!(roots.is_empty());
        }
    }
    let mut sink: RequestSink<f32> = RequestSink::new(false);
    sink.push(1, &[0.5]);
    sink.push_state(&Enc, 1, &7);
    assert_eq!(sink.into_parts(), (vec![1, 1], vec![0.5, 7.0, 1.0]));
}

#[test]
fn rows_are_cut_by_their_stride() {
    let data = nums(&[0.0, 1.0, 2.0, 3.0, 4.0, 5.0]);
    let rows = RowsView::from_slice(&data, 2);
    assert_eq!((rows.len(), rows.stride()), (3, 2));
    assert_eq!(plain(rows.row(1)), vec![2.0, 3.0]);
    let tail = rows.slice(1, 2);
    assert_eq!(plain(tail.flat()), vec![2.0, 3.0, 4.0, 5.0]);
    assert!(RowsView::from_slice(&nums(&[]), 2).is_empty());
}

#[test]
fn one_shot_searches_ask_once() {
    let game = odd(Actor::Simultaneous);
    let mut search = one_shot_begin::<F, Odd, Enc>(&game, &Enc, &1, &[0, 1]);
    assert_eq!(search.legal, vec![vec![0, 1], vec![0, 1]]);
    let mut sink: RequestSink<f32> = RequestSink::new(false);
    assert!(matches!(
        one_shot_round(&mut search, &mut sink),
        RoundStatus::Pending
    ));
    assert!(matches!(
        one_shot_round(&mut search, &mut sink),
        RoundStatus::Done
    ));
    assert_eq!(sink.into_parts(), (vec![0, 1], vec![1.0, 0.0, 1.0, 1.0]));
    let mut none = one_shot_begin::<F, Odd, Enc>(&game, &Enc, &1, &[]);
    let mut sink: RequestSink<f32> = RequestSink::new(false);
    assert!(matches!(
        one_shot_round(&mut none, &mut sink),
        RoundStatus::Done
    ));
    assert!(sink.is_empty());
}

/// Swaps the second agent's slots.
struct Swap;
impl ActionView for Swap {
    fn head_index(&self, action: usize, agent: usize) -> usize {
        (action + agent) % 2
    }
    fn game_action(&self, head: usize, agent: usize) -> usize {
        (head + agent) % 2
    }
}
impl StateEncoder for Swap {
    type State = i32;
    type Feature = f32;
    fn encode(&self, s: &i32, agent: usize) -> Vec<f32> {
        vec![*s as f32, agent as f32]
    }
    fn obs_shape(&self) -> (usize, usize, usize) {
        (1, 1, 2)
    }
}

fn answers(obs: &[f32], n: usize, width: usize) -> Vec<f64> {
    (0..n)
        .flat_map(|i| (0..width).map(move |j| f64::from(obs[2 * i + 1]) * 10.0 + j as f64))
        .collect()
}

#[test]
fn a_stepped_q_search_says_what_an_evaluation_says() {
    let game = odd(Actor::Simultaneous);
    let policy = EpsilonGreedyQ::new(2, F(0.0));
    let perms = PermTable::build(&Swap, 2, 2);
    let mut search = policy.begin_search(&game, &Swap, &1, &[0, 1]);
    let mut sink: RequestSink<f32> = RequestSink::new(false);
    assert_eq!(policy.round(&mut search, &mut sink), RoundStatus::Pending);
    let (agents, obs) = sink.into_parts();
    assert_eq!(agents, vec![0, 1]);
    let rows = nums(&answers(&obs, 2, 4));
    policy.absorb(&mut search, RowsView::from_slice(&rows, 4));
    let mut sink: RequestSink<f32> = RequestSink::new(false);
    assert_eq!(policy.round(&mut search, &mut sink), RoundStatus::Done);
    let stepped = policy.finish(2, &perms, search).ok().unwrap();
    assert_eq!(stepped[0].0.values, vec![nums(&[0.0, 1.0]), nums(&[2.0, 3.0])]);
    assert_eq!(stepped[1].0.values, vec![nums(&[11.0, 10.0]), nums(&[13.0, 12.0])]);
    assert!(stepped[1].1.is_empty());
    let (whole, _) = policy.evaluate(
        &game,
        &Swap,
        &Quiet,
        vec![(1, 0), (1, 1)],
        0,
        false,
        Net::new(&|obs, n| answers(obs, n, 4)),
    );
    for (a, b) in whole.ok().unwrap().iter().zip(&stepped) {
        assert_eq!(a.0.values, b.0.values);
        assert_eq!(a.0.legal, b.0.legal);
    }
}

#[test]
fn a_stepped_actor_says_what_an_evaluation_says() {
    let game = odd(Actor::Simultaneous);
    let policy = PpoActor::new(Maths);
    let perms = PermTable::build(&Swap, 2, 2);
    let mut search = policy.begin_search::<F, Odd, Swap>(&game, &Swap, &1, &[1, 0]);
    let mut sink: RequestSink<f32> = RequestSink::new(false);
    assert_eq!(policy.round(&mut search, &mut sink), RoundStatus::Pending);
    let (_, obs) = sink.into_parts();
    let rows = nums(&answers(&obs, 2, 3));
    policy.absorb(&mut search, RowsView::from_slice(&rows, 3));
    let stepped = policy.finish(2, &perms, search).ok().unwrap();
    assert_eq!(stepped[0].0.value, F(12.0));
    assert_eq!(stepped[1].0.value, F(2.0));
    // The second agent's first action has the larger logit.
    assert!(stepped[0].0.log_probs[0].0 > stepped[0].0.log_probs[1].0);
    let (whole, _) = policy.evaluate(
        &game,
        &Swap,
        &Quiet,
        vec![(1, 1), (1, 0)],
        0,
        false,
        Net::new(&|obs, n| answers(obs, n, 3)),
    );
    for (a, b) in whole.ok().unwrap().iter().zip(&stepped) {
        assert_eq!(a.0.log_probs, b.0.log_probs);
        assert_eq!(a.0.value, b.0.value);
    }
}

#[test]
fn a_stepped_search_needs_rows_and_permutations() {
    let game = odd(Actor::Simultaneous);
    let q = EpsilonGreedyQ::new(1, F(0.0));
    let actor = PpoActor::new(Maths);
    let perms = PermTable::build(&Swap, 2, 1);
    let rows = nums(&[0.0, 1.0, 2.0, 3.0]);
    let begin = |agents: &[usize], stride: usize| {
        let mut search = q.begin_search(&game, &Swap, &1, agents);
        q.absorb(&mut search, RowsView::from_slice(&rows, stride));
        search
    };
    assert_eq!(q.finish(2, &perms, begin(&[1], 4)).err(), Some(Fault::AgentRange));
    assert_eq!(q.finish(2, &perms, begin(&[0, 0], 3)).err(), Some(Fault::RowCount));
    assert_eq!(q.finish(1, &perms, begin(&[0], 4)).err(), Some(Fault::HeadRange));
    assert_eq!(q.finish(0, &perms, begin(&[0], 4)).err(), Some(Fault::ActionRange));
    assert_eq!(actor.finish(2, &perms, begin(&[1], 4)).err(), Some(Fault::AgentRange));
    assert_eq!(actor.finish(2, &perms, begin(&[0, 0], 3)).err(), Some(Fault::RowCount));
    assert_eq!(actor.finish(2, &perms, begin(&[0], 2)).err(), Some(Fault::RowWidth));
    assert_eq!(actor.finish(1, &perms, begin(&[0], 4)).err(), Some(Fault::HeadRange));
    let narrow = PermTable::build(&Swap, 1, 1);
    assert_eq!(actor.finish(2, &narrow, begin(&[0], 4)).err(), Some(Fault::ActionRange));
    assert_eq!(q.finish(2, &perms, begin(&[], 4)).ok().map(|r| r.len()), Some(0));
}

#[test]
fn stored_evaluations_are_validated_to_the_end() {
    let actor = PpoActor::new(Maths);
    let mut buf = Vec::new();
    let e = PpoEvaluation {
        log_probs: nums(&[-0.5, -1.0]),
        value: F(0.25),
        legal: vec![1],
    };
    actor.encode_eval(&e, &mut buf);
    let back: Result<PpoEvaluation<F>, DecodeFault> =
        actor.decode_eval(&mut Reader::new(&buf), 2);
    assert_eq!(back.err(), Some(DecodeFault::LegalWidth));
    let policy = Mcts::new(
        MctsConfig {
            num_simulations: 1,
            uct_c: F(1.0),
            gamma: F(1.0),
            max_depth: 1,
            temperature: F(0.0),
            temperature_drop: 0,
            chance: ONE,
        },
        ActBy::Visits,
        Maths,
    );
    let mut e = told(1, 0);
    e.values = vec![nums(&[0.5])];
    e.visits = nums(&[1.0]);
    e.legal = vec![0];
    let mut buf = Vec::new();
    policy.encode_eval(&e, &mut buf);
    assert!(policy.decode_eval(&mut Reader::new(&buf), 1).is_ok());
    // One head of one value, one visit and one legal action, each counted, before the depth.
    let depth = 4 + (4 + 8) + (4 + 8) + (4 + 8);
    buf[depth + 5] = 1;
    assert_eq!(
        policy.decode_eval(&mut Reader::new(&buf), 1).err(),
        Some(DecodeFault::Depth)
    );
}

#[test]
fn the_version_is_told() {
    assert_eq!(reinfors_core::version(), "0.3.0");
    assert!(reinfors_core::COMPATIBILITY_DOCS.ends_with("compatibility.md"));
}

/// One decision with a gap among its legal actions; nobody acts in a state that is over.
struct SparseShot;
impl Game<F> for SparseShot {
    type State = i32;
    type Event = f64;
    fn num_agents(&self) -> usize {
        1
    }
    fn action_count(&self) -> usize {
        3
    }
    fn copy_state(&self, s: &i32) -> i32 {
        *s
    }
    fn actor(&self, s: &i32) -> Actor {
        assert_eq!(*s, 0, "nobody acts once the game is over");
        Actor::Agent(0)
    }
    fn legal_actions(&self, _: &i32, _: usize) -> Vec<usize> {
        vec![0, 2]
    }
    fn step(&self, s: &i32, _: &[usize]) -> Transition<i32, f64> {
        Transition {
            next_state: s + 1,
            events: vec![None],
            terminal: true,
        }
    }
    fn chance_node(&self, _: &i32) -> ChanceDist<F> {
        ChanceDist::Uniform(1)
    }
    fn apply_chance_node(&self, s: &i32, _: usize) -> Transition<i32, f64> {
        self.step(s, &[])
    }
    fn perfect_information(&self) -> bool {
        true
    }
    fn initial_state(&self) -> i32 {
        0
    }
    fn truncation_horizon(&self) -> Option<usize> {
        None
    }
    fn mark_truncation(&self, _: &i32, _: &mut Vec<(usize, f64)>) {}
}

/// The identity view, which counts how often it is asked.
struct CountingEnc(AtomicUsize);
impl ActionView for CountingEnc {
    fn head_index(&self, action: usize, _: usize) -> usize {
        self.0.fetch_add(1, Ordering::Relaxed);
        action
    }
    fn game_action(&self, head: usize, _: usize) -> usize {
        head
    }
}
impl StateEncoder for CountingEnc {
    type State = i32;
    type Feature = f32;
    fn encode(&self, _: &i32, _: usize) -> Vec<f32> {
        vec![0.0]
    }
    fn obs_shape(&self) -> (usize, usize, usize) {
        (1, 1, 1)
    }
}

#[test]
fn identity_path_pays_one_table_build_not_per_scalar_dispatch() {
    let enc = CountingEnc(AtomicUsize::new(0));
    let policy = EpsilonGreedyQ::new(2, F(0.0));
    // The table is built once, not per decision or per scalar.
    let perms = PermTable::build(&enc, 3, 1);
    let built = enc.0.load(Ordering::Relaxed);
    assert_eq!(built, 3);
    let mut evals = Vec::new();
    for _ in 0..4 {
        let mut search = policy.begin_search(&SparseShot, &enc, &0, &[0]);
        let mut sink: RequestSink<f32> = RequestSink::new(false);
        assert_eq!(policy.round(&mut search, &mut sink), RoundStatus::Pending);
        let rows = nums(&[0.0; 6]);
        policy.absorb(&mut search, RowsView::from_slice(&rows, 6));
        evals.push(policy.finish(3, &perms, search).ok().unwrap());
    }
    assert_eq!(evals.len(), 4);
    assert_eq!(evals[3][0].0.legal, vec![0, 2]);
    assert_eq!(
        enc.0.load(Ordering::Relaxed),
        built,
        "no rebuilds after construction"
    );
}

#[test]
fn a_tick_asks_for_no_actor_once_the_game_is_over() {
    let mut rng = SplitMix64::new(0);
    let tick = step_env(&SparseShot, &0, &[0], &mut rng).ok().unwrap();
    assert_eq!(tick.next_state, 1);
    assert!(tick.terminal);
}

#[test]
fn a_fan_without_chained_chance_keeps_its_order() {
    let game = odd(Actor::Chance);
    let seed = |state: i32, p: f64| FanState {
        state,
        prob: F(p),
        rewards: Vec::new(),
        terminal: false,
        hops: 0,
    };
    let (leaves, chained) =
        flatten_chance_fan(&game, &Quiet, 2, vec![seed(5, 0.2), seed(6, 0.3), seed(7, 0.5)])
            .ok()
            .unwrap();
    assert!(!chained);
    let states: Vec<i32> = leaves.iter().map(|l| l.state).collect();
    assert_eq!(states, vec![5, 6, 7]);
    assert_eq!(leaves[1].prob, F(0.3));
    // Chance behind the second seed: its outcomes stand where it stood.
    let (leaves, chained) =
        flatten_chance_fan(&game, &Quiet, 2, vec![seed(5, 0.2), seed(1, 0.8)])
            .ok()
            .unwrap();
    assert!(chained);
    let states: Vec<i32> = leaves.iter().map(|l| l.state).collect();
    assert_eq!(states, vec![5, 2, 2]);
    assert_eq!(leaves[2].prob, F(0.4));
}

#[test]
fn chance_that_is_redrawn_at_every_visit_is_refused_where_nodes_are_expanded_once() {
    assert!(!SelectiveExpectimax::<F, Maths>::supports_chance_mode(ChanceMode::AlwaysResample));
    assert!(!Minimax::<F, Maths>::supports_chance_mode(ChanceMode::AlwaysResample));
    assert!(SelectiveExpectimax::<F, Maths>::supports_chance_mode(ONE));
    assert!(Minimax::<F, Maths>::supports_chance_mode(ONE));
}
