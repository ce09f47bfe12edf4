#![allow(dead_code)]


use reinfors_core::encoder::{
    check_action_view, head_permutation, ActionView, IdentityView, PermTable, StateEncoder,
    ViewFault,
};
use reinfors_core::env::Env;
use reinfors_core::fault::Fault;
use reinfors_core::game::{
    realize_initial_state, step_env, Actor, ChanceDist, Game, Rng, Transition, CHANCE_CHAIN_LIMIT,
};
use reinfors_core::num::Scalar;
use reinfors_core::policy::argmax;
use reinfors_core::rng::{dirichlet, normalize, weighted_index, GammaSource, SplitMix64};

#[derive(Clone, Copy, PartialEq, PartialOrd, Debug)]
struct F(f64);

impl Scalar for F {
    fn zero() -> F {
        F(0.0)
    }
    fn one() -> F {
        F(1.0)
    }
    fn lowest() -> F {
        F(f64::NEG_INFINITY)
    }
    fn highest() -> F {
        F(f64::INFINITY)
    }
    fn count(n: u64) -> F {
        F(n as f64)
    }
    fn plus(self, rhs: F) -> F {
        F(self.0 + rhs.0)
    }
    fn minus(self, rhs: F) -> F {
        F(self.0 - rhs.0)
    }
    fn times(self, rhs: F) -> F {
        F(self.0 * rhs.0)
    }
    fn over(self, rhs: F) -> F {
        F(self.0 / rhs.0)
    }
    fn negated(self) -> F {
        F(-self.0)
    }
    fn root(self) -> F {
        F(self.0.sqrt())
    }
    fn less(self, rhs: F) -> bool {
        self.0 < rhs.0
    }
    fn at_most(self, rhs: F) -> bool {
        self.0 <= rhs.0
    }
    fn same(self, rhs: F) -> bool {
        self.0 == rhs.0
    }
    fn larger(self, rhs: F) -> F {
        F(self.0.max(rhs.0))
    }
    fn smaller(self, rhs: F) -> F {
        F(self.0.min(rhs.0))
    }
    fn is_finite(self) -> bool {
        self.0.is_finite()
    }
    fn is_number(self) -> bool {
        !self.0.is_nan()
    }
    fn index(self) -> usize {
        self.0 as usize
    }
    fn bits(self) -> u64 {
        self.0.to_bits()
    }
    fn from_bits(bits: u64) -> F {
        F(f64::from_bits(bits))
    }
}

fn nums(xs: &[f64]) -> Vec<F> {
    xs.iter().map(|&x| F(x)).collect()
}

fn plain(xs: &[F]) -> Vec<f64> {
    xs.iter().map(|x| x.0).collect()
}

struct RotEnc;
impl ActionView for RotEnc {
    fn head_index(&self, action: usize, _agent: usize) -> usize {
        (action + 1) % 3
    }
    fn game_action(&self, head: usize, _agent: usize) -> usize {
        (head + 2) % 3
    }
}

#[test]
fn identity_and_rotation_satisfy_the_view_contract() {
    assert_eq!(check_action_view(&IdentityView, 7, 2), Ok(()));
    assert_eq!(check_action_view(&RotEnc, 3, 2), Ok(()));
}

struct Broken;
impl ActionView for Broken {
    fn head_index(&self, action: usize, _: usize) -> usize {
        (action + 1) % 3
    }
    fn game_action(&self, head: usize, _: usize) -> usize {
        head
    }
}

#[test]
fn check_action_view_catches_a_wrong_inverse() {
    assert_eq!(
        check_action_view(&Broken, 3, 1),
        Err(ViewFault::NotInverse { action: 0, agent: 0 })
    );
}

struct Collapsed;
impl ActionView for Collapsed {
    fn head_index(&self, action: usize, _: usize) -> usize {
        action / 2
    }
    fn game_action(&self, head: usize, _: usize) -> usize {
        head * 2
    }
}

struct Overflowing;
impl ActionView for Overflowing {
    fn head_index(&self, action: usize, _: usize) -> usize {
        action + 1
    }
    fn game_action(&self, head: usize, _: usize) -> usize {
        head - 1
    }
}

#[test]
fn every_view_offence_is_told_apart() {
    assert_eq!(
        check_action_view(&Overflowing, 1, 1),
        Err(ViewFault::OutOfRange { action: 0, agent: 0, head: 1 })
    );
    assert_eq!(
        check_action_view(&Collapsed, 2, 1),
        Err(ViewFault::NotInjective { agent: 0, head: 0 })
    );
}

#[test]
fn permutation_tables_hold_each_agents_frame() {
    assert_eq!(head_permutation(&RotEnc, 3, 0), (vec![1, 2, 0], false));
    assert_eq!(head_permutation(&IdentityView, 3, 0), (vec![0, 1, 2], true));
    let table = PermTable::build(&RotEnc, 3, 2);
    let (perm, identity) = table.get(1);
    assert_eq!(perm.to_vec(), vec![1, 2, 0]);
    assert!(!identity);
}

struct Chainy;
impl Game<F> for Chainy {
    type State = i32;
    type Event = f64;
    fn num_agents(&self) -> usize {
        1
    }
    fn action_count(&self) -> usize {
        1
    }
    fn copy_state(&self, s: &i32) -> i32 {
        *s
    }
    fn actor(&self, s: &i32) -> Actor {
        if (1..=2).contains(s) {
            Actor::Chance
        } else {
            Actor::Agent(0)
        }
    }
    fn legal_actions(&self, s: &i32, _agent: usize) -> Vec<usize> {
        if *s == 0 {
            vec![0]
        } else {
            Vec::new()
        }
    }
    fn step(&self, s: &i32, _actions: &[usize]) -> Transition<i32, f64> {
        assert_eq!(*s, 0, "only the root offers a decision");
        Transition {
            next_state: 1,
            events: vec![Some(1.0)],
            terminal: false,
        }
    }
    fn chance_node(&self, _s: &i32) -> ChanceDist<F> {
        ChanceDist::Uniform(2)
    }
    fn apply_chance_node(&self, s: &i32, outcome: usize) -> Transition<i32, f64> {
        let terminal = *s == 2;
        Transition {
            next_state: s + 1,
            events: vec![if terminal {
                Some(10.0 + outcome as f64)
            } else {
                None
            }],
            terminal,
        }
    }
    fn perfect_information(&self) -> bool {
        true
    }
    fn initial_state(&self) -> i32 {
        0
    }
    fn truncation_horizon(&self) -> Option<usize> {
        None
    }
    fn mark_truncation(&self, _: &i32, _: &mut Vec<(usize, f64)>) {}
}

struct Half(u32);
impl Rng<F> for Half {
    fn below(&mut self, _n: usize) -> usize {
        0
    }
    fn unit(&mut self) -> F {
        self.0 += 1;
        if self.0 % 2 == 0 {
            F(0.75)
        } else {
            F(0.25)
        }
    }
}

#[test]
fn chance_node_chains_realize_within_one_step() {
    let mut rng = Half(0);
    let t = step_env(&Chainy, &0, &[0], &mut rng).ok().unwrap();
    assert!(t.terminal, "the chain runs to terminal inside the tick");
    assert_eq!(t.next_state, 3);
    assert_eq!(t.trace, vec![(0, 1.0), (0, 11.0)]);
}

struct Unit(f64);
impl Rng<F> for Unit {
    fn below(&mut self, _: usize) -> usize {
        0
    }
    fn unit(&mut self) -> F {
        F(self.0)
    }
}

struct Chains {
    chain_len: usize,
    from_birth: bool,
    emit: bool,
}
impl Game<F> for Chains {
    type State = i32;
    type Event = f64;
    fn num_agents(&self) -> usize {
        1
    }
    fn action_count(&self) -> usize {
        1
    }
    fn copy_state(&self, s: &i32) -> i32 {
        *s
    }
    fn actor(&self, s: &i32) -> Actor {
        if (*s as usize) < self.chain_len {
            Actor::Chance
        } else {
            Actor::Agent(0)
        }
    }
    fn legal_actions(&self, s: &i32, _agent: usize) -> Vec<usize> {
        if (*s as usize) >= self.chain_len {
            vec![0]
        } else {
            Vec::new()
        }
    }
    fn step(&self, _s: &i32, _actions: &[usize]) -> Transition<i32, f64> {
        Transition {
            next_state: 0,
            events: vec![None],
            terminal: false,
        }
    }
    fn chance_node(&self, _s: &i32) -> ChanceDist<F> {
        ChanceDist::Uniform(1)
    }
    fn apply_chance_node(&self, s: &i32, _outcome: usize) -> Transition<i32, f64> {
        Transition {
            next_state: s + 1,
            events: vec![if self.emit { Some(1.0) } else { None }],
            terminal: false,
        }
    }
    fn perfect_information(&self) -> bool {
        true
    }
    fn initial_state(&self) -> i32 {
        if self.from_birth {
            0
        } else {
            self.chain_len as i32
        }
    }
    fn truncation_horizon(&self) -> Option<usize> {
        None
    }
    fn mark_truncation(&self, _: &i32, _: &mut Vec<(usize, f64)>) {}
}

#[test]
fn chain_limit_allows_exactly_the_cap() {
    let g = Chains {
        chain_len: CHANCE_CHAIN_LIMIT,
        from_birth: false,
        emit: false,
    };
    let t = step_env(&g, &(g.chain_len as i32), &[0], &mut Unit(0.5)).ok().unwrap();
    assert_eq!(t.next_state as usize, CHANCE_CHAIN_LIMIT);
    let born = realize_initial_state(
        &Chains {
            chain_len: CHANCE_CHAIN_LIMIT,
            from_birth: true,
            emit: false,
        },
        &mut Unit(0.5),
    );
    assert_eq!(born, Ok(CHANCE_CHAIN_LIMIT as i32));
}

#[test]
fn chain_limit_rejects_one_past_the_cap() {
    let g = Chains {
        chain_len: CHANCE_CHAIN_LIMIT + 1,
        from_birth: false,
        emit: false,
    };
    let r = step_env(&g, &(g.chain_len as i32), &[0], &mut Unit(0.5));
    assert_eq!(r.err(), Some(Fault::ChainLimit));
}

#[test]
fn a_cyclic_birth_chain_panics_instead_of_hanging() {
    let r = realize_initial_state(
        &Chains {
            chain_len: usize::MAX,
            from_birth: true,
            emit: false,
        },
        &mut Unit(0.5),
    );
    assert_eq!(r, Err(Fault::ChainLimit));
}

struct BirthArity {
    len: usize,
    terminal: bool,
}
impl Game<F> for BirthArity {
    type State = i32;
    type Event = f64;
    fn num_agents(&self) -> usize {
        2
    }
    fn action_count(&self) -> usize {
        1
    }
    fn copy_state(&self, s: &i32) -> i32 {
        *s
    }
    fn actor(&self, s: &i32) -> Actor {
        if *s == 0 {
            Actor::Chance
        } else {
            Actor::Agent(0)
        }
    }
    fn legal_actions(&self, s: &i32, agent: usize) -> Vec<usize> {
        if *s == 1 && agent == 0 {
            vec![0]
        } else {
            Vec::new()
        }
    }
    fn step(&self, _s: &i32, _actions: &[usize]) -> Transition<i32, f64> {
        Transition {
            next_state: 2,
            events: vec![None, None],
            terminal: true,
        }
    }
    fn chance_node(&self, _s: &i32) -> ChanceDist<F> {
        ChanceDist::Uniform(1)
    }
    fn apply_chance_node(&self, _s: &i32, _outcome: usize) -> Transition<i32, f64> {
        Transition {
            next_state: 1,
            events: vec![None; self.len],
            terminal: self.terminal,
        }
    }
    fn perfect_information(&self) -> bool {
        true
    }
    fn initial_state(&self) -> i32 {
        0
    }
    fn truncation_horizon(&self) -> Option<usize> {
        None
    }
    fn mark_truncation(&self, _: &i32, _: &mut Vec<(usize, f64)>) {}
}

#[test]
fn a_short_birth_event_vector_is_rejected() {
    let r = realize_initial_state(&BirthArity { len: 0, terminal: false }, &mut Unit(0.5));
    assert_eq!(r, Err(Fault::EventArity));
}

#[test]
fn a_long_birth_event_vector_is_rejected() {
    let r = realize_initial_state(&BirthArity { len: 3, terminal: false }, &mut Unit(0.5));
    assert_eq!(r, Err(Fault::EventArity));
}

#[test]
fn a_deal_may_not_decide_the_game() {
    let r = realize_initial_state(&BirthArity { len: 2, terminal: true }, &mut Unit(0.5));
    assert_eq!(r, Err(Fault::BirthTerminal));
    let r = realize_initial_state(&BirthArity { len: 2, terminal: false }, &mut Unit(0.5));
    assert_eq!(r, Ok(1));
}

#[test]
fn a_birth_emission_is_rejected_in_every_build() {
    let r = realize_initial_state(
        &Chains {
            chain_len: 1,
            from_birth: true,
            emit: true,
        },
        &mut Unit(0.5),
    );
    assert_eq!(r, Err(Fault::BirthEvents));
}

struct Short;
impl Game<F> for Short {
    type State = i32;
    type Event = f64;
    fn num_agents(&self) -> usize {
        2
    }
    fn action_count(&self) -> usize {
        1
    }
    fn copy_state(&self, s: &i32) -> i32 {
        *s
    }
    fn actor(&self, _: &i32) -> Actor {
        Actor::Simultaneous
    }
    fn legal_actions(&self, _: &i32, _: usize) -> Vec<usize> {
        vec![0]
    }
    fn step(&self, _: &i32, _: &[usize]) -> Transition<i32, f64> {
        Transition {
            next_state: 1,
            events: vec![Some(1.0)],
            terminal: true,
        }
    }
    fn chance_node(&self, _: &i32) -> ChanceDist<F> {
        unreachable!()
    }
    fn apply_chance_node(&self, _: &i32, _: usize) -> Transition<i32, f64> {
        unreachable!()
    }
    fn perfect_information(&self) -> bool {
        true
    }
    fn initial_state(&self) -> i32 {
        0
    }
    fn truncation_horizon(&self) -> Option<usize> {
        None
    }
    fn mark_truncation(&self, _: &i32, _: &mut Vec<(usize, f64)>) {}
}

#[test]
fn a_short_event_vector_is_rejected() {
    let r = step_env(&Short, &0, &[0, 0], &mut Unit(0.5));
    assert_eq!(r.err(), Some(Fault::EventArity));
}

struct Fanny;
impl Game<F> for Fanny {
    type State = i32;
    type Event = ();
    fn num_agents(&self) -> usize {
        1
    }
    fn action_count(&self) -> usize {
        1
    }
    fn copy_state(&self, s: &i32) -> i32 {
        *s
    }
    fn actor(&self, s: &i32) -> Actor {
        if *s == 1 {
            Actor::Chance
        } else {
            Actor::Agent(0)
        }
    }
    fn legal_actions(&self, s: &i32, _: usize) -> Vec<usize> {
        if *s == 1 {
            Vec::new()
        } else {
            vec![0]
        }
    }
    fn step(&self, _: &i32, _: &[usize]) -> Transition<i32, ()> {
        Transition {
            next_state: 1,
            events: vec![None],
            terminal: false,
        }
    }
    fn chance_node(&self, _: &i32) -> ChanceDist<F> {
        ChanceDist::Weighted(nums(&[0.25, 0.75]))
    }
    fn apply_chance_node(&self, _: &i32, outcome: usize) -> Transition<i32, ()> {
        Transition::silent(10 + 10 * outcome as i32, 1)
    }
    fn perfect_information(&self) -> bool {
        true
    }
    fn initial_state(&self) -> i32 {
        0
    }
    fn truncation_horizon(&self) -> Option<usize> {
        None
    }
    fn mark_truncation(&self, _: &i32, _: &mut Vec<(usize, ())>) {}
}

#[test]
fn realizes_the_declared_distribution() {
    let low = step_env(&Fanny, &0, &[0], &mut Unit(0.1)).ok().unwrap();
    assert_eq!(low.next_state, 10);
    let high = step_env(&Fanny, &0, &[0], &mut Unit(0.9)).ok().unwrap();
    assert_eq!(high.next_state, 20);
    assert!(!low.terminal);
}

struct Det;
impl Game<F> for Det {
    type State = i32;
    type Event = ();
    fn num_agents(&self) -> usize {
        1
    }
    fn action_count(&self) -> usize {
        1
    }
    fn copy_state(&self, s: &i32) -> i32 {
        *s
    }
    fn actor(&self, _: &i32) -> Actor {
        Actor::Agent(0)
    }
    fn legal_actions(&self, _: &i32, _: usize) -> Vec<usize> {
        vec![0]
    }
    fn step(&self, s: &i32, _: &[usize]) -> Transition<i32, ()> {
        Transition {
            next_state: *s + 1,
            events: vec![None],
            terminal: false,
        }
    }
    fn chance_node(&self, _: &i32) -> ChanceDist<F> {
        unreachable!()
    }
    fn apply_chance_node(&self, _: &i32, _: usize) -> Transition<i32, ()> {
        unreachable!()
    }
    fn perfect_information(&self) -> bool {
        true
    }
    fn initial_state(&self) -> i32 {
        0
    }
    fn truncation_horizon(&self) -> Option<usize> {
        None
    }
    fn mark_truncation(&self, _: &i32, _: &mut Vec<(usize, ())>) {}
}

#[test]
fn deterministic_transitions_pass_through() {
    let t = step_env(&Det, &4, &[0], &mut Unit(0.5)).ok().unwrap();
    assert_eq!(t.next_state, 5);
}

#[test]
fn infinite_weight_totals_panic_instead_of_degenerating() {
    let d = ChanceDist::Weighted(nums(&[f64::MAX, f64::MAX]));
    assert_eq!(d.iter_probs(), Err(Fault::WeightTotal));
}

#[test]
fn zero_weight_totals_panic_on_draw() {
    let d = ChanceDist::Weighted(nums(&[0.0, 0.0]));
    assert_eq!(d.draw(&mut Unit(0.5)), Err(Fault::WeightTotal));
}

#[test]
fn iter_probs_normalizes_once_and_matches_both_arms() {
    let w = ChanceDist::Weighted(nums(&[1.0, 3.0]));
    assert_eq!(w.iter_probs(), Ok(nums(&[0.25, 0.75])));
    let u: ChanceDist<F> = ChanceDist::Uniform(4);
    assert_eq!(u.iter_probs(), Ok(nums(&[0.25; 4])));
    assert_eq!(u.count(), 4);
    assert_eq!(u.draw(&mut Unit(0.99)), Ok(3));
    assert_eq!(u.draw(&mut Unit(1.0)), Ok(3));
}

/// A standard normal variate by Box-Muller.
fn normal(rng: &mut SplitMix64) -> f64 {
    let u1 = unit(rng).max(f64::MIN_POSITIVE);
    let u2 = unit(rng);
    (-2.0 * u1.ln()).sqrt() * (std::f64::consts::TAU * u2).cos()
}

fn unit(rng: &mut SplitMix64) -> f64 {
    let u: F = Rng::<F>::unit(rng);
    u.0
}

/// A Gamma(alpha, 1) variate by Marsaglia-Tsang.
fn gamma_sample(rng: &mut SplitMix64, alpha: f64) -> f64 {
    if alpha < 1.0 {
        let u = unit(rng).max(f64::MIN_POSITIVE);
        return gamma_sample(rng, alpha + 1.0) * u.powf(1.0 / alpha);
    }
    let d = alpha - 1.0 / 3.0;
    let c = 1.0 / (9.0 * d).sqrt();
    loop {
        let x = normal(rng);
        let v = (1.0 + c * x).powi(3);
        if v <= 0.0 {
            continue;
        }
        let u = unit(rng).max(f64::MIN_POSITIVE);
        if u < 1.0 - 0.0331 * x.powi(4) || u.ln() < 0.5 * x * x + d * (1.0 - v + v.ln()) {
            return d * v;
        }
    }
}

struct Gammas;
impl GammaSource<F, SplitMix64> for Gammas {
    fn gamma(&self, rng: SplitMix64, alpha: F) -> (F, SplitMix64) {
        let mut rng = rng;
        let x = gamma_sample(&mut rng, alpha.0);
        (F(x), rng)
    }
}

#[test]
fn dirichlet_is_a_distribution_and_deterministic() {
    let (d, _) = dirichlet(&Gammas, SplitMix64::new(42), F(0.3), 7);
    assert_eq!(d.len(), 7);
    assert!(d.iter().all(|x| x.0 >= 0.0));
    assert!((d.iter().map(|x| x.0).sum::<f64>() - 1.0).abs() < 1e-12);
    let (again, _) = dirichlet(&Gammas, SplitMix64::new(42), F(0.3), 7);
    assert_eq!(d, again);
}

#[test]
fn dirichlet_mean_is_uniform_for_symmetric_alpha() {
    let mut rng = SplitMix64::new(7);
    let k = 4;
    let mut mean = vec![0.0; k];
    let n = 2000;
    for _ in 0..n {
        let (d, next) = dirichlet(&Gammas, rng, F(0.3), k);
        rng = next;
        for (m, x) in mean.iter_mut().zip(d) {
            *m += x.0 / n as f64;
        }
    }
    for m in mean {
        assert!((m - 0.25).abs() < 0.02, "mean component {m} far from 1/k");
    }
}

#[test]
fn small_alpha_concentrates_mass() {
    let mut rng = SplitMix64::new(3);
    let mut peaked = 0;
    for _ in 0..200 {
        let (d, next) = dirichlet(&Gammas, rng, F(0.05), 7);
        rng = next;
        if d.iter().map(|x| x.0).fold(0.0, f64::max) > 0.5 {
            peaked += 1;
        }
    }
    assert!(peaked > 170, "only {peaked}/200 draws were peaked");
}

#[test]
fn draws_without_mass_become_uniform() {
    assert_eq!(normalize(&nums(&[0.0, 0.0])), nums(&[0.5, 0.5]));
    assert_eq!(normalize(&nums(&[1.0, 3.0])), nums(&[0.25, 0.75]));
}

#[test]
fn the_generator_is_splitmix_and_resumes_from_its_state() {
    let mut rng = SplitMix64::new(0);
    assert_eq!(rng.next_u64(), 0xE220_A839_7B1D_CDAF);
    assert_eq!(rng.next_u64(), 0x6E78_9E6A_A1B9_65F4);
    let mut resumed = SplitMix64::from_state(rng.state());
    assert_eq!(resumed.next_u64(), rng.next_u64());
    let u: F = Rng::<F>::unit(&mut rng);
    assert!(u.0 >= 0.0 && u.0 < 1.0);
    assert!(Rng::<F>::below(&mut rng, 3) < 3);
}

#[test]
fn a_weighted_draw_skips_entries_without_weight() {
    assert_eq!(weighted_index(&mut Unit(0.0), &nums(&[0.0, 1.0, 0.0])), 1);
    assert_eq!(weighted_index(&mut Unit(0.99), &nums(&[0.0, 1.0, 0.0])), 1);
    assert_eq!(weighted_index(&mut Unit(0.5), &nums(&[1.0, 3.0])), 1);
    assert_eq!(weighted_index(&mut Unit(0.2), &nums(&[1.0, 3.0])), 0);
}

#[test]
fn argmax_takes_the_first_max() {
    assert_eq!(argmax(&nums(&[1.0, 3.0, 3.0, 2.0])), 1);
    assert_eq!(argmax(&nums(&[5.0])), 0);
}

#[test]
fn whole_numbers_are_numbers_too() {
    assert_eq!(5i64.plus(3), 8);
    assert_eq!(<i64 as Scalar>::from_bits(Scalar::bits(-7i64)), -7);
    assert_eq!(argmax(&[1i64, 4, 4]), 1);
}

struct Walk {
    goal: i32,
}
impl Game<F> for Walk {
    type State = i32;
    type Event = f64;
    fn num_agents(&self) -> usize {
        1
    }
    fn action_count(&self) -> usize {
        2
    }
    fn copy_state(&self, s: &i32) -> i32 {
        *s
    }
    fn actor(&self, _: &i32) -> Actor {
        Actor::Agent(0)
    }
    fn legal_actions(&self, pos: &i32, agent: usize) -> Vec<usize> {
        if agent == 0 && *pos < self.goal {
            vec![0, 1]
        } else {
            Vec::new()
        }
    }
    fn step(&self, pos: &i32, actions: &[usize]) -> Transition<i32, f64> {
        let next = pos + actions[0] as i32;
        let terminal = next >= self.goal;
        Transition {
            next_state: next,
            events: vec![Some(if terminal { 1.0 } else { 0.0 })],
            terminal,
        }
    }
    fn chance_node(&self, _: &i32) -> ChanceDist<F> {
        unreachable!()
    }
    fn apply_chance_node(&self, _: &i32, _: usize) -> Transition<i32, f64> {
        unreachable!()
    }
    fn perfect_information(&self) -> bool {
        true
    }
    fn initial_state(&self) -> i32 {
        0
    }
    fn truncation_horizon(&self) -> Option<usize> {
        None
    }
    fn mark_truncation(&self, _: &i32, _: &mut Vec<(usize, f64)>) {}
}

struct PosEncoder;
impl ActionView for PosEncoder {
    fn head_index(&self, action: usize, _: usize) -> usize {
        action
    }
    fn game_action(&self, head: usize, _: usize) -> usize {
        head
    }
}
impl StateEncoder for PosEncoder {
    type State = i32;
    type Feature = f32;
    fn encode(&self, pos: &i32, _: usize) -> Vec<f32> {
        vec![*pos as f32]
    }
    fn obs_shape(&self) -> (usize, usize, usize) {
        (1, 1, 1)
    }
}

fn env() -> Env<F, Walk, PosEncoder> {
    Env::new(Walk { goal: 3 }, PosEncoder, 0).ok().unwrap()
}

#[test]
fn steps_to_terminal_and_reports_done_and_event() {
    let mut e = env();
    assert!(!e.done() && e.active_agents() == vec![0]);
    assert_eq!((e.num_agents(), e.action_count()), (1, 2));
    assert_eq!(e.observe(0), vec![0.0]);
    assert_eq!(e.step(&[1]), Ok(vec![(0, 0.0)]));
    assert_eq!(e.step(&[1]), Ok(vec![(0, 0.0)]));
    assert_eq!(e.legal_actions(0), vec![0, 1]);
    assert_eq!(e.step(&[1]), Ok(vec![(0, 1.0)]));
    assert!(e.done());
    assert!(e.active_agents().is_empty());
    assert_eq!(*e.state(), 3);
}

#[test]
fn reset_starts_a_fresh_episode() {
    let mut e = env();
    assert!(e.step(&[1]).is_ok());
    assert!(e.step(&[1]).is_ok());
    assert_eq!(e.reset(), Ok(()));
    assert!(!e.done() && *e.state() == 0 && e.observe(0) == vec![0.0]);
}

#[test]
fn an_undealable_game_makes_no_environment() {
    struct Plain;
    impl ActionView for Plain {
        fn head_index(&self, action: usize, _: usize) -> usize {
            action
        }
        fn game_action(&self, head: usize, _: usize) -> usize {
            head
        }
    }
    impl StateEncoder for Plain {
        type State = i32;
        type Feature = f32;
        fn encode(&self, _: &i32, _: usize) -> Vec<f32> {
            Vec::new()
        }
        fn obs_shape(&self) -> (usize, usize, usize) {
            (0, 0, 0)
        }
    }
    let made: Result<Env<F, BirthArity, Plain>, Fault> =
        Env::new(BirthArity { len: 3, terminal: false }, Plain, 0);
    assert_eq!(made.err(), Some(Fault::EventArity));
}
