#![allow(dead_code)]

use reinfors_core::codec::bytes::{DecodeFault, Reader};
use reinfors_core::encoder::{ActionView, IdentityView};
use reinfors_core::fault::Fault;
use reinfors_core::learner::{find_head_maxima, policy_value_tail, sample_mask, Learner, Step};
use reinfors_core::learners::alphazero::{normalized_visits, AlphaZeroLearner, AlphaZeroRecord};
use reinfors_core::learners::dqn::{Dqn, DqnRecord};
use reinfors_core::learners::frame::{to_head_frame, to_head_ids, to_head_row};
use reinfors_core::learners::ppo::{find_slot, Ppo, PpoRecord};
use reinfors_core::learners::treestrap::{TreeStrap, TreeStrapRecord};
use reinfors_core::num::Scalar;
use reinfors_core::policies::modelfree::epsilon_greedy_q::{EpsilonGreedyQ, QEvaluation};
use reinfors_core::policies::modelfree::ppo::{masked_log_probs, PpoActor, PpoEvaluation};
use reinfors_core::policies::tree::evaluation::SearchEvaluation;
use reinfors_core::policies::tree::expectimax::evaluate::Exp;
use reinfors_core::policies::tree::expectimax::tree::SearchStats;
use reinfors_core::policies::tree::mcts::select::Ln;
use reinfors_core::policy::{Policy, Stateless};
use reinfors_core::rng::SplitMix64;

#[derive(Clone, Copy, PartialEq, PartialOrd, Debug)]
struct F(f64);

impl Scalar for F {
    fn zero() -> F {
        F(0.0)
    }
    fn one() -> F {
        F(1.0)
    }
    fn lowest() -> F {
        F(f64::NEG_INFINITY)
    }
    fn highest() -> F {
        F(f64::INFINITY)
    }
    fn count(n: u64) -> F {
        F(n as f64)
    }
    fn plus(self, rhs: F) -> F {
        F(self.0 + rhs.0)
    }
    fn minus(self, rhs: F) -> F {
        F(self.0 - rhs.0)
    }
    fn times(self, rhs: F) -> F {
        F(self.0 * rhs.0)
    }
    fn over(self, rhs: F) -> F {
        F(self.0 / rhs.0)
    }
    fn negated(self) -> F {
        F(-self.0)
    }
    fn root(self) -> F {
        F(self.0.sqrt())
    }
    fn less(self, rhs: F) -> bool {
        self.0 < rhs.0
    }
    fn at_most(self, rhs: F) -> bool {
        self.0 <= rhs.0
    }
    fn same(self, rhs: F) -> bool {
        self.0 == rhs.0
    }
    fn larger(self, rhs: F) -> F {
        F(self.0.max(rhs.0))
    }
    fn smaller(self, rhs: F) -> F {
        F(self.0.min(rhs.0))
    }
    fn is_finite(self) -> bool {
        self.0.is_finite()
    }
    fn is_number(self) -> bool {
        !self.0.is_nan()
    }
    fn index(self) -> usize {
        self.0 as usize
    }
    fn bits(self) -> u64 {
        self.0.to_bits()
    }
    fn from_bits(bits: u64) -> F {
        F(f64::from_bits(bits))
    }
}

fn nums(xs: &[f64]) -> Vec<F> {
    xs.iter().map(|&x| F(x)).collect()
}

fn plain(xs: &[F]) -> Vec<f64> {
    xs.iter().map(|x| x.0).collect()
}

struct Maths;
impl Exp<F> for Maths {
    fn exp(&self, x: F) -> F {
        F(x.0.exp())
    }
}
impl Ln<F> for Maths {
    fn ln(&self, x: F) -> F {
        F(x.0.ln())
    }
}

struct Rot;
impl ActionView for Rot {
    fn head_index(&self, action: usize, _: usize) -> usize {
        (action + 1) % 3
    }
    fn game_action(&self, head: usize, _: usize) -> usize {
        (head + 2) % 3
    }
}

fn rows(xs: &[&[f64]]) -> Vec<Vec<F>> {
    xs.iter().map(|r| nums(r)).collect()
}

fn searched(values: Vec<Vec<F>>) -> SearchEvaluation<F> {
    SearchEvaluation {
        values,
        visits: Vec::new(),
        legal: (0..3).collect(),
        stats: SearchStats::default(),
    }
}

fn strap_evals<V: ActionView>(
    learner: &TreeStrap<F>,
    e: &SearchEvaluation<F>,
    interior: Vec<(Vec<f32>, Vec<Vec<F>>)>,
    view: &V,
    seed: u64,
) -> Result<Vec<TreeStrapRecord<f32, F>>, Fault> {
    learner.eval_records(e, interior, view, 0, &mut SplitMix64::new(seed))
}

fn strap_episode<V: ActionView>(
    learner: &TreeStrap<F>,
    steps: &Vec<Step<f32, F, SearchEvaluation<F>>>,
    tail: &[F],
    view: &V,
    seed: u64,
) -> Result<Vec<TreeStrapRecord<f32, F>>, Fault> {
    learner.episode_records(steps, tail, view, 0, &mut SplitMix64::new(seed))
}

fn two_targets() -> Vec<(Vec<f32>, Vec<Vec<F>>)> {
    vec![
        (
            vec![1.0f32, 2.0],
            rows(&[&[0.1, 0.2, 0.3], &[0.4, 0.5, 0.6]]),
        ),
        (
            vec![3.0f32, 4.0],
            rows(&[&[0.7, 0.8, 0.9], &[1.0, 1.1, 1.2]]),
        ),
    ]
}

fn drains_interior_and_masks_each(learner: TreeStrap<F>) {
    let e = searched(rows(&[&[0.0; 3], &[0.0; 3]]));
    let recs = strap_evals(&learner, &e, two_targets(), &IdentityView, 5).ok().unwrap();
    assert_eq!(recs.len(), 2);
    let interior = two_targets();
    let mut rng = SplitMix64::new(5);
    for (i, (obs, values, mask, _player)) in recs.iter().enumerate() {
        assert_eq!(*obs, interior[i].0);
        assert_eq!(*values, interior[i].1);
        assert_eq!(*mask, sample_mask(&mut rng, 2, F(0.7)));
    }
}

#[test]
fn treestrap_eval_records_drains_interior_and_masks_each() {
    drains_interior_and_masks_each(TreeStrap::new(F(0.99), F(0.3), F(0.7), true));
}

#[test]
fn algo_eval_records_drains_interior_and_masks_each() {
    drains_interior_and_masks_each(TreeStrap {
        gamma: F(0.99),
        outcome_weight: F(0.3),
        bootstrap_p: F(0.7),
        interior_targets: true,
    });
}

fn match_blend_plus_mask(learner: TreeStrap<F>) {
    let steps: Vec<Step<f32, F, SearchEvaluation<F>>> = (0..3)
        .map(|t| Step {
            obs: vec![t as f32; 4],
            evaluation: searched(vec![vec![F(0.1 * t as f64); 3], vec![F(0.2 * t as f64); 3]]),
            action: t % 3,
            reward: F(t as f64),
            next_obs: Vec::new(),
            next_legal: Vec::new(),
            terminal: false,
        })
        .collect();
    let tail = nums(&[0.5, -0.5]);
    let recs = strap_episode(&learner, &steps, &tail, &IdentityView, 9).ok().unwrap();
    let traj: Vec<(Vec<Vec<F>>, usize, F)> = steps
        .iter()
        .map(|s| (s.evaluation.values.clone(), s.action, s.reward))
        .collect();
    let blended = TreeStrap::blend_outcome_targets(&traj, F(0.99), F(0.3), &tail)
        .ok()
        .unwrap();
    let mut rng = SplitMix64::new(9);
    assert_eq!(recs.len(), 3);
    for ((obs, target, mask, _player), (step, exp_target)) in
        recs.iter().zip(steps.iter().zip(blended))
    {
        assert_eq!(*obs, step.obs);
        assert_eq!(*target, exp_target);
        assert_eq!(*mask, sample_mask(&mut rng, 2, F(0.8)));
    }
}

#[test]
fn treestrap_episode_records_match_blend_plus_mask() {
    match_blend_plus_mask(TreeStrap::new(F(0.99), F(0.3), F(0.8), false));
}

#[test]
fn algo_episode_records_match_blend_plus_mask() {
    match_blend_plus_mask(TreeStrap {
        gamma: F(0.99),
        outcome_weight: F(0.3),
        bootstrap_p: F(0.8),
        interior_targets: false,
    });
}

fn mixes_only_the_executed_action() {
    let values = rows(&[&[1.0, 2.0, 3.0], &[4.0, 5.0, 6.0]]);
    let traj = vec![(values, 1usize, F(10.0))];
    let blended = TreeStrap::blend_outcome_targets(&traj, F(0.9), F(0.25), &nums(&[0.0, 0.0]))
        .ok()
        .unwrap();
    assert!((blended[0][0][1].0 - (0.75 * 2.0 + 0.25 * 10.0)).abs() < 1e-12);
    assert!((blended[0][1][1].0 - (0.75 * 5.0 + 0.25 * 10.0)).abs() < 1e-12);
    assert_eq!(blended[0][0][0], F(1.0));
    assert_eq!(blended[0][1][2], F(6.0));
}

#[test]
fn treestrap_blend_outcome_targets_mixes_only_the_executed_action() {
    mixes_only_the_executed_action();
}

#[test]
fn algo_blend_outcome_targets_mixes_only_the_executed_action() {
    mixes_only_the_executed_action();
}

#[test]
fn blending_needs_the_action_and_a_return_for_each_head() {
    let values = rows(&[&[1.0, 2.0], &[3.0, 4.0]]);
    let short = TreeStrap::blend_outcome_targets(
        &[(values.clone(), 0usize, F(1.0))],
        F(1.0),
        F(0.5),
        &nums(&[0.0]),
    );
    assert_eq!(short, Err(Fault::HeadCount));
    let wild = TreeStrap::blend_outcome_targets(
        &[(values.clone(), 2usize, F(1.0))],
        F(1.0),
        F(0.5),
        &nums(&[0.0, 0.0]),
    );
    assert_eq!(wild, Err(Fault::ActionRange));
    let unweighted = TreeStrap::blend_outcome_targets(
        &[(values.clone(), 2usize, F(1.0))],
        F(1.0),
        F(0.0),
        &[],
    );
    assert_eq!(unweighted, Ok(vec![values]));
}

fn tail_tracks_outcome_weight(weight: f64) -> bool {
    let learner = TreeStrap::new(F(0.99), F(weight), F(1.0), false);
    <TreeStrap<F> as Learner<F, f32, SearchEvaluation<F>, IdentityView>>::uses_episode_tail(&learner)
}

#[test]
fn treestrap_uses_episode_tail_tracks_outcome_weight() {
    assert!(tail_tracks_outcome_weight(0.3));
    assert!(!tail_tracks_outcome_weight(0.0));
}

#[test]
fn algo_uses_episode_tail_tracks_outcome_weight() {
    assert!(tail_tracks_outcome_weight(0.3));
    assert!(!tail_tracks_outcome_weight(0.0));
}

fn wants_interior(learner: &TreeStrap<F>) -> bool {
    <TreeStrap<F> as Learner<F, f32, SearchEvaluation<F>, IdentityView>>::needs_interior(learner)
}

#[test]
fn needs_interior_tracks_the_flag() {
    assert!(wants_interior(&TreeStrap::new(F(0.99), F(0.3), F(1.0), true)));
    assert!(!wants_interior(&TreeStrap::new(F(0.99), F(0.3), F(1.0), false)));
}

#[test]
fn interior_targets_scatter_into_the_head_frame() {
    let learner = TreeStrap::new(F(0.99), F(0.0), F(1.0), true);
    let interior = vec![(
        vec![1.0f32],
        rows(&[&[0.1, 0.2, 0.3], &[0.4, 0.5, 0.6]]),
    )];
    let e = searched(vec![nums(&[0.0; 3]); 2]);
    let recs = strap_evals(&learner, &e, interior, &Rot, 0).ok().unwrap();
    assert_eq!(recs[0].1, rows(&[&[0.3, 0.1, 0.2], &[0.6, 0.4, 0.5]]));
}

#[test]
fn episode_targets_blend_in_game_frame_then_scatter() {
    let learner = TreeStrap::new(F(1.0), F(1.0), F(1.0), false);
    let steps = vec![Step {
        obs: vec![0.0f32],
        evaluation: searched(rows(&[&[0.1, 0.2, 0.3]])),
        action: 1,
        reward: F(2.0),
        next_obs: Vec::new(),
        next_legal: Vec::new(),
        terminal: true,
    }];
    let recs = strap_episode(&learner, &steps, &[], &Rot, 0).ok().unwrap();
    assert_eq!(recs[0].1, rows(&[&[0.3, 0.1, 2.0]]));
}

#[test]
fn an_evaluation_without_values_is_a_fault() {
    let learner = TreeStrap::new(F(1.0), F(1.0), F(1.0), true);
    let steps = vec![Step {
        obs: vec![0.0f32],
        evaluation: searched(Vec::new()),
        action: 0,
        reward: F(0.0),
        next_obs: Vec::new(),
        next_legal: Vec::new(),
        terminal: false,
    }];
    assert_eq!(
        strap_episode(&learner, &steps, &[], &IdentityView, 0),
        Err(Fault::NoValues)
    );
    let e = searched(Vec::new());
    assert_eq!(
        strap_evals(&learner, &e, vec![(vec![1.0], Vec::new())], &IdentityView, 0),
        Err(Fault::NoValues)
    );
    assert_eq!(strap_evals(&learner, &e, Vec::new(), &IdentityView, 0), Ok(Vec::new()));
    assert_eq!(
        strap_episode(&learner, &Vec::new(), &[], &IdentityView, 0),
        Ok(Vec::new())
    );
}

#[test]
fn frames_reject_what_they_cannot_place() {
    assert_eq!(to_head_row(&nums(&[1.0, 2.0]), &[1], false), Err(Fault::ActionRange));
    assert_eq!(to_head_row(&nums(&[1.0, 2.0]), &[2, 0], false), Err(Fault::HeadRange));
    assert_eq!(to_head_ids(&[0, 2], &[1, 0], false), Err(Fault::ActionRange));
    assert_eq!(to_head_ids(&[0, 2], &[0, 1], true), Ok(vec![0, 2]));
    assert_eq!(
        to_head_frame(&rows(&[&[1.0, 2.0]]), &[1, 0], false),
        Ok(rows(&[&[2.0, 1.0]]))
    );
}

#[test]
fn masks_are_bernoulli_by_head() {
    let mut rng = SplitMix64::new(1);
    assert_eq!(sample_mask(&mut rng, 3, F(1.0)), nums(&[1.0; 3]));
    assert_eq!(sample_mask(&mut rng, 3, F(0.0)), nums(&[0.0; 3]));
}

#[test]
fn q_tails_take_each_heads_best_legal_entry() {
    let row = nums(&[1.0, 9.0, 3.0, 4.0, 8.0, 2.0]);
    assert_eq!(
        find_head_maxima(&row, 3, &[0, 2], &IdentityView, 0),
        Ok(nums(&[3.0, 4.0]))
    );
    assert_eq!(
        find_head_maxima(&row, 3, &[0, 2], &Rot, 0),
        Ok(nums(&[9.0, 8.0]))
    );
    assert_eq!(find_head_maxima(&row, 0, &[0], &IdentityView, 0), Err(Fault::ActionRange));
    assert_eq!(find_head_maxima(&row, 3, &[3], &IdentityView, 0), Err(Fault::HeadRange));
    assert_eq!(policy_value_tail(&row, 6), Err(Fault::RowWidth));
    let learner = Dqn::new(1, F(1.0), 1, F(0.9));
    assert_eq!(
        Learner::<F, f32, QEvaluation<F>, IdentityView>::tail_from_row(
            &learner,
            &row,
            3,
            &[0, 2],
            &IdentityView,
            0
        ),
        Ok(nums(&[3.0, 4.0]))
    );
}

fn zero_eval(visits: Vec<F>) -> SearchEvaluation<F> {
    let n = visits.len();
    SearchEvaluation {
        values: vec![vec![F(0.0); n]],
        visits,
        legal: (0..n).collect(),
        stats: SearchStats::default(),
    }
}

fn zero_step(visits: &[f64], action: usize, reward: f64) -> Step<f32, F, SearchEvaluation<F>> {
    Step {
        obs: vec![reward as f32; 2],
        evaluation: zero_eval(nums(visits)),
        action,
        reward: F(reward),
        next_obs: Vec::new(),
        next_legal: Vec::new(),
        terminal: false,
    }
}

fn zero_records<V: ActionView>(
    gamma: f64,
    steps: &Vec<Step<f32, F, SearchEvaluation<F>>>,
    tail: &[F],
    view: &V,
    agent: usize,
) -> Vec<AlphaZeroRecord<f32, F>> {
    AlphaZeroLearner::new(F(gamma))
        .episode_records(steps, tail, view, agent, &mut SplitMix64::new(0))
        .ok()
        .unwrap()
}

#[test]
fn pi_is_the_normalized_visit_distribution() {
    let steps = vec![zero_step(&[6.0, 2.0, 0.0], 0, 0.0)];
    let recs = zero_records(1.0, &steps, &[], &IdentityView, 0);
    assert_eq!(recs[0].1, nums(&[0.75, 0.25, 0.0]));
    assert!((recs[0].1.iter().map(|x| x.0).sum::<f64>() - 1.0).abs() < 1e-12);
}

#[test]
fn z_is_the_discounted_return_to_go() {
    let steps = vec![
        zero_step(&[1.0, 1.0], 0, 0.0),
        zero_step(&[1.0, 1.0], 1, 0.0),
        zero_step(&[1.0, 1.0], 0, 1.0),
    ];
    let recs = zero_records(0.5, &steps, &[], &IdentityView, 0);
    let zs: Vec<f64> = recs.iter().map(|r| r.2 .0).collect();
    assert_eq!(zs, vec![0.25, 0.5, 1.0]);
}

#[test]
fn truncation_tail_seeds_z() {
    let steps = vec![zero_step(&[1.0], 0, 0.0), zero_step(&[1.0], 0, 0.0)];
    let recs = zero_records(1.0, &steps, &nums(&[0.8]), &IdentityView, 0);
    assert_eq!(recs.iter().map(|r| r.2 .0).collect::<Vec<f64>>(), vec![0.8, 0.8]);
}

#[test]
fn tail_from_row_reads_the_value_slot() {
    let learner = AlphaZeroLearner::new(F(1.0));
    assert_eq!(
        Learner::<F, f32, SearchEvaluation<F>, IdentityView>::tail_from_row(
            &learner,
            &nums(&[9.0, 9.0, 9.0, 0.4]),
            3,
            &[0, 1, 2],
            &IdentityView,
            0
        ),
        Ok(nums(&[0.4]))
    );
}

#[test]
fn value_only_steps_emit_weight_zero_and_inert_pi() {
    let learner = AlphaZeroLearner::new(F(1.0));
    let evaluation = <AlphaZeroLearner<F> as Learner<
        F,
        f32,
        SearchEvaluation<F>,
        IdentityView,
    >>::value_only_evaluation(&learner, 3)
    .unwrap();
    let vo = Step {
        obs: vec![7.0; 2],
        evaluation,
        action: 0,
        reward: F(2.0),
        next_obs: Vec::new(),
        next_legal: Vec::new(),
        terminal: true,
    };
    let steps = vec![zero_step(&[6.0, 2.0, 0.0], 0, 0.0), vo];
    let recs = zero_records(1.0, &steps, &[], &IdentityView, 1);
    assert_eq!(recs[0].3, F(1.0));
    assert_eq!(recs[1].3, F(0.0));
    assert_eq!(recs[1].1, nums(&[0.0; 3]), "value-only pi is inert zeros");
    assert_eq!(recs[1].2, F(2.0), "the value row carries its own return");
    assert_eq!(recs[0].2, F(2.0), "gamma 1: the mover's z includes it");
    assert_eq!(
        recs[0].5,
        vec![0, 1, 2],
        "mover rows carry the state's legal set"
    );
    assert!(
        recs[1].5.is_empty(),
        "value-only rows have an empty legal set"
    );
}

#[test]
fn no_immediate_records() {
    let learner = AlphaZeroLearner::new(F(1.0));
    let e = zero_eval(nums(&[1.0, 2.0]));
    let none: Result<Vec<AlphaZeroRecord<f32, F>>, Fault> =
        learner.eval_records(&e, Vec::new(), &IdentityView, 0, &mut SplitMix64::new(0));
    assert!(none.ok().unwrap().is_empty());
}

#[test]
fn pi_scatters_into_the_head_frame() {
    let steps = vec![zero_step(&[6.0, 2.0, 0.0], 0, 0.0)];
    let recs = zero_records(1.0, &steps, &[], &Rot, 0);
    assert_eq!(recs[0].1, nums(&[0.0, 0.75, 0.25]));
}

#[test]
fn legal_maps_into_the_head_frame_with_pi() {
    let mut steps = vec![zero_step(&[6.0, 0.0, 2.0], 0, 0.0)];
    steps[0].evaluation.legal = vec![0, 2];
    let recs = zero_records(1.0, &steps, &[], &Rot, 0);
    assert_eq!(recs[0].5, vec![1, 0]);
}

#[test]
fn visits_without_a_total_have_no_shares() {
    assert_eq!(normalized_visits(&nums(&[0.0, 0.0])), nums(&[0.0, 0.0]));
    assert_eq!(normalized_visits(&nums(&[1.0, 3.0])), nums(&[0.25, 0.75]));
}

fn q_step(
    obs: Vec<f32>,
    action: usize,
    reward: f64,
    next_obs: Vec<f32>,
    terminal: bool,
) -> Step<f32, F, QEvaluation<F>> {
    Step {
        obs,
        evaluation: QEvaluation {
            values: vec![nums(&[0.0; 2])],
            legal: vec![0, 1],
        },
        action,
        reward: F(reward),
        next_obs,
        next_legal: Vec::new(),
        terminal,
    }
}

fn q_records(learner: &Dqn<F>, traj: &Vec<Step<f32, F, QEvaluation<F>>>) -> Vec<DqnRecord<f32, F>> {
    learner
        .episode_records(traj, &[], &IdentityView, 0, &mut SplitMix64::new(1))
        .ok()
        .unwrap()
}

#[test]
fn dqn_episode_records_emit_one_masked_transition_per_step() {
    let learner = Dqn::new(3, F(1.0), 1, F(0.99));
    let traj = vec![
        q_step(vec![1.0], 0, 0.5, vec![2.0], false),
        q_step(vec![2.0], 1, -1.0, vec![], true),
    ];
    let recs = q_records(&learner, &traj);
    assert_eq!(recs.len(), 2);
    assert_eq!(recs[0].obs, vec![1.0]);
    assert_eq!(recs[0].action, 0);
    assert_eq!(recs[0].reward, F(0.5));
    assert_eq!(recs[0].next_obs, vec![2.0]);
    assert!(!recs[0].terminal);
    assert_eq!(recs[0].mask, nums(&[1.0, 1.0, 1.0]));
    assert!(recs[1].terminal);
}

fn trunc_step(obs: Vec<f32>, reward: f64, next_obs: Vec<f32>) -> Step<f32, F, QEvaluation<F>> {
    let mut s = q_step(obs, 0, reward, next_obs, false);
    s.next_legal = vec![0, 1];
    s
}

#[test]
fn nstep_windows_sum_hand_derived_returns() {
    let learner = Dqn::new(1, F(1.0), 2, F(0.5));
    let traj = vec![
        q_step(vec![1.0], 0, 1.0, vec![2.0], false),
        q_step(vec![2.0], 1, 2.0, vec![3.0], false),
        q_step(vec![3.0], 0, 4.0, vec![], true),
    ];
    let recs = q_records(&learner, &traj);
    assert_eq!(recs[0].reward, F(2.0));
    assert_eq!(recs[0].next_obs, vec![3.0]);
    assert_eq!(recs[0].discount, F(0.25));
    assert!(!recs[0].terminal);
    assert_eq!(recs[1].reward, F(4.0));
    assert!(recs[1].terminal);
    assert_eq!(recs[1].discount, F(0.0));
    assert!(recs[1].next_legal.is_empty());
    assert_eq!(recs[2].reward, F(4.0));
    assert_eq!(recs[2].discount, F(0.0));
}

#[test]
fn nstep_truncation_tails_shorten_with_matching_discounts() {
    let learner = Dqn::new(1, F(1.0), 3, F(0.5));
    let traj = vec![
        trunc_step(vec![1.0], 1.0, vec![9.0]),
        trunc_step(vec![2.0], 2.0, vec![9.0]),
        trunc_step(vec![3.0], 4.0, vec![9.0]),
    ];
    let recs = q_records(&learner, &traj);
    assert_eq!(recs[0].reward, F(1.0 + 0.5 * 2.0 + 0.25 * 4.0));
    assert_eq!(recs[0].discount, F(0.125));
    assert_eq!(recs[1].reward, F(2.0 + 0.5 * 4.0));
    assert_eq!(recs[1].discount, F(0.25));
    assert_eq!(recs[2].reward, F(4.0));
    assert_eq!(recs[2].discount, F(0.5));
    for r in &recs {
        assert_eq!(
            r.next_obs,
            vec![9.0],
            "all tails bootstrap from the truncated state"
        );
        assert_eq!(r.next_legal, vec![0, 1]);
    }
}

#[test]
fn nstep_larger_than_the_episode_degrades_to_monte_carlo() {
    let learner = Dqn::new(1, F(1.0), 10, F(0.5));
    let traj = vec![
        q_step(vec![1.0], 0, 1.0, vec![2.0], false),
        q_step(vec![2.0], 1, 2.0, vec![], true),
    ];
    let recs = q_records(&learner, &traj);
    assert_eq!(recs[0].reward, F(1.0 + 0.5 * 2.0));
    assert_eq!(recs[0].discount, F(0.0));
    assert_eq!(recs[1].reward, F(2.0));
}

#[test]
fn one_step_matches_the_original_semantics_with_discount_gamma() {
    let learner = Dqn::new(1, F(1.0), 1, F(0.9));
    let traj = vec![
        trunc_step(vec![1.0], 1.0, vec![9.0]),
        trunc_step(vec![2.0], 2.0, vec![9.0]),
    ];
    let recs = q_records(&learner, &traj);
    assert_eq!(recs[0].reward, F(1.0));
    assert_eq!(
        recs[0].next_obs,
        vec![2.0],
        "interior bootstraps from the next decision"
    );
    assert_eq!(recs[0].discount, F(0.9));
    assert_eq!(recs[1].discount, F(0.9));
}

#[test]
fn dqn_learner_declares_transition_needs() {
    let learner = Dqn::new(2, F(0.5), 1, F(0.99));
    assert!(Learner::<F, f32, QEvaluation<F>, IdentityView>::needs_next_obs(&learner));
    assert!(!Learner::<F, f32, QEvaluation<F>, IdentityView>::uses_episode_tail(&learner));
    let none: Result<Vec<DqnRecord<f32, F>>, Fault> = learner.eval_records(
        &QEvaluation {
            values: vec![nums(&[0.0; 2])],
            legal: vec![0, 1],
        },
        Vec::new(),
        &IdentityView,
        0,
        &mut SplitMix64::new(0),
    );
    assert!(none.ok().unwrap().is_empty());
}

#[test]
fn at_least_one_head_and_one_step() {
    let learner = Dqn::new(0, F(1.0), 0, F(0.9));
    let recs = q_records(&learner, &vec![q_step(vec![1.0], 0, 1.0, vec![], true)]);
    assert_eq!(recs[0].mask, nums(&[1.0]));
    assert_eq!(recs[0].reward, F(1.0));
}

#[test]
fn transitions_are_in_the_head_frame() {
    let learner = Dqn::new(1, F(1.0), 1, F(0.9));
    let mut s = trunc_step(vec![1.0], 1.0, vec![9.0]);
    s.action = 2;
    s.evaluation.legal = vec![0, 2];
    let recs: Vec<DqnRecord<f32, F>> = learner
        .episode_records(&vec![s], &[], &Rot, 0, &mut SplitMix64::new(1))
        .ok()
        .unwrap();
    assert_eq!(recs[0].action, 0);
    assert_eq!(recs[0].legal, vec![1, 0]);
    assert_eq!(recs[0].next_legal, vec![1, 2]);
}

fn picks_head_argmax(policy: EpsilonGreedyQ<F>) {
    let eval = QEvaluation {
        values: rows(&[&[3.0, 1.0, 2.0], &[0.0, 1.0, 5.0]]),
        legal: vec![0, 1, 2],
    };
    let mut head = 1;
    assert_eq!(policy.select(&eval, &mut head, &mut SplitMix64::new(0)), Ok(2));
    let mut head0 = 0;
    assert_eq!(policy.select(&eval, &mut head0, &mut SplitMix64::new(0)), Ok(0));
}

#[test]
fn epsilon_greedy_q_select_is_thompson_head_argmax_then_epsilon() {
    picks_head_argmax(EpsilonGreedyQ::new(2, F(0.0)));
}

#[test]
fn dqn_select_is_thompson_head_argmax_then_epsilon() {
    picks_head_argmax(EpsilonGreedyQ::new(2, F(0.0)));
}

#[test]
fn full_epsilon_explores_only_legal_actions() {
    let policy = EpsilonGreedyQ::new(1, F(1.0));
    let eval = QEvaluation {
        values: rows(&[&[3.0, 1.0, 2.0]]),
        legal: vec![0, 2],
    };
    let mut rng = SplitMix64::new(4);
    let mut seen = [0usize; 3];
    for _ in 0..200 {
        seen[policy.select(&eval, &mut 0, &mut rng).ok().unwrap()] += 1;
    }
    assert_eq!(seen[1], 0);
    assert!(seen[0] > 50 && seen[2] > 50);
}

#[test]
fn q_evaluations_round_trip_and_are_validated() {
    let policy = EpsilonGreedyQ::new(2, F(0.0));
    let eval = QEvaluation {
        values: rows(&[&[3.0, 1.0, 2.0], &[0.0, 1.0, 5.0]]),
        legal: vec![0, 2],
    };
    let mut buf = Vec::new();
    policy.encode_eval(&eval, &mut buf);
    let back = policy.decode_eval(&mut Reader::new(&buf), 3).ok().unwrap();
    assert_eq!(back.values, eval.values);
    assert_eq!(back.legal, eval.legal);
    assert_eq!(
        policy.decode_eval(&mut Reader::new(&buf), 4).err(),
        Some(DecodeFault::RowWidth)
    );
    let narrow: EpsilonGreedyQ<F> = EpsilonGreedyQ::new(1, F(0.0));
    assert_eq!(
        narrow.decode_eval(&mut Reader::new(&buf), 3).err(),
        Some(DecodeFault::Heads)
    );
    assert_eq!(
        policy.decode_eval(&mut Reader::new(&buf[..9]), 3).err(),
        Some(DecodeFault::Truncated)
    );
}

fn ppo_step(reward: f64, value: f64, action: usize) -> Step<f32, F, PpoEvaluation<F>> {
    Step {
        obs: vec![value as f32],
        evaluation: PpoEvaluation {
            log_probs: masked_log_probs(&Maths, &nums(&[0.0, 1.0, -1.0]), &[0, 1, 2]),
            value: F(value),
            legal: vec![0, 1, 2],
        },
        action,
        reward: F(reward),
        next_obs: Vec::new(),
        next_legal: Vec::new(),
        terminal: false,
    }
}

fn ppo_records(gamma: f64, lam: f64, tail: &[f64]) -> Vec<PpoRecord<f32, F>> {
    let trajectory = vec![
        ppo_step(0.0, 1.0, 0),
        ppo_step(1.0, 2.0, 1),
        ppo_step(2.0, 0.5, 2),
    ];
    Ppo::new(F(gamma), F(lam))
        .episode_records(
            &trajectory,
            &nums(tail),
            &IdentityView,
            0,
            &mut SplitMix64::new(0),
        )
        .ok()
        .unwrap()
}

#[test]
fn gae_matches_the_hand_derivation_with_a_truncation_tail() {
    let r = ppo_records(0.9, 0.8, &[3.0]);
    let adv: Vec<f64> = r.iter().map(|x| x.advantage.0).collect();
    for (got, want) in adv.iter().zip([2.58128, 2.474, 4.2]) {
        assert!((got - want).abs() < 1e-9, "{adv:?}");
    }
    for x in &r {
        assert!((x.ret.0 - (x.advantage.0 + x.value.0)).abs() < 1e-12);
    }
}

#[test]
fn lambda_endpoints_reduce_to_td_error_and_monte_carlo() {
    let td = ppo_records(0.9, 0.0, &[]);
    let want_td = [0.0 + 0.9 * 2.0 - 1.0, 1.0 + 0.9 * 0.5 - 2.0, 2.0 - 0.5];
    for (x, want) in td.iter().zip(want_td) {
        assert!((x.advantage.0 - want).abs() < 1e-12);
    }
    let mc = ppo_records(0.9, 1.0, &[]);
    let g2 = 2.0;
    let g1 = 1.0 + 0.9 * g2;
    let g0 = 0.0 + 0.9 * g1;
    for (x, g) in mc.iter().zip([g0, g1, g2]) {
        assert!(
            (x.advantage.0 - (g - x.value.0)).abs() < 1e-12,
            "{}",
            x.advantage.0
        );
    }
}

#[test]
fn behavior_log_prob_matches_the_actors_sampling_distribution() {
    let r = ppo_records(1.0, 1.0, &[]);
    let lp = masked_log_probs(&Maths, &nums(&[0.0, 1.0, -1.0]), &[0, 1, 2]);
    assert!((r[1].behavior_log_prob.0 - lp[1].0).abs() < 1e-12);
    let total: f64 = lp.iter().map(|l| l.0.exp()).sum();
    assert!((total - 1.0).abs() < 1e-12);
}

#[test]
fn terminal_and_truncation_seed_the_recursion_differently() {
    let terminal = ppo_records(0.9, 0.8, &[]);
    let truncated = ppo_records(0.9, 0.8, &[3.0]);
    assert!(
        (terminal[2].advantage.0 - 1.5).abs() < 1e-12,
        "terminal: d2 = 2 - 0.5"
    );
    assert!(
        (truncated[2].advantage.0 - 4.2).abs() < 1e-12,
        "truncated: d2 = 2 + 0.9*3 - 0.5"
    );
}

#[test]
fn an_illegal_executed_action_is_a_fault() {
    assert_eq!(find_slot(&[4, 2, 2], 2), Some(1));
    assert_eq!(find_slot(&[4, 2, 2], 3), None);
    let mut s = ppo_step(0.0, 1.0, 0);
    s.evaluation.legal = vec![1, 2];
    let r: Result<Vec<PpoRecord<f32, F>>, Fault> = Ppo::new(F(1.0), F(1.0)).episode_records(
        &vec![s],
        &[],
        &IdentityView,
        0,
        &mut SplitMix64::new(0),
    );
    assert_eq!(r.err(), Some(Fault::IllegalAction));
    let mut s = ppo_step(0.0, 1.0, 2);
    s.evaluation.log_probs = nums(&[0.0]);
    let r: Result<Vec<PpoRecord<f32, F>>, Fault> = Ppo::new(F(1.0), F(1.0)).episode_records(
        &vec![s],
        &[],
        &IdentityView,
        0,
        &mut SplitMix64::new(0),
    );
    assert_eq!(r.err(), Some(Fault::RowWidth));
}

#[test]
fn ppo_bootstraps_every_trajectory_and_fragment() {
    let ppo = Ppo::new(F(1.0), F(1.0));
    assert!(Learner::<F, f32, PpoEvaluation<F>, IdentityView>::uses_episode_tail(&ppo));
    assert!(Learner::<F, f32, PpoEvaluation<F>, IdentityView>::tails_all_trajectories(&ppo));
    assert!(Learner::<F, f32, PpoEvaluation<F>, IdentityView>::bootstraps_fragments(&ppo));
}

#[test]
fn masked_log_probs_normalize_over_legal_only() {
    let lp = masked_log_probs(&Maths, &nums(&[1.0, 50.0, 1.0, 0.0]), &[0, 2, 3]);
    let total: f64 = lp.iter().map(|l| l.0.exp()).sum();
    assert!((total - 1.0).abs() < 1e-12);
    assert!((lp[0].0 - lp[1].0).abs() < 1e-12, "equal logits, equal mass");
    assert!(lp[2].0 < lp[0].0);
}

#[test]
fn selection_frequencies_follow_the_masked_softmax() {
    let eval = PpoEvaluation {
        log_probs: masked_log_probs(&Maths, &nums(&[2.0, 9.0, 0.0]), &[0, 2]),
        value: F(0.0),
        legal: vec![0, 2],
    };
    let policy = PpoActor::new(Maths);
    let mut rng = SplitMix64::new(7);
    let mut counts = [0usize; 3];
    for _ in 0..20_000 {
        counts[policy.select(&eval, &mut Stateless, &mut rng).ok().unwrap()] += 1;
    }
    assert_eq!(counts[1], 0, "illegal action never sampled");
    let frac = counts[0] as f64 / 20_000.0;
    assert!((frac - 0.8808).abs() < 0.01, "got {frac}");
}

#[test]
fn eval_codec_round_trips_and_validates() {
    let policy = PpoActor::new(Maths);
    let eval = PpoEvaluation {
        log_probs: masked_log_probs(&Maths, &nums(&[0.5, -1.0, 2.0]), &[0, 2]),
        value: F(0.25),
        legal: vec![0, 2],
    };
    let mut buf = Vec::new();
    policy.encode_eval(&eval, &mut buf);
    let back: PpoEvaluation<F> = policy.decode_eval(&mut Reader::new(&buf), 3).ok().unwrap();
    assert_eq!(back.log_probs, eval.log_probs);
    assert_eq!(back.value, eval.value);
    assert_eq!(back.legal, eval.legal);
    let narrow: Result<PpoEvaluation<F>, DecodeFault> =
        policy.decode_eval(&mut Reader::new(&buf), 2);
    assert!(narrow.is_err());
}
