//! Which action a policy takes on what it was told.

use vstd::prelude::*;

#[allow(unused_imports)]
use crate::draws::{law_actions_fall_by_probability, made_up};
#[allow(unused_imports)]
use crate::fault::Fault;
#[allow(unused_imports)]
use crate::game::Rng;
#[allow(unused_imports)]
use crate::num::{ring, weakly_ordered, Scalar};
#[allow(unused_imports)]
use crate::policies::modelfree::epsilon_greedy_q::{EpsilonGreedyQ, QModel};
#[allow(unused_imports)]
use crate::policies::modelfree::ppo::{actor_choice, legal_at, PpoActor, PpoModel};
#[allow(unused_imports)]
use crate::policies::tree::alphazero::{puct, AlphaZero, AlphaZeroConfig};
#[allow(unused_imports)]
use crate::policies::tree::evaluation::EvaluationModel;
#[allow(unused_imports)]
use crate::policies::tree::expectimax::evaluate::{exps_of, Exp};
#[allow(unused_imports)]
use crate::policies::tree::expectimax::policy::SelectiveExpectimax;
#[allow(unused_imports)]
use crate::policies::tree::expectimax::tree::Opponent;
#[allow(unused_imports)]
use crate::policies::tree::mcts::act::{
    law_weight_picked, peak, visit_weights, visits_sampled, weight_picked, Pow,
};
#[allow(unused_imports)]
use crate::policies::tree::mcts::policy::{ActBy, Mcts, NoiseScope};
#[allow(unused_imports)]
use crate::policies::tree::mcts::select::Guidance;
#[allow(unused_imports)]
use crate::policies::tree::minimax::{minimax_config, Minimax};
#[allow(unused_imports)]
use crate::policy::{law_argmax, law_best_legal, spec_argmax, ChanceMode, Policy, Stateless};
#[allow(unused_imports)]
use crate::rng::SplitMix64;

verus! {

/// Every legal action has a number in the row.
pub open spec fn rated<N: Scalar>(row: Seq<N>, legal: Seq<usize>) -> bool {
    &&& 0 < legal.len() <= usize::MAX
    &&& forall|i: int|
        0 <= i < legal.len() ==> #[trigger] legal[i] < row.len()
            && row[legal[i] as int].spec_is_number()
}

/// A legal action that no legal one is rated above.
pub open spec fn best_rated<N: Scalar>(row: Seq<N>, legal: Seq<usize>, action: usize) -> bool {
    &&& legal.contains(action)
    &&& forall|i: int|
        0 <= i < legal.len() ==> !row[action as int].spec_less(row[#[trigger] legal[i] as int])
}

/// Minimax takes a legal action that its search values no less than any other, and leaves nothing to
/// chance.
pub proof fn law_minimax_takes_the_best<N: Scalar, X>(
    policy: Minimax<N, X>,
    eval: EvaluationModel<N>,
    state: Stateless,
    rng: SplitMix64,
    action: usize,
    next_state: Stateless,
    next_rng: SplitMix64,
)
    requires
        weakly_ordered::<N>(),
        eval.values.len() > 0,
        rated(eval.values[0], eval.legal),
        <Minimax<N, X> as Policy<N>>::selects(
            &policy,
            eval,
            state,
            rng,
            action,
            next_state,
            next_rng,
        ),
    ensures
        best_rated(eval.values[0], eval.legal, action),
        next_rng == rng,
{
    law_best_legal(eval.values[0], eval.legal);
}

/// Expectimax takes a legal action that the episode's head values no less than any other; where there
/// is a chance to explore and a draw falls below it, any legal one. It keeps its head.
pub proof fn law_expectimax_trusts_its_head<N: Scalar, X>(
    policy: SelectiveExpectimax<N, X>,
    eval: EvaluationModel<N>,
    head: usize,
    rng: SplitMix64,
    action: usize,
    next_head: usize,
    next_rng: SplitMix64,
)
    requires
        weakly_ordered::<N>(),
        head < eval.values.len(),
        rated(eval.values[head as int], eval.legal),
        <SelectiveExpectimax<N, X> as Policy<N>>::selects(
            &policy,
            eval,
            head,
            rng,
            action,
            next_head,
            next_rng,
        ),
    ensures
        next_head == head,
        eval.legal.contains(action),
        ({
            let unit = <SplitMix64 as Rng<N>>::spec_unit(rng);
            let explores = N::spec_zero().spec_less(policy.epsilon);
            &&& !explores ==> best_rated(eval.values[head as int], eval.legal, action) && next_rng
                == rng
            &&& explores && !unit.0.spec_less(policy.epsilon) ==> best_rated(
                eval.values[head as int],
                eval.legal,
                action,
            ) && next_rng == unit.1
        }),
{
    law_best_legal(eval.values[head as int], eval.legal);
    assert(eval.legal.len() > 0);
    let unit = <SplitMix64 as Rng<N>>::spec_unit(rng);
    let i = <SplitMix64 as Rng<N>>::spec_below(unit.1, eval.legal.len() as usize).0;
    assert(i < eval.legal.len());
    assert(eval.legal.contains(eval.legal[i as int]));
}

/// Acting on values takes a legal action that the episode's head values no less than any other; where
/// there is a chance to explore and a draw falls below it, any legal one. It keeps its head.
pub proof fn law_values_trust_their_head<N: Scalar>(
    policy: EpsilonGreedyQ<N>,
    eval: QModel<N>,
    head: usize,
    rng: SplitMix64,
    action: usize,
    next_head: usize,
    next_rng: SplitMix64,
)
    requires
        weakly_ordered::<N>(),
        head < eval.values.len(),
        rated(eval.values[head as int], eval.legal),
        <EpsilonGreedyQ<N> as Policy<N>>::selects(
            &policy,
            eval,
            head,
            rng,
            action,
            next_head,
            next_rng,
        ),
    ensures
        next_head == head,
        eval.legal.contains(action),
        ({
            let unit = <SplitMix64 as Rng<N>>::spec_unit(rng);
            let explores = N::spec_zero().spec_less(policy.epsilon);
            &&& !explores ==> best_rated(eval.values[head as int], eval.legal, action) && next_rng
                == rng
            &&& explores && !unit.0.spec_less(policy.epsilon) ==> best_rated(
                eval.values[head as int],
                eval.legal,
                action,
            ) && next_rng == unit.1
        }),
{
    law_best_legal(eval.values[head as int], eval.legal);
    let unit = <SplitMix64 as Rng<N>>::spec_unit(rng);
    let i = <SplitMix64 as Rng<N>>::spec_below(unit.1, eval.legal.len() as usize).0;
    assert(i < eval.legal.len());
    assert(eval.legal.contains(eval.legal[i as int]));
}

/// A policy actor draws once, and takes the first legal action at which the probabilities so far, its
/// own included, make up the draw; the likeliest where none does. The probabilities are the
/// exponentials of the log-probabilities.
pub proof fn law_actors_act_by_probability<N: Scalar, K: Exp<N>>(
    policy: PpoActor<K>,
    eval: PpoModel<N>,
    state: Stateless,
    rng: SplitMix64,
    action: usize,
    next_state: Stateless,
    next_rng: SplitMix64,
) -> (probs: Seq<N>)
    requires
        ring::<N>(),
        eval.legal.len() == eval.log_probs.len(),
        <PpoActor<K> as Policy<N>>::selects(
            &policy,
            eval,
            state,
            rng,
            action,
            next_state,
            next_rng,
        ),
    ensures
        exps_of(policy.maths, eval.log_probs, probs),
        next_rng == <SplitMix64 as Rng<N>>::spec_unit(rng).1,
        ({
            let draw = <SplitMix64 as Rng<N>>::spec_unit(rng).0;
            ||| exists|p: int|
                0 <= p < probs.len() && #[trigger] made_up(probs, draw, p) && action
                    == eval.legal[p] && forall|j: int|
                    0 <= j < p ==> !#[trigger] made_up(probs, draw, j)
            ||| (forall|j: int| 0 <= j < probs.len() ==> !#[trigger] made_up(probs, draw, j))
                && Ok::<_, Fault>(action) == legal_at(
                eval.legal,
                spec_argmax(eval.log_probs, eval.log_probs.len()),
            )
        }),
{
    let draw = <SplitMix64 as Rng<N>>::spec_unit(rng).0;
    let probs = choose|probs: Seq<N>| #[trigger]
        exps_of(policy.maths, eval.log_probs, probs) && actor_choice(eval, probs, draw) == Ok::<
            _,
            Fault,
        >(action);
    law_actions_fall_by_probability(eval, probs, draw);
    probs
}

/// What an action that was sampled by visits is: one that was visited, where any weight is above
/// nothing.
proof fn lemma_sampled_is_visited<N: Scalar, P: Pow<N>>(
    pow: P,
    visits: Seq<N>,
    temperature: N,
    rng: SplitMix64,
    action: usize,
    next: SplitMix64,
) -> (w: Seq<N>)
    requires
        weakly_ordered::<N>(),
        N::spec_zero().spec_is_number(),
        visits_sampled(pow, visits, temperature, rng, action, next),
        !peak(visits).spec_at_most(N::spec_zero()),
    ensures
        visit_weights(pow, visits, temperature, w),
        next == <SplitMix64 as Rng<N>>::spec_unit(rng).1,
        (forall|i: int| 0 <= i < w.len() ==> (#[trigger] w[i]).spec_is_number()) && (exists|i: int|
            0 <= i < w.len() && N::spec_zero().spec_less(#[trigger] w[i])) ==> action
            < visits.len() && N::spec_zero().spec_less(visits[action as int]),
{
    let w = choose|w: Seq<N>|
        visit_weights(pow, visits, temperature, w) && action == #[trigger] weight_picked(
            w,
            <SplitMix64 as Rng<N>>::spec_unit(rng).0,
        );
    if (forall|i: int| 0 <= i < w.len() ==> (#[trigger] w[i]).spec_is_number()) && (exists|i: int|
        0 <= i < w.len() && N::spec_zero().spec_less(#[trigger] w[i])) {
        law_weight_picked(w, <SplitMix64 as Rng<N>>::spec_unit(rng).0);
        assert(N::spec_zero().spec_less(w[action as int]));
        if !N::spec_zero().spec_less(visits[action as int]) {
            assert(w[action as int] == N::spec_zero());
        }
    }
    w
}

/// After its opening, or where it has no temperature, search by visits takes the first action that
/// none was visited more often than, and leaves nothing to chance; in its opening it draws once, and
/// takes an action that was visited. Either way a ply is counted.
pub proof fn law_alphazero_follows_visits<N: Scalar, K: Pow<N>>(
    policy: AlphaZero<N, K>,
    eval: EvaluationModel<N>,
    ply: u32,
    rng: SplitMix64,
    action: usize,
    next_ply: u32,
    next_rng: SplitMix64,
) -> (w: Seq<N>)
    requires
        weakly_ordered::<N>(),
        N::spec_zero().spec_is_number(),
        0 < eval.visits.len() <= usize::MAX,
        forall|i: int| 0 <= i < eval.visits.len() ==> (#[trigger] eval.visits[i]).spec_is_number(),
        <AlphaZero<N, K> as Policy<N>>::selects(
            &policy,
            eval,
            ply,
            rng,
            action,
            next_ply,
            next_rng,
        ),
    ensures
        next_ply == ply + 1,
        ({
            let opening = N::spec_zero().spec_less(policy.cfg.temperature) && ply
                < policy.cfg.temperature_drop;
            &&& !opening ==> {
                &&& action < eval.visits.len()
                &&& forall|i: int|
                    0 <= i < eval.visits.len() ==> !eval.visits[action as int].spec_less(
                        #[trigger] eval.visits[i],
                    )
                &&& next_rng == rng
            }
            &&& opening && !peak(eval.visits).spec_at_most(N::spec_zero()) ==> {
                &&& visit_weights(policy.maths, eval.visits, policy.cfg.temperature, w)
                &&& next_rng == <SplitMix64 as Rng<N>>::spec_unit(rng).1
                &&& (forall|i: int| 0 <= i < w.len() ==> (#[trigger] w[i]).spec_is_number()) && (
                exists|i: int| 0 <= i < w.len() && N::spec_zero().spec_less(#[trigger] w[i]))
                    ==> action < eval.visits.len() && N::spec_zero().spec_less(
                    eval.visits[action as int],
                )
            }
        }),
{
    let opening = N::spec_zero().spec_less(policy.cfg.temperature) && ply
        < policy.cfg.temperature_drop;
    if !opening {
        law_argmax(eval.visits, eval.visits.len());
        Seq::empty()
    } else if !peak(eval.visits).spec_at_most(N::spec_zero()) {
        lemma_sampled_is_visited(
            policy.maths,
            eval.visits,
            policy.cfg.temperature,
            rng,
            action,
            next_rng,
        )
    } else {
        Seq::empty()
    }
}

/// After its opening, or where it has no temperature, a search acts on what it is told to: it takes a
/// legal action that none was visited more often than, or that its search values no less than any
/// other, and leaves nothing to chance. In its opening it draws once, and takes an action that was
/// visited. Either way a ply is counted.
pub proof fn law_searches_act_on_what_they_are_told_to<N: Scalar, K: Pow<N>>(
    policy: Mcts<N, K>,
    eval: EvaluationModel<N>,
    ply: u32,
    rng: SplitMix64,
    action: usize,
    next_ply: u32,
    next_rng: SplitMix64,
) -> (w: Seq<N>)
    requires
        weakly_ordered::<N>(),
        N::spec_zero().spec_is_number(),
        eval.visits.len() > 0,
        eval.values.len() > 0,
        rated(eval.visits, eval.legal),
        rated(eval.values[0], eval.legal),
        <Mcts<N, K> as Policy<N>>::selects(&policy, eval, ply, rng, action, next_ply, next_rng),
    ensures
        next_ply == ply + 1,
        ({
            let opening = N::spec_zero().spec_less(policy.cfg.temperature) && ply
                < policy.cfg.temperature_drop;
            &&& !opening && policy.act_by == ActBy::Visits ==> best_rated(
                eval.visits,
                eval.legal,
                action,
            ) && next_rng == rng
            &&& !opening && policy.act_by != ActBy::Visits ==> best_rated(
                eval.values[0],
                eval.legal,
                action,
            ) && next_rng == rng
            &&& opening && !peak(eval.visits).spec_at_most(N::spec_zero()) ==> {
                &&& visit_weights(policy.maths, eval.visits, policy.cfg.temperature, w)
                &&& next_rng == <SplitMix64 as Rng<N>>::spec_unit(rng).1
                &&& (forall|i: int| 0 <= i < w.len() ==> (#[trigger] w[i]).spec_is_number()) && (
                exists|i: int| 0 <= i < w.len() && N::spec_zero().spec_less(#[trigger] w[i]))
                    ==> action < eval.visits.len() && N::spec_zero().spec_less(
                    eval.visits[action as int],
                )
            }
        }),
{
    let opening = N::spec_zero().spec_less(policy.cfg.temperature) && ply
        < policy.cfg.temperature_drop;
    law_best_legal(eval.visits, eval.legal);
    law_best_legal(eval.values[0], eval.legal);
    if opening && !peak(eval.visits).spec_at_most(N::spec_zero()) {
        lemma_sampled_is_visited(
            policy.maths,
            eval.visits,
            policy.cfg.temperature,
            rng,
            action,
            next_rng,
        )
    } else {
        Seq::empty()
    }
}

/// What visits weigh when they are sampled: of an action that was visited its share of the most visits,
/// to the power that the temperature is the inverse of; of any other nothing. Actions that were visited
/// alike are handed on alike.
pub proof fn law_visits_weigh_by_power<N: Scalar, P: Pow<N>>(
    pow: P,
    visits: Seq<N>,
    temperature: N,
    w: Seq<N>,
    i: int,
)
    requires
        visit_weights(pow, visits, temperature, w),
        0 <= i < visits.len(),
    ensures
        w.len() == visits.len(),
        N::spec_zero().spec_less(visits[i]) ==> call_ensures(
            P::pow,
            (&pow, visits[i].spec_over(peak(visits)), N::spec_one().spec_over(temperature)),
            w[i],
        ),
        !N::spec_zero().spec_less(visits[i]) ==> w[i] == N::spec_zero(),
{
    assert(w[i] == w[i]);
}

/// A minimax search holds nothing back: every node above its depth is expanded, all of them in one
/// round, by depth's worth of rounds; opponents minimize; and a beam is kept only where one is asked
/// for.
pub proof fn law_minimax_is_full_width<N: Scalar>(
    depth: i32,
    move_cap: Option<usize>,
    chance: ChanceMode,
    gamma: N,
)
    ensures
        ({
            let cfg = minimax_config(depth, move_cap, chance, gamma);
            &&& cfg.gamma == gamma
            &&& cfg.max_depth == depth
            &&& cfg.chance == chance
            &&& cfg.expansion_budget == usize::MAX && cfg.top_k == usize::MAX
            &&& cfg.opponent matches Opponent::Adversarial { move_cap: cap } && (move_cap is None
                ==> cap == usize::MAX) && (move_cap matches Some(asked) ==> cap == asked)
        }),
{
}

/// A search by prior explores as its configuration says, and mixes into its root noise of that weight
/// and concentration, from its own seed; into everyone's where the scope is everyone.
pub proof fn law_alphazero_is_guided_as_configured<N>(cfg: AlphaZeroConfig<N>, seed: u64)
    ensures
        puct(cfg, seed) matches Guidance::Puct { c, noise, noise_all } && c == cfg.c_puct && (noise
            matches Some((eps, alpha, from)) && eps == cfg.noise_epsilon && alpha
            == cfg.noise_alpha && from == seed) && noise_all == (cfg.noise_scope
            == NoiseScope::All),
{
}

} // verus!
