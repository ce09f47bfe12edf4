//! Policies that repeat, given a network that does.

use vstd::prelude::*;

#[allow(unused_imports)]
use super::resume::{lemma_served_once, same_said, steady_net, steady_policy};
#[allow(unused_imports)]
use super::seat::Parts;
#[allow(unused_imports)]
use crate::encoder::{ActionView, StateEncoder};
#[allow(unused_imports)]
use crate::fault::Fault;
#[allow(unused_imports)]
use crate::game::{Game, Rng};
#[allow(unused_imports)]
use crate::learner::Learner;
#[allow(unused_imports)]
use crate::num::{spec_sum, Scalar};
#[allow(unused_imports)]
use crate::policies::modelfree::requests_served;
#[allow(unused_imports)]
use crate::policies::modelfree::epsilon_greedy_q::{q_of_request, EpsilonGreedyQ, QEvaluation};
#[allow(unused_imports)]
use crate::policies::modelfree::ppo::{
    actor_choice, log_softmax, lowered, masked, ppo_read, PpoActor, PpoEvaluation, PpoModel,
};
#[allow(unused_imports)]
use crate::policies::planner::Planner;
#[allow(unused_imports)]
use crate::policies::tree::evaluation::SearchEvaluation;
#[allow(unused_imports)]
use crate::policies::tree::expectimax::backup::{targets, InteriorTarget};
#[allow(unused_imports)]
use crate::policies::tree::expectimax::evaluate::{exps_of, heads_of, Exp};
#[allow(unused_imports)]
use crate::policies::tree::expectimax::policy::{
    all_concluded, concluded, legal_lists, searches_say, SelectiveExpectimax,
};
#[allow(unused_imports)]
use crate::policies::tree::expectimax::pure::{
    law_searches_repeat, lemma_exps_alike, row_wise, steady_exp,
};
#[allow(unused_imports)]
use crate::policies::tree::expectimax::search::{searched, Infer, Said};
#[allow(unused_imports)]
use crate::policies::tree::expectimax::tree::Ctx;
#[allow(unused_imports)]
use crate::policies::tree::mcts::select::Ln;
#[allow(unused_imports)]
use crate::policies::tree::minimax::{first_heads, Minimax};
#[allow(unused_imports)]
use crate::policy::{Policy, Stateless};
#[allow(unused_imports)]
use crate::reward::Reward;
#[allow(unused_imports)]
use crate::rng::SplitMix64;

verus! {

/// Epsilon-greedy acting on action values repeats where its network does.
pub proof fn law_q_repeats<
    N: Scalar,
    G: Game<N>,
    E: StateEncoder<State = G::State>,
    W: Reward<N, Event = G::Event>,
    L: Learner<N, E::Feature, QEvaluation<N>, E>,
    I: Infer<E::Feature, N>,
>(parts: Parts<G, E, W, EpsilonGreedyQ<N>, L>, net: I)
    requires
        steady_net::<E::Feature, N, I>(net),
    ensures
        steady_policy::<N, G, E, W, EpsilonGreedyQ<N>, L, I>(parts, net),
{
    assert forall|
        requests: Seq<(G::State, usize)>,
        seed: u64,
        interior: bool,
        nets: (I, I),
        evals: Seq<(QEvaluation<N>, Vec<InteriorTarget<E::Feature, N>>)>,
        others: (I, I),
        again: Seq<(QEvaluation<N>, Vec<InteriorTarget<E::Feature, N>>)>,
    |
        (#[trigger] <EpsilonGreedyQ<N> as Planner<N, G, E, W, I>>::evaluates(
            &parts.policy,
            parts.game,
            parts.encoder,
            parts.reward,
            requests,
            seed,
            interior,
            nets,
            evals,
        )) && (#[trigger] <EpsilonGreedyQ<N> as Planner<N, G, E, W, I>>::evaluates(
            &parts.policy,
            parts.game,
            parts.encoder,
            parts.reward,
            requests,
            seed,
            interior,
            others,
            again,
        )) && nets.0 == net && others.0 == net implies nets.1 == net && same_said(evals, again) by {
        let enc = parts.encoder;
        let rows = choose|rows: Seq<Seq<N>>|
            {
                &&& #[trigger] requests_served::<N, G, E, I>(enc, requests, nets, rows)
                &&& evals.len() == requests.len() == rows.len()
                &&& forall|i: int|
                    0 <= i < evals.len() ==> q_of_request(parts.game, enc, requests[i], rows[i])
                        == Ok::<_, Fault>((#[trigger] evals[i]).0@) && evals[i].1@.len() == 0
            };
        let more = choose|rows: Seq<Seq<N>>|
            {
                &&& #[trigger] requests_served::<N, G, E, I>(enc, requests, others, rows)
                &&& again.len() == requests.len() == rows.len()
                &&& forall|i: int|
                    0 <= i < again.len() ==> q_of_request(parts.game, enc, requests[i], rows[i])
                        == Ok::<_, Fault>((#[trigger] again[i]).0@) && again[i].1@.len() == 0
            };
        assert(nets == (net, nets.1) && others == (net, others.1));
        lemma_served_once::<N, G, E, I>(enc, requests, net, nets.1, rows, others.1, more);
        assert forall|i: int| 0 <= i < evals.len() implies (#[trigger] evals[i]).0@ == again[i].0@
            && targets(evals[i].1@) == targets(again[i].1@) by {
            assert(again[i].1@.len() == 0);
            assert(targets(evals[i].1@) =~= targets(again[i].1@));
        }
    }
}

/// A source of logarithms that gives the same for the same.
pub open spec fn steady_ln<N: Scalar, K: Ln<N>>(maths: K) -> bool {
    forall|x: N, y: N, z: N| #[trigger]
        call_ensures(K::ln, (&maths, x), y) && #[trigger] call_ensures(K::ln, (&maths, x), z) ==> y
            == z
}

proof fn lemma_ppo_once<N: Scalar, V: ActionView, K: Exp<N> + Ln<N>>(
    maths: K,
    view: V,
    agent: usize,
    a: usize,
    row: Seq<N>,
    legal: Seq<usize>,
    x: PpoModel<N>,
    y: PpoModel<N>,
)
    requires
        steady_exp(maths),
        steady_ln(maths),
        ppo_read(maths, view, agent, a, row, legal, x),
        ppo_read(maths, view, agent, a, row, legal, y),
    ensures
        x == y,
{
    let xs = masked(row.take(a as int), heads_of(view, legal, agent));
    let (z, s) = choose|z: Seq<N>, s: N|
        exps_of(maths, lowered(xs), z) && call_ensures(K::ln, (&maths, spec_sum(z)), s)
            && x.log_probs == #[trigger] log_softmax(xs, s) && #[trigger] z.len() == xs.len();
    let (w, t) = choose|z: Seq<N>, s: N|
        exps_of(maths, lowered(xs), z) && call_ensures(K::ln, (&maths, spec_sum(z)), s)
            && y.log_probs == #[trigger] log_softmax(xs, s) && #[trigger] z.len() == xs.len();
    lemma_exps_alike(maths, lowered(xs), z, w);
    assert(s == t);
    assert(x =~= y);
}

/// Acting by policy logits repeats where its exponentials, its logarithms and its network do.
pub proof fn law_ppo_repeats<
    N: Scalar,
    G: Game<N>,
    E: StateEncoder<State = G::State>,
    W: Reward<N, Event = G::Event>,
    L: Learner<N, E::Feature, PpoEvaluation<N>, E>,
    I: Infer<E::Feature, N>,
    K: Exp<N> + Ln<N>,
>(parts: Parts<G, E, W, PpoActor<K>, L>, net: I)
    requires
        steady_net::<E::Feature, N, I>(net),
        steady_exp(parts.policy.maths),
        steady_ln(parts.policy.maths),
    ensures
        steady_policy::<N, G, E, W, PpoActor<K>, L, I>(parts, net),
{
    assert forall|
        requests: Seq<(G::State, usize)>,
        seed: u64,
        interior: bool,
        nets: (I, I),
        evals: Seq<(PpoEvaluation<N>, Vec<InteriorTarget<E::Feature, N>>)>,
        others: (I, I),
        again: Seq<(PpoEvaluation<N>, Vec<InteriorTarget<E::Feature, N>>)>,
    |
        (#[trigger] <PpoActor<K> as Planner<N, G, E, W, I>>::evaluates(
            &parts.policy,
            parts.game,
            parts.encoder,
            parts.reward,
            requests,
            seed,
            interior,
            nets,
            evals,
        )) && (#[trigger] <PpoActor<K> as Planner<N, G, E, W, I>>::evaluates(
            &parts.policy,
            parts.game,
            parts.encoder,
            parts.reward,
            requests,
            seed,
            interior,
            others,
            again,
        )) && nets.0 == net && others.0 == net implies nets.1 == net && same_said(evals, again) by {
        let enc = parts.encoder;
        let rows = choose|rows: Seq<Seq<N>>|
            {
                &&& #[trigger] requests_served::<N, G, E, I>(enc, requests, nets, rows)
                &&& evals.len() == requests.len() == rows.len()
                &&& forall|i: int|
                    0 <= i < evals.len() ==> ppo_read(
                        parts.policy.maths,
                        enc,
                        requests[i].1,
                        parts.game.spec_action_count(),
                        rows[i],
                        parts.game.spec_legal_actions(requests[i].0, requests[i].1),
                        (#[trigger] evals[i]).0@,
                    ) && evals[i].1@.len() == 0
            };
        let more = choose|rows: Seq<Seq<N>>|
            {
                &&& #[trigger] requests_served::<N, G, E, I>(enc, requests, others, rows)
                &&& again.len() == requests.len() == rows.len()
                &&& forall|i: int|
                    0 <= i < again.len() ==> ppo_read(
                        parts.policy.maths,
                        enc,
                        requests[i].1,
                        parts.game.spec_action_count(),
                        rows[i],
                        parts.game.spec_legal_actions(requests[i].0, requests[i].1),
                        (#[trigger] again[i]).0@,
                    ) && again[i].1@.len() == 0
            };
        assert(nets == (net, nets.1) && others == (net, others.1));
        lemma_served_once::<N, G, E, I>(enc, requests, net, nets.1, rows, others.1, more);
        assert forall|i: int| 0 <= i < evals.len() implies (#[trigger] evals[i]).0@ == again[i].0@
            && targets(evals[i].1@) == targets(again[i].1@) by {
            assert(again[i].1@.len() == 0);
            lemma_ppo_once(
                parts.policy.maths,
                enc,
                requests[i].1,
                parts.game.spec_action_count(),
                rows[i],
                parts.game.spec_legal_actions(requests[i].0, requests[i].1),
                evals[i].0@,
                again[i].0@,
            );
            assert(targets(evals[i].1@) =~= targets(again[i].1@));
        }
    }
    assert forall|
        eval: PpoModel<N>,
        state: Stateless,
        rng: SplitMix64,
        x: usize,
        sx: Stateless,
        rx: SplitMix64,
        y: usize,
        sy: Stateless,
        ry: SplitMix64,
    | #[trigger]
        parts.policy.selects(eval, state, rng, x, sx, rx) && #[trigger] parts.policy.selects(
            eval,
            state,
            rng,
            y,
            sy,
            ry,
        ) implies x == y && sx == sy && rx == ry by {
        let maths = parts.policy.maths;
        let draw = <SplitMix64 as Rng<N>>::spec_unit(rng).0;
        let p = choose|probs: Seq<N>| #[trigger]
            exps_of(maths, eval.log_probs, probs) && actor_choice(eval, probs, draw) == Ok::<
                _,
                Fault,
            >(x);
        let q = choose|probs: Seq<N>| #[trigger]
            exps_of(maths, eval.log_probs, probs) && actor_choice(eval, probs, draw) == Ok::<
                _,
                Fault,
            >(y);
        lemma_exps_alike(maths, eval.log_probs, p, q);
    }
}

/// Selective expectimax repeats where its exponentials do, and its network answers row by row in
/// whole heads.
pub proof fn law_expectimax_repeats<
    N: Scalar,
    G: Game<N> + Sync,
    E: StateEncoder<State = G::State> + Sync,
    W: Reward<N, Event = G::Event> + Sync,
    X: Exp<N> + Sync,
    L: Learner<N, E::Feature, SearchEvaluation<N>, E>,
    I: Infer<E::Feature, N>,
>(
    parts: Parts<G, E, W, SelectiveExpectimax<N, X>, L>,
    f: spec_fn(usize, Seq<E::Feature>) -> Seq<N>,
    d: nat,
    width: nat,
    net: I,
) where G::State: Send, E::Feature: Send
    requires
        forall|state: G::State, agent: usize| #[trigger]
            parts.encoder.spec_encode(state, agent).len() == d,
        steady_exp(parts.policy.exp),
        row_wise(net, f, d, width),
        parts.game.spec_action_count() > 0 ==> width % (parts.game.spec_action_count() as nat) == 0,
    ensures
        steady_policy::<N, G, E, W, SelectiveExpectimax<N, X>, L, I>(parts, net),
{
    assert forall|
        requests: Seq<(G::State, usize)>,
        seed: u64,
        interior: bool,
        nets: (I, I),
        evals: Seq<(SearchEvaluation<N>, Vec<InteriorTarget<E::Feature, N>>)>,
        others: (I, I),
        again: Seq<(SearchEvaluation<N>, Vec<InteriorTarget<E::Feature, N>>)>,
    |
        (#[trigger] <SelectiveExpectimax<N, X> as Planner<N, G, E, W, I>>::evaluates(
            &parts.policy,
            parts.game,
            parts.encoder,
            parts.reward,
            requests,
            seed,
            interior,
            nets,
            evals,
        )) && (#[trigger] <SelectiveExpectimax<N, X> as Planner<N, G, E, W, I>>::evaluates(
            &parts.policy,
            parts.game,
            parts.encoder,
            parts.reward,
            requests,
            seed,
            interior,
            others,
            again,
        )) && nets.0 == net && others.0 == net implies nets.1 == net && same_said(evals, again) by {
        let ctx = Ctx {
            game: &parts.game,
            enc: &parts.encoder,
            reward: &parts.reward,
            cfg: parts.policy.cfg,
        };
        let exp = parts.policy.exp;
        let heads = parts.policy.n_heads;
        let legal = legal_lists(parts.game, requests);
        let said = choose|said: Seq<Said<E::Feature, N>>| #[trigger]
            searched(ctx, exp, nets, requests, seed, interior, said) && all_concluded(
                said,
                legal,
                heads,
                evals,
            );
        let more = choose|said: Seq<Said<E::Feature, N>>| #[trigger]
            searched(ctx, exp, others, requests, seed, interior, said) && all_concluded(
                said,
                legal,
                heads,
                again,
            );
        law_searches_repeat(
            ctx,
            exp,
            f,
            d,
            width,
            nets,
            others,
            requests,
            seed,
            interior,
            said,
            more,
        );
        assert forall|i: int| 0 <= i < evals.len() implies (#[trigger] evals[i]).0@ == again[i].0@
            && targets(evals[i].1@) == targets(again[i].1@) by {
            assert(concluded(said[i], legal[i], heads, evals[i]));
            assert(concluded(said[i], legal[i], heads, again[i]));
        }
    }
}

/// Minimax repeats where its exponentials do, and its network answers row by row in whole heads.
pub proof fn law_minimax_repeats<
    N: Scalar,
    G: Game<N> + Sync,
    E: StateEncoder<State = G::State> + Sync,
    W: Reward<N, Event = G::Event> + Sync,
    X: Exp<N> + Sync,
    L: Learner<N, E::Feature, SearchEvaluation<N>, E>,
    I: Infer<E::Feature, N>,
>(
    parts: Parts<G, E, W, Minimax<N, X>, L>,
    f: spec_fn(usize, Seq<E::Feature>) -> Seq<N>,
    d: nat,
    width: nat,
    net: I,
) where G::State: Send, E::Feature: Send
    requires
        forall|state: G::State, agent: usize| #[trigger]
            parts.encoder.spec_encode(state, agent).len() == d,
        steady_exp(parts.policy.exp),
        row_wise(net, f, d, width),
        parts.game.spec_action_count() > 0 ==> width % (parts.game.spec_action_count() as nat) == 0,
    ensures
        steady_policy::<N, G, E, W, Minimax<N, X>, L, I>(parts, net),
{
    assert forall|
        requests: Seq<(G::State, usize)>,
        seed: u64,
        interior: bool,
        nets: (I, I),
        evals: Seq<(SearchEvaluation<N>, Vec<InteriorTarget<E::Feature, N>>)>,
        others: (I, I),
        again: Seq<(SearchEvaluation<N>, Vec<InteriorTarget<E::Feature, N>>)>,
    |
        (#[trigger] <Minimax<N, X> as Planner<N, G, E, W, I>>::evaluates(
            &parts.policy,
            parts.game,
            parts.encoder,
            parts.reward,
            requests,
            seed,
            interior,
            nets,
            evals,
        )) && (#[trigger] <Minimax<N, X> as Planner<N, G, E, W, I>>::evaluates(
            &parts.policy,
            parts.game,
            parts.encoder,
            parts.reward,
            requests,
            seed,
            interior,
            others,
            again,
        )) && nets.0 == net && others.0 == net implies nets.1 == net && same_said(evals, again) by {
        let ctx = Ctx {
            game: &parts.game,
            enc: &parts.encoder,
            reward: &parts.reward,
            cfg: parts.policy.cfg,
        };
        let exp = parts.policy.exp;
        let heads = 1usize;
        let legal = legal_lists(parts.game, requests);
        let full = choose|full: Seq<(SearchEvaluation<N>, Vec<InteriorTarget<E::Feature, N>>)>|
            searches_say(ctx, exp, nets, requests, seed, interior, heads, full)
                && #[trigger] first_heads(full, evals);
        let whole = choose|full: Seq<(SearchEvaluation<N>, Vec<InteriorTarget<E::Feature, N>>)>|
            searches_say(ctx, exp, others, requests, seed, interior, heads, full)
                && #[trigger] first_heads(full, again);
        let said = choose|said: Seq<Said<E::Feature, N>>| #[trigger]
            searched(ctx, exp, nets, requests, seed, interior, said) && all_concluded(
                said,
                legal,
                heads,
                full,
            );
        let more = choose|said: Seq<Said<E::Feature, N>>| #[trigger]
            searched(ctx, exp, others, requests, seed, interior, said) && all_concluded(
                said,
                legal,
                heads,
                whole,
            );
        law_searches_repeat(
            ctx,
            exp,
            f,
            d,
            width,
            nets,
            others,
            requests,
            seed,
            interior,
            said,
            more,
        );
        assert forall|i: int| 0 <= i < evals.len() implies (#[trigger] evals[i]).0@ == again[i].0@
            && targets(evals[i].1@) == targets(again[i].1@) by {
            assert(concluded(said[i], legal[i], heads, full[i]));
            assert(concluded(said[i], legal[i], heads, whole[i]));
            assert(again[i].1 == whole[i].1);
        }
    }
}

} // verus!
