//! What is drawn and read off rows: by weight, by probability, by the best value; and what a
//! transition pays.

use vstd::prelude::*;

#[allow(unused_imports)]
use crate::encoder::ActionView;
#[allow(unused_imports)]
use crate::engine::earned::{goes_to, pays, worth_to};
#[allow(unused_imports)]
use crate::fault::Fault;
#[allow(unused_imports)]
use crate::game::{settled, spec_step_env, tagged, Actor, ChanceModel, Game, Rng, TransitionModel};
#[allow(unused_imports)]
use crate::means::{counts, law_splits, law_sum_of_the_same, law_sum_over, splits};
#[allow(unused_imports)]
use crate::num::{
    law_ring, law_ring_signs, law_sum, law_sum_runs, ring, spec_largest, spec_sum, weakly_ordered,
    Scalar,
};
#[allow(unused_imports)]
use crate::policies::modelfree::epsilon_greedy_q::{all_actions, q_read};
#[allow(unused_imports)]
use crate::policies::modelfree::ppo::{
    actor_choice, legal_at, log_softmax, lowered, masked, ppo_framed, prob_taken, PpoModel,
};
#[allow(unused_imports)]
use crate::policies::tree::expectimax::evaluate::{heads_of, Exp};
#[allow(unused_imports)]
use crate::policies::tree::expectimax::plies::{chain_pays, ended, link_pay, reached};
#[allow(unused_imports)]
use crate::policies::tree::mcts::select::Ln;
#[allow(unused_imports)]
use crate::policy::{law_best_legal, spec_argmax, thompson};
#[allow(unused_imports)]
use crate::reward::{spec_edge_reward, Reward};
#[allow(unused_imports)]
use crate::rng::{normalized, weight_scan, weighted_pick, SplitMix64};

verus! {

/// A weight as far as it is above nothing.
pub open spec fn above_nothing<N: Scalar>(w: N) -> N {
    if N::spec_zero().spec_less(w) {
        w
    } else {
        N::spec_zero()
    }
}

/// What is left of a draw after the first `i` weights that are above nothing are taken from it.
pub open spec fn left_of<N: Scalar>(w: Seq<N>, r: N, i: int) -> N {
    r.spec_minus(spec_sum(w.take(i).map_values(|x: N| above_nothing(x))))
}

/// Index `i` weighs something, and with it nothing is left of the draw.
pub open spec fn falls_on<N: Scalar>(w: Seq<N>, r: N, i: int) -> bool {
    N::spec_zero().spec_less(w[i]) && left_of(w, r, i + 1).spec_at_most(N::spec_zero())
}

proof fn lemma_scan<N: Scalar>(w: Seq<N>, r: N, i: int, now: N, last: int)
    requires
        ring::<N>(),
        0 <= i <= w.len(),
        now == left_of(w, r, i),
        forall|j: int| 0 <= j < i ==> !#[trigger] falls_on(w, r, j),
        last == 0 || (0 <= last < i && N::spec_zero().spec_less(w[last])),
        forall|j: int| last < j < i ==> !N::spec_zero().spec_less(#[trigger] w[j]),
    ensures
        ({
            let p = weight_scan(w, i, now, last);
            ||| 0 <= p < w.len() && falls_on(w, r, p) && forall|j: int|
                0 <= j < p ==> !#[trigger] falls_on(w, r, j)
            ||| (forall|j: int| 0 <= j < w.len() ==> !#[trigger] falls_on(w, r, j)) && forall|j: int|
                p < j < w.len() ==> !N::spec_zero().spec_less(#[trigger] w[j])
        }),
    decreases w.len() - i,
{
    if i < w.len() {
        let zero = N::spec_zero();
        let f = |x: N| above_nothing(x);
        let x = above_nothing(w[i]);
        let before = w.take(i).map_values(f);
        let s = spec_sum(before);
        law_sum(before, x);
        assert(w.take(i + 1).map_values(f) =~= before.push(x));
        law_ring(r, s, s);
        law_ring(now, x, x);
        law_ring_signs(s, x);
        law_ring(r, s.spec_negated(), x.spec_negated());
        law_ring(r, s.spec_plus(x), x);
        law_ring(s, zero, zero);
        assert(left_of(w, r, i + 1) == now.spec_minus(x));
        if zero.spec_less(w[i]) {
            if !falls_on(w, r, i) {
                lemma_scan(w, r, i + 1, now.spec_minus(x), i);
            }
        } else {
            assert(left_of(w, r, i + 1) == now);
            lemma_scan(w, r, i + 1, now, last);
        }
    }
}

/// A weighted draw falls on the first index at which the weights so far, that one's included, make up
/// the drawn share of the total; where none does, on the last that weighs anything.
pub proof fn law_weighted_draws<N: Scalar>(w: Seq<N>, unit: N)
    requires
        ring::<N>(),
    ensures
        ({
            let r = unit.spec_times(spec_sum(w));
            let p = weighted_pick(w, unit);
            ||| 0 <= p < w.len() && falls_on(w, r, p) && forall|j: int|
                0 <= j < p ==> !#[trigger] falls_on(w, r, j)
            ||| (forall|j: int| 0 <= j < w.len() ==> !#[trigger] falls_on(w, r, j)) && forall|j: int|
                p < j < w.len() ==> !N::spec_zero().spec_less(#[trigger] w[j])
        }),
{
    let r = unit.spec_times(spec_sum(w));
    let zero = N::spec_zero();
    assert(w.take(0).map_values(|x: N| above_nothing(x)) =~= Seq::empty());
    law_sum(Seq::<N>::empty(), r);
    law_ring(r, zero, zero);
    law_ring(r.spec_minus(zero), zero, zero);
    lemma_scan(w, r, 0, r, 0);
}

/// An even draw picks the outcome into whose part of the whole it falls, and the last where rounding
/// leads beyond; a weighted one goes by weight.
pub proof fn law_chance_draws<N: Scalar, R: Rng<N>>(dist: ChanceModel<N>, rng: R)
    requires
        dist.sound(),
        0 < dist.count() <= usize::MAX,
    ensures
        ({
            let (unit, after) = rng.spec_unit();
            let (drawn, next) = dist.drawn(rng);
            &&& next == after
            &&& drawn matches Ok(i) && i < dist.count() && match dist {
                ChanceModel::Uniform(n) => {
                    let part = N::spec_count(n as u64).spec_times(unit).spec_index();
                    i == part || (part >= n && i == n - 1)
                },
                ChanceModel::Weighted(p) => i == weighted_pick(p, unit),
            }
        }),
{
    crate::game::law_pick_in_range(dist, rng.spec_unit().0);
    if let ChanceModel::Weighted(p) = dist {
        crate::rng::lemma_weight_scan_bound(
            p,
            0,
            rng.spec_unit().0.spec_times(spec_sum(p)),
            0,
        );
    }
}

/// Draws over their total are a distribution, each in proportion to its draw; even where the total is
/// not above nothing.
pub proof fn law_normalized_draws_add_up<N: Scalar>(draws: Seq<N>)
    requires
        ring::<N>(),
        0 < draws.len(),
        counts::<N>(draws.len()),
        splits(N::spec_count(draws.len() as u64)),
        !spec_sum(draws).spec_at_most(N::spec_zero()) ==> splits(spec_sum(draws)),
    ensures
        normalized(draws).len() == draws.len(),
        spec_sum(normalized(draws)) == N::spec_one(),
        forall|i: int|
            0 <= i < draws.len() ==> if spec_sum(draws).spec_at_most(N::spec_zero()) {
                #[trigger] normalized(draws)[i] == normalized(draws)[0]
            } else {
                normalized(draws)[i].spec_times(spec_sum(draws)) == draws[i]
            },
{
    let s = spec_sum(draws);
    let n = N::spec_count(draws.len() as u64);
    if s.spec_at_most(N::spec_zero()) {
        law_sum_of_the_same(normalized(draws), N::spec_one().spec_over(n), draws.len());
        law_splits(n, N::spec_one(), N::spec_one());
    } else {
        law_sum_over(draws, s);
        assert(normalized(draws) =~= draws.map_values(|x: N| x.spec_over(s)));
        law_splits(s, s, s);
        assert forall|i: int| 0 <= i < draws.len() implies (
        #[trigger] normalized(draws)[i]).spec_times(s) == draws[i] by {
            law_splits(s, draws[i], draws[i]);
        }
    }
}

/// A unit draw is so many of as many parts as a mantissa tells apart, and never all of them; the next
/// draw comes from the next state.
pub proof fn law_units_are_parts_of_one<N: Scalar>(rng: SplitMix64) -> (parts: u64)
    requires
        ring::<N>(),
        splits(N::spec_count(0x20_0000_0000_0000u64)),
    ensures
        parts < 0x20_0000_0000_0000u64,
        <SplitMix64 as Rng<N>>::spec_unit(rng).0.spec_times(N::spec_count(0x20_0000_0000_0000u64))
            == N::spec_count(parts),
        <SplitMix64 as Rng<N>>::spec_unit(rng).1 == <SplitMix64 as Rng<N>>::spec_below(rng, 1).1,
{
    let next = vstd::wrapping::u64_specs::wrapping_add(rng@, crate::rng::GOLDEN);
    let bits = crate::rng::mixed(next);
    let parts = bits >> 11;
    assert(bits >> 11 < 0x20_0000_0000_0000u64) by (bit_vector);
    law_splits(N::spec_count(0x20_0000_0000_0000u64), N::spec_count(parts), N::spec_count(parts));
    parts
}

/// Thompson acting without chance takes a legal action that its own head values no less than any
/// other, and draws nothing; with chance it takes that same action but where a draw falls below the
/// chance, and then any legal one.
pub proof fn law_thompson_trusts_its_head<N: Scalar>(
    values: Seq<Seq<N>>,
    legal: Seq<usize>,
    epsilon: N,
    head: usize,
    rng: SplitMix64,
)
    requires
        weakly_ordered::<N>(),
        head < values.len(),
        0 < legal.len() <= usize::MAX,
        forall|i: int|
            0 <= i < legal.len() ==> #[trigger] legal[i] < values[head as int].len()
                && values[head as int][legal[i] as int].spec_is_number(),
    ensures
        ({
            let sure = thompson(values, legal, N::spec_zero(), head, rng);
            let told = thompson(values, legal, epsilon, head, rng);
            let unit = <SplitMix64 as Rng<N>>::spec_unit(rng);
            let row = values[head as int];
            &&& !N::spec_zero().spec_less(N::spec_zero()) ==> {
                &&& sure.0 matches Ok(a) && legal.contains(a) && forall|i: int|
                    0 <= i < legal.len() ==> !row[a as int].spec_less(
                        row[#[trigger] legal[i] as int],
                    )
                &&& sure.1 == rng
                &&& !N::spec_zero().spec_less(epsilon) ==> told == sure
                &&& N::spec_zero().spec_less(epsilon) && !unit.0.spec_less(epsilon) ==> told == (
                    sure.0,
                    unit.1,
                )
            }
            &&& N::spec_zero().spec_less(epsilon) && unit.0.spec_less(epsilon) ==> {
                let any = <SplitMix64 as Rng<N>>::spec_below(unit.1, legal.len() as usize);
                told == (Ok::<_, Fault>(legal[any.0 as int]), any.1)
            }
        }),
{
    law_best_legal(values[head as int], legal);
}

/// What a row says of a decision by values: of each head and action the entry at that action's slot
/// of that head.
pub proof fn law_rows_hold_values_by_head<N: Scalar, V: ActionView>(
    view: V,
    agent: usize,
    a: usize,
    row: Seq<N>,
    legal: Seq<usize>,
    h: int,
    x: usize,
)
    requires
        a > 0,
        0 <= h < row.len() / (a as nat),
        x < a,
    ensures
        q_read(view, agent, a, row, legal) matches Ok(q) ==> {
            &&& q.legal == legal
            &&& q.values.len() == row.len() / (a as nat)
            &&& q.values[h].len() == a
            &&& q.values[h][x as int] == row[h * a + view.spec_head_index(x, agent)]
        },
{
    let heads = heads_of(view, all_actions(a as nat), agent);
    assert(heads[x as int] == view.spec_head_index(x, agent));
}

/// What a row says of a decision by policy: its value behind the logits, and of two legal actions
/// log-probabilities that differ as their logits do.
pub proof fn law_log_probabilities_keep_differences<N: Scalar, K: Exp<N> + Ln<N>>(
    maths: K,
    heads: Seq<usize>,
    a: usize,
    row: Seq<N>,
    legal: Seq<usize>,
    out: PpoModel<N>,
    i: int,
    j: int,
)
    requires
        ring::<N>(),
        ppo_framed(maths, heads, a, row, legal, out),
        0 <= i < heads.len(),
        0 <= j < heads.len(),
    ensures
        out.value == row[a as int],
        out.legal == legal,
        out.log_probs.len() == heads.len(),
        out.log_probs[i].spec_minus(out.log_probs[j]) == row[heads[i] as int].spec_minus(
            row[heads[j] as int],
        ),
{
    let xs = masked(row.take(a as int), heads);
    let (z, s) = choose|z: Seq<N>, s: N|
        crate::policies::tree::expectimax::evaluate::exps_of(maths, lowered(xs), z) && call_ensures(
            K::ln,
            (&maths, spec_sum(z)),
            s,
        ) && out.log_probs == #[trigger] log_softmax(xs, s) && #[trigger] z.len() == xs.len();
    assert(!crate::policies::tree::expectimax::evaluate::strays(heads, a as nat));
    assert(heads[i] < a && heads[j] < a);
    assert(xs[i] == row[heads[i] as int] && xs[j] == row[heads[j] as int]);
    let m = spec_largest(xs);
    lemma_shift(xs[i], xs[j], m);
    lemma_shift(xs[i].spec_minus(m), xs[j].spec_minus(m), s);
}

/// Log-probabilities are what was handed to the exponential, less one number for all of them: the
/// logarithm of the sum of the exponentials.
pub proof fn law_log_probabilities_are_normalized<N: Scalar, K: Exp<N> + Ln<N>>(
    maths: K,
    heads: Seq<usize>,
    a: usize,
    row: Seq<N>,
    legal: Seq<usize>,
    out: PpoModel<N>,
    i: int,
    j: int,
) -> (r: (Seq<N>, Seq<N>, N))
    requires
        ring::<N>(),
        ppo_framed(maths, heads, a, row, legal, out),
        0 <= i < heads.len(),
        0 <= j < heads.len(),
    ensures
        ({
            let (given, z, s) = r;
            &&& given.len() == heads.len()
            &&& crate::policies::tree::expectimax::evaluate::exps_of(maths, given, z)
            &&& call_ensures(K::ln, (&maths, spec_sum(z)), s)
            &&& out.log_probs[i].spec_plus(s) == given[i]
            &&& given[i].spec_minus(given[j]) == row[heads[i] as int].spec_minus(
                row[heads[j] as int],
            )
        }),
{
    let xs = masked(row.take(a as int), heads);
    let (z, s) = choose|z: Seq<N>, s: N|
        crate::policies::tree::expectimax::evaluate::exps_of(maths, lowered(xs), z) && call_ensures(
            K::ln,
            (&maths, spec_sum(z)),
            s,
        ) && out.log_probs == #[trigger] log_softmax(xs, s) && #[trigger] z.len() == xs.len();
    assert(!crate::policies::tree::expectimax::evaluate::strays(heads, a as nat));
    assert(heads[i] < a && heads[j] < a);
    assert(xs[i] == row[heads[i] as int] && xs[j] == row[heads[j] as int]);
    let given = lowered(xs);
    lemma_shift(xs[i], xs[j], spec_largest(xs));
    law_ring(given[i], s, s);
    (given, z, s)
}

/// Taking the same from both keeps a difference.
proof fn lemma_shift<N: Scalar>(x: N, y: N, m: N)
    requires
        ring::<N>(),
    ensures
        x.spec_minus(m).spec_minus(y.spec_minus(m)) == x.spec_minus(y),
{
    let d = x.spec_minus(y);
    let b = y.spec_minus(m);
    law_ring(x, y, y);
    law_ring(d, y, m.spec_negated());
    law_ring(x, m, m);
    law_ring(y, m, m);
    assert(x.spec_minus(m) == d.spec_plus(b));
    law_ring(d, b, b);
}

/// With the probabilities up to the `i`-th, that one's included, nothing is left of the draw.
pub open spec fn made_up<N: Scalar>(probs: Seq<N>, draw: N, i: int) -> bool {
    draw.spec_minus(spec_sum(probs.take(i + 1))).spec_at_most(N::spec_zero())
}

proof fn lemma_prob<N: Scalar>(eval: PpoModel<N>, probs: Seq<N>, draw: N, i: nat, now: N)
    requires
        ring::<N>(),
        i <= probs.len() == eval.legal.len(),
        now == draw.spec_minus(spec_sum(probs.take(i as int))),
        forall|j: int| 0 <= j < i ==> !#[trigger] made_up(probs, draw, j),
    ensures
        ({
            let r = prob_taken(eval, probs, i, now);
            ||| exists|p: int|
                0 <= p < probs.len() && #[trigger] made_up(probs, draw, p) && r == Ok::<_, Fault>(
                    eval.legal[p],
                ) && forall|j: int| 0 <= j < p ==> !#[trigger] made_up(probs, draw, j)
            ||| (forall|j: int| 0 <= j < probs.len() ==> !#[trigger] made_up(probs, draw, j)) && r
                == legal_at(eval.legal, spec_argmax(eval.log_probs, eval.log_probs.len()))
        }),
    decreases probs.len() - i,
{
    if i < probs.len() {
        let x = probs[i as int];
        let s = spec_sum(probs.take(i as int));
        law_sum(probs.take(i as int), x);
        assert(probs.take(i as int).push(x) =~= probs.take((i + 1) as int));
        law_ring(draw, s, s);
        law_ring(now, x, x);
        law_ring_signs(s, x);
        law_ring(draw, s.spec_negated(), x.spec_negated());
        law_ring(draw, s.spec_plus(x), x);
        let left = now.spec_minus(x);
        assert(left == draw.spec_minus(spec_sum(probs.take((i + 1) as int))));
        assert(made_up(probs, draw, i as int) == left.spec_at_most(N::spec_zero()));
        if !made_up(probs, draw, i as int) {
            lemma_prob(eval, probs, draw, i + 1, left);
        }
    }
}

/// Probabilities and a draw pick the first legal action at which the probabilities so far, its own
/// included, make up the draw; where none does, the likeliest.
pub proof fn law_actions_fall_by_probability<N: Scalar>(eval: PpoModel<N>, probs: Seq<N>, draw: N)
    requires
        ring::<N>(),
        probs.len() == eval.legal.len(),
    ensures
        ({
            let r = actor_choice(eval, probs, draw);
            ||| exists|p: int|
                0 <= p < probs.len() && #[trigger] made_up(probs, draw, p) && r == Ok::<_, Fault>(
                    eval.legal[p],
                ) && forall|j: int| 0 <= j < p ==> !#[trigger] made_up(probs, draw, j)
            ||| (forall|j: int| 0 <= j < probs.len() ==> !#[trigger] made_up(probs, draw, j)) && r
                == legal_at(eval.legal, spec_argmax(eval.log_probs, eval.log_probs.len()))
        }),
{
    let zero = N::spec_zero();
    assert(probs.take(0) =~= Seq::empty());
    law_sum(Seq::<N>::empty(), draw);
    law_ring(draw, zero, zero);
    law_ring(draw.spec_minus(zero), zero, zero);
    lemma_prob(eval, probs, draw, 0, draw);
}

/// The events of an edge pay an agent what its own slot holds: nothing where it is empty.
pub proof fn law_edges_pay_their_slots<N: Scalar, W: Reward<N>>(
    reward: W,
    events: Seq<Option<W::Event>>,
    agent: usize,
)
    requires
        ring::<N>(),
        agent < events.len() <= usize::MAX,
    ensures
        spec_sum(pays(reward, tagged(events), agent)) == spec_edge_reward(reward, events, agent),
{
    lemma_tagged_pay(reward, events, agent);
}

proof fn lemma_tagged_pay<N: Scalar, W: Reward<N>>(
    reward: W,
    events: Seq<Option<W::Event>>,
    agent: usize,
)
    requires
        ring::<N>(),
        events.len() <= usize::MAX,
    ensures
        spec_sum(pays(reward, tagged(events), agent)) == if agent < events.len() {
            spec_edge_reward(reward, events, agent)
        } else {
            N::spec_zero()
        },
    decreases events.len(),
{
    reveal(Seq::filter);
    let zero = N::spec_zero();
    law_ring(zero, zero, zero);
    law_sum(Seq::<N>::empty(), zero);
    if events.len() == 0 {
        assert(pays(reward, tagged(events), agent) =~= Seq::empty());
    } else {
        let short = events.drop_last();
        lemma_tagged_pay(reward, short, agent);
        let before = tagged(short);
        let i = (events.len() - 1) as usize;
        if let Some(e) = events.last() {
            let now = before.push((i, e));
            assert(tagged(events) == now);
            assert(now.drop_last() =~= before);
            if i == agent {
                let x = reward.spec_step_reward(e, agent);
                assert(before.filter(goes_to::<W::Event>(agent)).push((i, e)).map_values(
                    worth_to(reward, agent),
                ) =~= pays(reward, before, agent).push(x));
                law_sum(pays(reward, before, agent), x);
                law_ring(x, zero, zero);
            } else {
                assert(pays(reward, now, agent) == pays(reward, before, agent));
            }
        }
        if agent < short.len() {
            assert(short[agent as int] == events[agent as int]);
        }
    }
}

proof fn lemma_pays_runs<N: Scalar, W: Reward<N>>(
    reward: W,
    a: Seq<(usize, W::Event)>,
    b: Seq<(usize, W::Event)>,
    agent: usize,
)
    ensures
        pays(reward, a + b, agent) == pays(reward, a, agent) + pays(reward, b, agent),
    decreases b.len(),
{
    reveal(Seq::filter);
    if b.len() == 0 {
        assert(a + b =~= a);
        assert(pays(reward, b, agent) =~= Seq::empty());
        assert(pays(reward, a, agent) + pays(reward, b, agent) =~= pays(reward, a, agent));
    } else {
        let short = b.drop_last();
        let x = b.last();
        lemma_pays_runs(reward, a, short, agent);
        assert((a + b).drop_last() =~= a + short);
        assert((a + b).last() == x);
        let before = (a + short).filter(goes_to::<W::Event>(agent));
        let later = short.filter(goes_to::<W::Event>(agent));
        if x.0 == agent {
            let y = worth_to(reward, agent)(x);
            assert(before.push(x).map_values(worth_to(reward, agent)) =~= pays(
                reward,
                a + short,
                agent,
            ).push(y));
            assert(later.push(x).map_values(worth_to(reward, agent)) =~= pays(
                reward,
                short,
                agent,
            ).push(y));
            assert(pays(reward, a + b, agent) =~= pays(reward, a, agent) + pays(reward, b, agent));
        }
    }
}

/// `t` is the transition that the chain `links` behind `first` ends with.
pub open spec fn ends_with<N: Scalar, G: Game<N>>(
    game: G,
    first: TransitionModel<G::State, G::Event>,
    links: Seq<usize>,
    t: TransitionModel<G::State, G::Event>,
) -> bool {
    if links.len() == 0 {
        t == first
    } else {
        t == game.spec_apply_chance_node(
            reached(game, first.next_state, links.drop_last()),
            links.last(),
        )
    }
}

proof fn lemma_settled<N: Scalar, G: Game<N>, W: Reward<N, Event = G::Event>, R: Rng<N>>(
    game: G,
    reward: W,
    agent: usize,
    first: TransitionModel<G::State, G::Event>,
    links: Seq<usize>,
    t: TransitionModel<G::State, G::Event>,
    trace: Seq<(usize, G::Event)>,
    edges: nat,
    rng: R,
) -> (all: Seq<usize>)
    requires
        ring::<N>(),
        agent < game.spec_num_agents(),
        ends_with(game, first, links, t),
        links.len() == 0 ==> trace.len() == 0,
        links.len() > 0 ==> spec_sum(pays(reward, trace, agent)) == spec_edge_reward(
            reward,
            first.events,
            agent,
        ).spec_plus(
            spec_sum(chain_pays(game, reward, agent, first.next_state, links.drop_last())),
        ),
    ensures
        settled(game, t, trace, edges, rng).0 matches Ok(tick) ==> {
            &&& tick.next_state == reached(game, first.next_state, all)
            &&& tick.terminal == ended(game, first.next_state, first.terminal, all)
            &&& spec_sum(pays(reward, tick.trace, agent)) == spec_edge_reward(
                reward,
                first.events,
                agent,
            ).spec_plus(spec_sum(chain_pays(game, reward, agent, first.next_state, all)))
        },
    decreases crate::game::CHANCE_CHAIN_LIMIT + 1 - edges,
{
    if t.events.len() == game.spec_num_agents() {
        let now = trace + tagged(t.events);
        let start = first.next_state;
        let base = spec_edge_reward(reward, first.events, agent);
        lemma_pays_runs(reward, trace, tagged(t.events), agent);
        law_sum_runs(pays(reward, trace, agent), pays(reward, tagged(t.events), agent));
        law_edges_pay_their_slots(reward, t.events, agent);
        let paid = chain_pays(game, reward, agent, start, links);
        if links.len() == 0 {
            reveal(Seq::filter);
            assert(pays(reward, trace, agent) =~= Seq::empty());
            law_sum(Seq::<N>::empty(), base);
            assert(paid =~= Seq::empty());
            law_ring(base, N::spec_zero(), N::spec_zero());
        } else {
            let short = links.drop_last();
            let before = chain_pays(game, reward, agent, start, short);
            let last = link_pay(game, reward, agent, start, links);
            assert(links.take(links.len() as int) =~= links);
            assert forall|k: int| 0 <= k < short.len() implies #[trigger] paid[k] == before[k] by {
                assert(links.take(k + 1) =~= short.take(k + 1));
            }
            assert(paid =~= before.push(last));
            law_sum(before, last);
            law_ring(base, spec_sum(before), last);
        }
        assert(spec_sum(pays(reward, now, agent)) == base.spec_plus(spec_sum(paid)));
        if t.terminal || game.spec_actor(t.next_state) != Actor::Chance {
            links
        } else if edges < crate::game::CHANCE_CHAIN_LIMIT {
            let (drawn, after) = game.spec_chance_node(t.next_state).drawn(rng);
            if let Ok(outcome) = drawn {
                let more = links.push(outcome);
                assert(more.drop_last() =~= links);
                lemma_settled(
                    game,
                    reward,
                    agent,
                    first,
                    more,
                    game.spec_apply_chance_node(t.next_state, outcome),
                    now,
                    edges + 1,
                    after,
                )
            } else {
                links
            }
        } else {
            links
        }
    } else {
        links
    }
}

/// A tick is a move and the chain of chance behind it: the game is where the chain leads, ended where
/// its last edge ends it, and its events pay each agent what the move and the links pay it together.
pub proof fn law_ticks_are_moves_and_their_chance<
    N: Scalar,
    G: Game<N>,
    W: Reward<N, Event = G::Event>,
    R: Rng<N>,
>(
    game: G,
    reward: W,
    agent: usize,
    state: G::State,
    actions: Seq<usize>,
    rng: R,
) -> (links: Seq<usize>)
    requires
        ring::<N>(),
        agent < game.spec_num_agents(),
    ensures
        spec_step_env(game, state, actions, rng).0 matches Ok(tick) ==> {
            let t = game.spec_step(state, actions);
            &&& tick.next_state == reached(game, t.next_state, links)
            &&& tick.terminal == ended(game, t.next_state, t.terminal, links)
            &&& spec_sum(pays(reward, tick.trace, agent)) == spec_edge_reward(
                reward,
                t.events,
                agent,
            ).spec_plus(spec_sum(chain_pays(game, reward, agent, t.next_state, links)))
        },
{
    let t = game.spec_step(state, actions);
    lemma_settled(game, reward, agent, t, Seq::empty(), t, Seq::empty(), 0, rng)
}

} // verus!
