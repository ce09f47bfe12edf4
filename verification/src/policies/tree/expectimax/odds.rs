//! How likely things are in an expectimax search: beliefs, chance and the weight of a path.

use vstd::prelude::*;

#[allow(unused_imports)]
use super::evaluate::{
    branch_weight, branches_weighed, column, column_mean, comover_belief, comover_values, exps_of,
    factored, floored, heads_of, scattered, softmax_exponents, spec_std, Exp,
};
#[allow(unused_imports)]
use super::fan::{
    child, committed, enumerated, fan, sampled, spec_chain_fan, total_rank, unfolded, Outcome,
    Pending,
};
#[allow(unused_imports)]
use super::tree::BranchModel;
#[allow(unused_imports)]
use crate::encoder::ActionView;
#[allow(unused_imports)]
use crate::fault::Fault;
#[allow(unused_imports)]
use crate::game::{Actor, ChanceModel, Game, Rng};
#[allow(unused_imports)]
use crate::means::{counts, law_splits, law_sum_of_pairs, law_sum_of_the_same, law_sum_over, splits};
#[allow(unused_imports)]
use crate::num::{
    law_ring, law_sum, law_sum_runs, law_sum_scales, ring, spec_largest, spec_sum, Scalar,
};
#[allow(unused_imports)]
use crate::policy::ChanceMode;
#[allow(unused_imports)]
use crate::reward::Reward;
#[allow(unused_imports)]
use crate::util::spec_filled;

verus! {

/// A belief with a floor is a distribution: it adds up to one. With no floor each entry is its share
/// of the exponentials; with nothing but floor all are alike.
pub proof fn law_beliefs_add_up<N: Scalar>(z: Seq<N>, floor: N)
    requires
        ring::<N>(),
        0 < z.len(),
        counts::<N>(z.len()),
        splits(spec_sum(z)),
        splits(N::spec_count(z.len() as u64)),
    ensures
        spec_sum(floored(z, floor)) == N::spec_one(),
        forall|i: int|
            0 <= i < z.len() ==> (#[trigger] floored(z, N::spec_zero())[i]).spec_times(spec_sum(z))
                == z[i],
        forall|i: int|
            0 <= i < z.len() ==> #[trigger] floored(z, N::spec_one())[i] == N::spec_one().spec_over(
                N::spec_count(z.len() as u64),
            ),
{
    let one = N::spec_one();
    let zero = N::spec_zero();
    let s = spec_sum(z);
    let n = N::spec_count(z.len() as u64);
    let c = one.spec_minus(floor);
    let flat = floor.spec_over(n);
    let scaled = z.map_values(|x: N| x.spec_times(c));
    let shares = scaled.map_values(|x: N| x.spec_over(s));
    let even = Seq::new(z.len(), |i: int| flat);
    assert forall|i: int| 0 <= i < z.len() implies #[trigger] floored(z, floor)[i]
        == shares[i].spec_plus(even[i]) by {
        law_ring(c, z[i], z[i]);
    }
    law_sum_of_pairs(shares, even, floored(z, floor));
    law_sum_scales(z, c);
    law_sum_over(scaled, s);
    law_sum_of_the_same(even, flat, z.len());
    law_splits(n, floor, floor);
    law_splits(s, c, c);
    law_ring(s, c, c);
    law_ring(one, floor, floor);
    assert(spec_sum(shares) == c);
    assert forall|i: int| 0 <= i < z.len() implies (
    #[trigger] floored(z, zero)[i]).spec_times(s) == z[i] by {
        law_ring(one, zero, zero);
        law_ring(one.spec_minus(zero), zero, zero);
        law_ring(z[i], one, one);
        law_splits(n, zero, zero);
        law_ring(z[i].spec_over(s), zero, zero);
        law_splits(s, z[i], z[i]);
    }
    assert forall|i: int| 0 <= i < z.len() implies #[trigger] floored(z, one)[i] == one.spec_over(
        n,
    ) by {
        law_ring(one, one, one);
        law_ring(z[i], zero, zero);
        law_splits(s, zero, zero);
        law_ring(one.spec_over(n), zero, zero);
    }
}

proof fn lemma_scattered<N>(legal: Seq<usize>, probs: Seq<N>, i: nat, out: Seq<N>, j: int, x: int)
    requires
        i <= legal.len() == probs.len(),
        0 <= j < legal.len(),
        legal.no_duplicates(),
        forall|l: int| 0 <= l < legal.len() ==> #[trigger] legal[l] < out.len(),
        0 <= x < out.len(),
        j < i ==> out[legal[j] as int] == probs[j],
    ensures
        scattered(legal, probs, i, out).len() == out.len(),
        scattered(legal, probs, i, out)[legal[j] as int] == probs[j],
        (forall|l: int| 0 <= l < legal.len() ==> #[trigger] legal[l] != x) ==> scattered(
            legal,
            probs,
            i,
            out,
        )[x] == out[x],
    decreases legal.len() - i,
{
    if i < legal.len() {
        let next = out.update(legal[i as int] as int, probs[i as int]);
        if j < i {
            assert(legal[j] != legal[i as int]);
        }
        lemma_scattered(legal, probs, i + 1, next, j, x);
    }
}

/// A belief about a co-mover: the legal actions share it in proportion to what the exponential gave of
/// their head means, with the floor spread over them; no other action is believed possible.
pub proof fn law_beliefs_are_about_legal_actions<N: Scalar, X: Exp<N>, V: ActionView>(
    exp: X,
    view: V,
    mover: usize,
    legal: Seq<usize>,
    row: Seq<N>,
    k: nat,
    a: nat,
    temperature: N,
    floor: N,
    belief: Seq<N>,
    j: int,
    x: int,
) -> (z: Seq<N>)
    requires
        comover_belief(exp, view, mover, legal, row, k, a, temperature, floor, belief),
        legal.no_duplicates(),
        0 <= j < legal.len(),
        forall|l: int| 0 <= l < legal.len() ==> #[trigger] legal[l] < a,
        0 <= x < a,
    ensures
        belief.len() == a,
        z.len() == legal.len(),
        exps_of(
            exp,
            softmax_exponents(
                Seq::new(
                    legal.len(),
                    |i: int| column_mean(row, k, a, view.spec_head_index(legal[i], mover) as nat),
                ),
                temperature,
            ),
            z,
        ),
        belief[legal[j] as int] == N::spec_one().spec_minus(floor).spec_times(z[j]).spec_over(
            spec_sum(z),
        ).spec_plus(floor.spec_over(N::spec_count(legal.len() as u64))),
        (forall|l: int| 0 <= l < legal.len() ==> #[trigger] legal[l] != x) ==> belief[x]
            == N::spec_zero(),
{
    let heads = heads_of(view, legal, mover);
    let values = comover_values(row, k, a, heads);
    let z = choose|z: Seq<N>|
        exps_of(exp, softmax_exponents(values, temperature), z) && belief == scattered(
            legal,
            #[trigger] floored(z, floor),
            0,
            spec_filled(N::spec_zero(), a),
        );
    lemma_scattered(legal, floored(z, floor), 0, spec_filled(N::spec_zero(), a), j, x);
    assert(values =~= Seq::new(
        legal.len(),
        |i: int| column_mean(row, k, a, view.spec_head_index(legal[i], mover) as nat),
    ));
    z
}

/// What is handed to the exponential keeps differences, by temperature; the best value's is nothing.
pub proof fn law_exponents_keep_differences<N: Scalar>(q: Seq<N>, temperature: N, i: int, j: int)
    requires
        ring::<N>(),
        splits(temperature),
        0 <= i < q.len(),
        0 <= j < q.len(),
    ensures
        softmax_exponents(q, temperature).len() == q.len(),
        softmax_exponents(q, temperature)[i].spec_minus(softmax_exponents(q, temperature)[j])
            == q[i].spec_minus(q[j]).spec_over(temperature),
        q[i] == spec_largest(q) ==> softmax_exponents(q, temperature)[i] == N::spec_zero(),
{
    let m = spec_largest(q);
    let t = temperature;
    let a = q[i].spec_minus(m);
    let b = q[j].spec_minus(m);
    // a == (q[i] - q[j]) + b
    let d = q[i].spec_minus(q[j]);
    law_ring(q[i], q[j], q[j]);
    law_ring(d, q[j], m.spec_negated());
    law_ring(q[i], m, m);
    law_ring(q[j], m, m);
    assert(a == d.spec_plus(b));
    law_splits(t, d, b);
    law_ring(d.spec_over(t), b.spec_over(t), b.spec_over(t));
    law_splits(t, a, a);
    law_ring(m, m, m);
}

/// Heads that agree on an action have what they agree on as their mean.
pub proof fn law_agreeing_heads_mean_what_they_say<N: Scalar>(
    row: Seq<N>,
    k: nat,
    a: nat,
    j: nat,
    x: N,
)
    requires
        ring::<N>(),
        0 < k,
        counts::<N>(k),
        splits(N::spec_count(k as u64)),
        forall|h: int| 0 <= h < k ==> #[trigger] column(row, k, a, j)[h] == x,
    ensures
        column_mean(row, k, a, j) == x,
{
    law_sum_of_the_same(column(row, k, a, j), x, k);
    law_splits(N::spec_count(k as u64), x, x);
}

/// The mean of the heads, so many times over, is their sum; and the column of an action holds that
/// action's entry of each head.
pub proof fn law_means_balance<N: Scalar>(row: Seq<N>, k: nat, a: nat, j: nat)
    requires
        ring::<N>(),
        splits(N::spec_count(k as u64)),
    ensures
        column_mean(row, k, a, j).spec_times(N::spec_count(k as u64)) == spec_sum(
            Seq::new(k, |h: int| row[h * a + j]),
        ),
{
    let s = spec_sum(column(row, k, a, j));
    assert(column(row, k, a, j) =~= Seq::new(k, |h: int| row[h * a + j]));
    law_splits(N::spec_count(k as u64), s, s);
}

/// The spread of values is the root of what their mean square is above the square of their mean.
pub proof fn law_spread<N: Scalar>(values: Seq<N>)
    requires
        ring::<N>(),
        0 < values.len(),
        counts::<N>(values.len()),
        splits(N::spec_count(values.len() as u64)),
    ensures
        ({
            let n = N::spec_count(values.len() as u64);
            let mean = spec_sum(values).spec_over(n);
            let square = spec_sum(values.map_values(|x: N| x.spec_times(x))).spec_over(n);
            spec_std(values) == square.spec_minus(mean.spec_times(mean)).spec_root()
        }),
{
    let n = N::spec_count(values.len() as u64);
    let s = spec_sum(values);
    let m = s.spec_over(n);
    let nm = m.spec_negated();
    let squares = values.map_values(|x: N| x.spec_times(x));
    let dev = values.map_values(|x: N| x.spec_minus(m).spec_times(x.spec_minus(m)));
    // (x - m)^2 + (x m + x m) == x^2 + m^2
    let cross = values.map_values(|x: N| x.spec_times(m));
    let both = values.map_values(|x: N| x.spec_times(m).spec_plus(x.spec_times(m)));
    let level = Seq::new(values.len(), |i: int| m.spec_times(m));
    let left = Seq::new(values.len(), |i: int| dev[i].spec_plus(both[i]));
    assert forall|i: int| 0 <= i < values.len() implies #[trigger] left[i] == squares[i].spec_plus(
        level[i],
    ) by {
        lemma_square(values[i], m);
    }
    assert forall|i: int| 0 <= i < values.len() implies #[trigger] both[i] == cross[i].spec_plus(
        cross[i],
    ) by {}
    law_sum_of_pairs(dev, both, left);
    law_sum_of_pairs(squares, level, left);
    law_sum_of_pairs(cross, cross, both);
    law_sum_scales(values, m);
    law_sum_of_the_same(level, m.spec_times(m), values.len());
    law_splits(n, s, s);
    // the cross terms add up to n m m twice, the level to n m m
    let d = spec_sum(dev);
    let q = spec_sum(squares);
    let c = s.spec_times(m);
    let l = n.spec_times(m.spec_times(m));
    law_ring(n, m, m);
    assert(s == n.spec_times(m));
    assert(c == l);
    assert(d.spec_plus(l.spec_plus(l)) == q.spec_plus(l));
    law_ring(d, l, l);
    law_ring(l, d.spec_plus(l), q);
    law_ring(d.spec_plus(l), l, l);
    law_ring(q, l, l);
    assert(d.spec_plus(l) == q);
    law_splits(n, d, l);
    law_splits(n, m.spec_times(m), l);
    law_ring(d.spec_over(n), l.spec_over(n), l);
    assert(l.spec_over(n) == m.spec_times(m));
}

proof fn lemma_square<N: Scalar>(x: N, m: N)
    requires
        ring::<N>(),
    ensures
        x.spec_minus(m).spec_times(x.spec_minus(m)).spec_plus(
            x.spec_times(m).spec_plus(x.spec_times(m)),
        ) == x.spec_times(x).spec_plus(m.spec_times(m)),
{
    // with d = x - m: x = d + m, so d d + (d m + m m) + (d m + m m) and (d + m)(d + m) + m m
    let d = x.spec_minus(m);
    law_ring(x, m, m);
    let dd = d.spec_times(d);
    let dm = d.spec_times(m);
    let mm = m.spec_times(m);
    law_ring(m, d, m);
    law_ring(d, d, m);
    law_ring(x, d, m);
    law_ring(d, m, m);
    let xm = x.spec_times(m);
    assert(xm == dm.spec_plus(mm));
    assert(x.spec_times(d) == dd.spec_plus(dm));
    assert(x.spec_times(x) == dd.spec_plus(dm).spec_plus(xm)) by {
        law_ring(x, d, m);
        law_ring(d, x, x);
    }
    // dd + (xm + xm) == dd + ((dm + mm) + xm) == ((dd + dm) + xm) + mm
    law_ring(dm, mm, xm);
    law_ring(dm, xm, mm);
    law_ring(mm, xm, xm);
    law_ring(dd, dm, xm);
    law_ring(dd, dm.spec_plus(xm), mm);
    law_ring(dd.spec_plus(dm), xm, mm);
}

/// What a chance node's outcomes are said to weigh adds up to one, each in proportion to its weight.
pub proof fn law_chances_add_up<N: Scalar>(dist: ChanceModel<N>)
    requires
        ring::<N>(),
        0 < dist.count(),
        dist matches ChanceModel::Weighted(p) ==> splits(spec_sum(p)),
        dist matches ChanceModel::Uniform(n) ==> counts::<N>(n as nat) && splits(
            N::spec_count(n as u64),
        ),
    ensures
        dist.probs().len() == dist.count(),
        spec_sum(dist.probs()) == N::spec_one(),
        dist matches ChanceModel::Weighted(p) ==> forall|i: int|
            0 <= i < p.len() ==> (#[trigger] dist.probs()[i]).spec_times(spec_sum(p)) == p[i],
        dist matches ChanceModel::Uniform(n) ==> forall|i: int, j: int|
            0 <= i < n && 0 <= j < n ==> #[trigger] dist.probs()[i] == #[trigger] dist.probs()[j],
{
    match dist {
        ChanceModel::Weighted(p) => {
            let s = spec_sum(p);
            law_sum_over(p, s);
            assert(dist.probs() =~= p.map_values(|x: N| x.spec_over(s)));
            law_splits(s, s, s);
            assert forall|i: int| 0 <= i < p.len() implies (
            #[trigger] dist.probs()[i]).spec_times(s) == p[i] by {
                law_splits(s, p[i], p[i]);
            }
        },
        ChanceModel::Uniform(n) => {
            let c = N::spec_count(n as u64);
            let even = N::spec_one().spec_over(c);
            law_sum_of_the_same(dist.probs(), even, n as nat);
            law_splits(c, N::spec_one(), N::spec_one());
        },
    }
}

/// How likely what is on the way is, one by one.
pub open spec fn odds_pending<S, N>(work: Seq<Pending<S, N>>) -> Seq<N> {
    work.map_values(|w: Pending<S, N>| w.prob)
}

/// How likely outcomes are, one by one.
pub open spec fn odds<S, N>(outcomes: Seq<Outcome<S, N>>) -> Seq<N> {
    outcomes.map_values(|o: Outcome<S, N>| o.prob)
}

/// Sampling so many outcomes splits evenly, and what a chance node says of its outcomes adds up to
/// one.
pub open spec fn fair<N: Scalar, G: Game<N>>(game: G, chance: ChanceMode) -> bool {
    match chance {
        ChanceMode::Committed { samples } => counts::<N>(committed(samples) as nat) && splits(
            N::spec_count(committed(samples) as u64),
        ),
        _ => forall|s: G::State|
            game.spec_actor(s) == Actor::Chance ==> spec_sum(
                (#[trigger] game.spec_chance_node(s)).probs(),
            ) == N::spec_one(),
    }
}

proof fn lemma_sampled_mass<N: Scalar, G: Game<N>, W: Reward<N, Event = G::Event>, R: Rng<N>>(
    game: G,
    reward: W,
    agent: usize,
    w: Pending<G::State, N>,
    k: usize,
    j: nat,
    rest: Seq<Pending<G::State, N>>,
    work: Seq<Pending<G::State, N>>,
    rng: R,
)
    requires
        ring::<N>(),
        counts::<N>(k as nat),
        splits(N::spec_count(k as u64)),
        0 < k,
        j <= k,
        odds_pending(work) == odds_pending(rest) + Seq::new(
            j,
            |i: int| w.prob.spec_over(N::spec_count(k as u64)),
        ),
    ensures
        sampled(game, reward, agent, w, k, j, work, rng).0 matches Ok(more) ==> spec_sum(
            odds_pending(more),
        ) == spec_sum(odds_pending(rest)).spec_plus(w.prob),
    decreases k - j,
{
    let c = N::spec_count(k as u64);
    let each = w.prob.spec_over(c);
    let drawn_odds = Seq::new(j, |i: int| each);
    if j < k {
        let (drawn, after) = game.spec_chance_node(w.state).drawn(rng);
        if let Ok(outcome) = drawn {
            if let Ok(one) = child(game, reward, agent, w, outcome, each) {
                assert(odds_pending(work.push(one)) =~= odds_pending(work).push(each));
                assert(drawn_odds =~= Seq::new(
                    j,
                    |i: int| w.prob.spec_over(N::spec_count(k as u64)),
                ));
                assert(odds_pending(work).push(each) =~= odds_pending(rest) + Seq::new(
                    j + 1,
                    |i: int| w.prob.spec_over(N::spec_count(k as u64)),
                ));
                lemma_sampled_mass(
                    game,
                    reward,
                    agent,
                    w,
                    k,
                    j + 1,
                    rest,
                    work.push(one),
                    after,
                );
            }
        }
    } else {
        law_sum_of_the_same(drawn_odds, each, k as nat);
        law_splits(c, w.prob, w.prob);
        law_sum_runs(odds_pending(rest), drawn_odds);
    }
}

proof fn lemma_enumerated_mass<N: Scalar, G: Game<N>, W: Reward<N, Event = G::Event>>(
    game: G,
    reward: W,
    agent: usize,
    w: Pending<G::State, N>,
    probs: Seq<N>,
    j: nat,
    rest: Seq<Pending<G::State, N>>,
    work: Seq<Pending<G::State, N>>,
)
    requires
        ring::<N>(),
        spec_sum(probs) == N::spec_one(),
        j <= probs.len(),
        odds_pending(work) == odds_pending(rest) + probs.take(j as int).map_values(
            |p: N| p.spec_times(w.prob),
        ),
    ensures
        enumerated(game, reward, agent, w, probs, j, work) matches Ok(more) ==> spec_sum(
            odds_pending(more),
        ) == spec_sum(odds_pending(rest)).spec_plus(w.prob),
    decreases probs.len() - j,
{
    let f = |p: N| p.spec_times(w.prob);
    if j < probs.len() {
        let p = probs[j as int];
        law_ring(w.prob, p, p);
        if let Ok(one) = child(game, reward, agent, w, j as usize, w.prob.spec_times(p)) {
            let so_far = probs.take(j as int).map_values(f);
            assert(odds_pending(work.push(one)) =~= odds_pending(work).push(
                w.prob.spec_times(p),
            ));
            assert(probs.take((j + 1) as int) =~= probs.take(j as int).push(p));
            assert(probs.take((j + 1) as int).map_values(f) =~= so_far.push(p.spec_times(w.prob)));
            assert(odds_pending(work).push(w.prob.spec_times(p)) =~= odds_pending(rest)
                + so_far.push(p.spec_times(w.prob)));
            lemma_enumerated_mass(game, reward, agent, w, probs, j + 1, rest, work.push(one));
        }
    } else {
        assert(probs.take(j as int) =~= probs);
        law_sum_scales(probs, w.prob);
        law_ring(w.prob, w.prob, w.prob);
        law_sum_runs(odds_pending(rest), probs.map_values(f));
    }
}

proof fn lemma_fan_mass<N: Scalar, G: Game<N>, W: Reward<N, Event = G::Event>, R: Rng<N>>(
    game: G,
    reward: W,
    chance: ChanceMode,
    agent: usize,
    resolved: Seq<Outcome<G::State, N>>,
    work: Seq<Pending<G::State, N>>,
    rng: R,
)
    requires
        ring::<N>(),
        fair::<N, G>(game, chance),
    ensures
        fan(game, reward, chance, agent, resolved, work, rng).0 matches Ok(out) ==> spec_sum(
            odds(out),
        ) == spec_sum(odds(resolved)).spec_plus(spec_sum(odds_pending(work))),
    decreases total_rank(work),
{
    if work.len() == 0 {
        assert(odds_pending(work) =~= Seq::empty());
        law_sum(Seq::<N>::empty(), N::spec_zero());
        law_ring(spec_sum(odds(resolved)), N::spec_zero(), N::spec_zero());
    } else {
        let w = work.last();
        let rest = work.drop_last();
        assert(odds_pending(work) =~= odds_pending(rest).push(w.prob));
        law_sum(odds_pending(rest), w.prob);
        if w.terminal || game.spec_actor(w.state) != Actor::Chance {
            super::fan::lemma_rank_positive(w.hops as nat);
            let o = Outcome {
                state: w.state,
                prob: w.prob,
                reward: w.reward,
                terminal: w.terminal,
            };
            lemma_fan_mass(game, reward, chance, agent, resolved.push(o), rest, rng);
            assert(odds(resolved.push(o)) =~= odds(resolved).push(w.prob));
            law_sum(odds(resolved), w.prob);
            let (a, b) = (spec_sum(odds(resolved)), spec_sum(odds_pending(rest)));
            law_ring(a, w.prob, b);
            law_ring(w.prob, b, b);
        } else if w.hops < crate::game::CHANCE_CHAIN_LIMIT {
            let (next, after) = unfolded(game, reward, chance, agent, w, resolved.len(), rest, rng);
            super::fan::lemma_unfolded(game, reward, chance, agent, w, resolved.len(), rest, rng);
            if let Ok(more) = next {
                lemma_fan_mass(game, reward, chance, agent, resolved, more, after);
                match chance {
                    ChanceMode::Committed { samples } => {
                        let k = committed(samples);
                        let none = Seq::new(0, |i: int| w.prob.spec_over(N::spec_count(k as u64)));
                        assert(odds_pending(rest) =~= odds_pending(rest) + none);
                        lemma_sampled_mass(game, reward, agent, w, k, 0, rest, rest, rng);
                    },
                    ChanceMode::ExpandAll => {
                        let probs = game.spec_chance_node(w.state).probs();
                        assert(odds_pending(rest) =~= odds_pending(rest) + probs.take(0).map_values(
                            |p: N| p.spec_times(w.prob),
                        ));
                        lemma_enumerated_mass(game, reward, agent, w, probs, 0, rest, rest);
                    },
                    ChanceMode::AlwaysResample => {},
                }
            }
        }
    }
}

/// The outcomes of a transition are a distribution: however long the chance chains, and whether their
/// outcomes were enumerated or sampled, how likely they are adds up to one.
pub proof fn law_outcomes_add_up<N: Scalar, G: Game<N>, W: Reward<N, Event = G::Event>, R: Rng<N>>(
    game: G,
    reward: W,
    chance: ChanceMode,
    agent: usize,
    state: G::State,
    terminal: bool,
    rng: R,
)
    requires
        ring::<N>(),
        fair::<N, G>(game, chance),
    ensures
        spec_chain_fan(game, reward, chance, agent, state, terminal, rng).0 matches Ok(out)
            ==> spec_sum(odds(out)) == N::spec_one(),
{
    let start = Pending {
        state,
        prob: N::spec_one(),
        reward: N::spec_zero(),
        terminal,
        hops: 0,
    };
    let none = Seq::<Outcome<G::State, N>>::empty();
    lemma_fan_mass(game, reward, chance, agent, none, seq![start], rng);
    let one = N::spec_one();
    assert(odds(none) =~= Seq::empty());
    assert(odds_pending(seq![start]) =~= Seq::<N>::empty().push(one));
    law_sum(Seq::<N>::empty(), one);
    law_ring(one, one, one);
}

/// What the beliefs about the co-movers' actions say of a branch: the product of them and of what was
/// known. Each more multiplies it, and a branch on which nothing is open keeps its weight.
pub proof fn law_weights_are_products<N: Scalar>(
    deferred: Seq<(usize, usize)>,
    probs: Seq<Seq<N>>,
    oi: usize,
    si: usize,
    scale: N,
    b: BranchModel<N>,
)
    ensures
        factored(Seq::empty(), probs, 0, scale) == Ok::<_, Fault>(scale),
        oi < probs.len() && si < probs[oi as int].len() ==> (factored(
            deferred.push((oi, si)),
            probs,
            0,
            scale,
        ) matches Ok(p) ==> factored(deferred, probs, 0, scale) matches Ok(q) && p == q.spec_times(
            probs[oi as int][si as int],
        )),
        b.deferred.len() == 0 ==> branch_weight(b, probs) == Ok::<_, Fault>(b.weight),
        b.deferred.len() > 0 ==> branch_weight(b, probs) == factored(
            b.deferred,
            probs,
            0,
            b.scale,
        ),
{
    lemma_factored(deferred, probs, oi, si, 0, scale);
}

proof fn lemma_factored<N: Scalar>(
    deferred: Seq<(usize, usize)>,
    probs: Seq<Seq<N>>,
    oi: usize,
    si: usize,
    i: nat,
    acc: N,
)
    requires
        i <= deferred.len(),
    ensures
        oi < probs.len() && si < probs[oi as int].len() ==> (factored(
            deferred.push((oi, si)),
            probs,
            i,
            acc,
        ) matches Ok(p) ==> factored(deferred, probs, i, acc) matches Ok(q) && p == q.spec_times(
            probs[oi as int][si as int],
        )),
    decreases deferred.len() - i,
{
    let more = deferred.push((oi, si));
    if i < deferred.len() {
        assert(more[i as int] == deferred[i as int]);
        let (o, s) = deferred[i as int];
        if o < probs.len() && s < probs[o as int].len() {
            let next = acc.spec_times(probs[o as int][s as int]);
            lemma_factored(deferred, probs, oi, si, i + 1, next);
        }
    } else {
        assert(more[i as int] == (oi, si));
        reveal_with_fuel(factored, 3);
    }
}

/// Weighing keeps every branch but for its weight, and leads to its child with what led to the node,
/// the branch's weight and the discount.
pub proof fn law_paths_multiply<N: Scalar>(
    branches: Seq<BranchModel<N>>,
    probs: Seq<Seq<N>>,
    parent: N,
    gamma: N,
    before: Seq<(usize, N)>,
    i: int,
)
    requires
        0 <= i < branches.len(),
    ensures
        branches_weighed(branches, probs, parent, gamma, 0, Seq::empty(), before) matches Ok((out, paths))
            ==> {
            &&& out.len() == branches.len()
            &&& paths.len() == before.len() + branches.len()
            &&& paths.take(before.len() as int) == before
            &&& out[i] == (BranchModel { weight: out[i].weight, ..branches[i] })
            &&& branch_weight(branches[i], probs) == Ok::<_, Fault>(out[i].weight)
            &&& paths[before.len() + i] == (
                branches[i].child,
                parent.spec_times(out[i].weight).spec_times(gamma),
            )
        },
{
    assert(before.take(before.len() as int) =~= before);
    lemma_branches(branches, probs, parent, gamma, before, 0, Seq::empty(), before, i);
}

proof fn lemma_branches<N: Scalar>(
    branches: Seq<BranchModel<N>>,
    probs: Seq<Seq<N>>,
    parent: N,
    gamma: N,
    before: Seq<(usize, N)>,
    j: nat,
    out: Seq<BranchModel<N>>,
    paths: Seq<(usize, N)>,
    i: int,
)
    requires
        0 <= i < branches.len(),
        j == out.len() <= branches.len(),
        paths.len() == before.len() + j,
        paths.take(before.len() as int) == before,
        i < j ==> out[i] == (BranchModel { weight: out[i].weight, ..branches[i] }) && branch_weight(
            branches[i],
            probs,
        ) == Ok::<_, Fault>(out[i].weight) && paths[before.len() + i] == (
            branches[i].child,
            parent.spec_times(out[i].weight).spec_times(gamma),
        ),
    ensures
        branches_weighed(branches, probs, parent, gamma, j, out, paths) matches Ok((o, p)) ==> {
            &&& o.len() == branches.len()
            &&& p.len() == before.len() + branches.len()
            &&& p.take(before.len() as int) == before
            &&& o[i] == (BranchModel { weight: o[i].weight, ..branches[i] })
            &&& branch_weight(branches[i], probs) == Ok::<_, Fault>(o[i].weight)
            &&& p[before.len() + i] == (
                branches[i].child,
                parent.spec_times(o[i].weight).spec_times(gamma),
            )
        },
    decreases branches.len() - j,
{
    if j < branches.len() {
        let b = branches[j as int];
        if let Ok(w) = branch_weight(b, probs) {
            let one = (b.child, parent.spec_times(w).spec_times(gamma));
            assert(paths.push(one).take(before.len() as int) =~= before);
            lemma_branches(
                branches,
                probs,
                parent,
                gamma,
                before,
                j + 1,
                out.push(BranchModel { weight: w, ..b }),
                paths.push(one),
                i,
            );
        }
    }
}

} // verus!
