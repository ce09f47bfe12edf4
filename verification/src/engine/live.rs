//! What every collection keeps: between ticks each episode is under way.

use vstd::prelude::*;

use super::advance::{advanced, stepped, valued, valued_seat};
use super::decide::{asked, buffered, decision, requests_for, Round};
#[allow(unused_imports)]
use super::decide::RoundOf;
use super::flush::{
    all_live, cut_off, finished_off, flushed, fragments, no_steps, seat_flushed, tails_read,
    tails_wanted,
};
#[allow(unused_imports)]
use super::flush::ProgressOf;
use super::run::{collected, collection, first_seat, ticked_at, ticking};
use super::seat::{seated, Parts, SeatModel};
#[allow(unused_imports)]
use super::seat::SeatOf;
use super::tick::{decided_at, deciding, decisions, moved_on, next_number, round_of, tick, tick_by};
use crate::encoder::StateEncoder;
use crate::episode::movers;
use crate::fault::Fault;
use crate::game::Game;
use crate::learner::{Learner, StepModel};
use crate::num::Scalar;
use crate::policies::modelfree::requests_served;
use crate::policies::planner::Planner;
use crate::policies::tree::expectimax::backup::InteriorTarget;
use crate::policies::tree::expectimax::search::Infer;
use crate::policy::Policy;
use crate::reward::Reward;
use crate::rng::SplitMix64;
use crate::start::StartDistribution;

verus! {

/// An episode is under way: it has not reached the horizon, it buffers no more decisions of an agent
/// than it has ticks, and none of them ended it.
pub open spec fn live_seat<S, A, F, N, V>(
    horizon: Option<usize>,
    seat: SeatModel<S, A, F, N, V>,
) -> bool {
    &&& match horizon {
        Some(h) => h == 0 || seat.tick < h,
        None => true,
    }
    &&& forall|si: int| 0 <= si < seat.traj.len() ==> (#[trigger] seat.traj[si]).len() <= seat.tick
    &&& unended(seat.traj)
}

/// No step ended its episode.
pub open spec fn unended<F, N, V>(traj: Seq<Seq<StepModel<F, N, V>>>) -> bool {
    forall|si: int, i: int|
        0 <= si < traj.len() && 0 <= i < traj[si].len() ==> !(#[trigger] traj[si][i]).terminal
}

/// Every episode is under way.
pub open spec fn live<S, A, F, N, V>(
    horizon: Option<usize>,
    seats: Seq<SeatModel<S, A, F, N, V>>,
) -> bool {
    forall|g: int| 0 <= g < seats.len() ==> live_seat(horizon, #[trigger] seats[g])
}

/// No entry occurs twice.
spec fn distinct(meta: Seq<(usize, usize)>) -> bool {
    forall|i: int, j: int| 0 <= i < j < meta.len() ==> #[trigger] meta[i] != #[trigger] meta[j]
}

proof fn lemma_movers_rise<N: Scalar, G: Game<N>>(game: G, state: G::State, n: nat)
    requires
        n <= usize::MAX,
    ensures
        forall|i: int|
            0 <= i < movers(game, state, n).len() ==> (#[trigger] movers(game, state, n)[i]) < n,
        forall|i: int, j: int|
            0 <= i < j < movers(game, state, n).len() ==> (#[trigger] movers(game, state, n)[i]) < (
            #[trigger] movers(game, state, n)[j]),
    decreases n,
{
    if n > 0 {
        lemma_movers_rise(game, state, (n - 1) as nat);
        let before = movers(game, state, (n - 1) as nat);
        let all = movers(game, state, n);
        assert forall|i: int| 0 <= i < all.len() implies (#[trigger] all[i]) < n by {
            if i < before.len() {
                assert(all[i] == before[i]);
            }
        }
        assert forall|i: int, j: int| 0 <= i < j < all.len() implies (#[trigger] all[i]) < (
        #[trigger] all[j]) by {
            assert(all[i] == before[i]);
            if j < before.len() {
                assert(all[j] == before[j]);
            }
        }
    }
}

proof fn lemma_asked<N: Scalar, G: Game<N>, A, F, V>(
    game: G,
    seats: Seq<SeatModel<G::State, A, F, N, V>>,
    g: nat,
)
    requires
        g <= seats.len() <= usize::MAX,
    ensures
        distinct(asked(game, seats, g)),
        forall|i: int|
            0 <= i < asked(game, seats, g).len() ==> (#[trigger] asked(game, seats, g)[i]).0 < g
                && asked(game, seats, g)[i].1 < game.spec_num_agents(),
    decreases g,
{
    if g > 0 {
        lemma_asked(game, seats, (g - 1) as nat);
        let n = game.spec_num_agents() as nat;
        let turn = movers(game, seats[g - 1].state, n);
        lemma_movers_rise(game, seats[g - 1].state, n);
        let before = asked(game, seats, (g - 1) as nat);
        let fresh = turn.map_values(|si: usize| ((g - 1) as usize, si));
        let all = asked(game, seats, g);
        assert(all == before + fresh);
        assert forall|i: int| 0 <= i < all.len() implies (#[trigger] all[i]).0 < g && all[i].1
            < game.spec_num_agents() by {
            if i < before.len() {
                assert(all[i] == before[i]);
            } else {
                assert(all[i] == ((g - 1) as usize, turn[i - before.len()]));
            }
        }
        assert forall|i: int, j: int| 0 <= i < j < all.len() implies #[trigger] all[i]
            != #[trigger] all[j] by {
            if j < before.len() {
                assert(all[i] == before[i] && all[j] == before[j]);
            } else {
                assert(all[j] == ((g - 1) as usize, turn[j - before.len()]));
                if i < before.len() {
                    assert(all[i] == before[i]);
                } else {
                    assert(all[i] == ((g - 1) as usize, turn[i - before.len()]));
                    assert(turn[i - before.len()] < turn[j - before.len()]);
                }
            }
        }
    }
}

/// `seat` has one step more than `was` for each agent that chose, none of them an end, and is else as
/// old.
spec fn grown<S, A, F, N, V>(
    was: SeatModel<S, A, F, N, V>,
    seat: SeatModel<S, A, F, N, V>,
    row: Seq<Option<usize>>,
    n: nat,
) -> bool {
    &&& was.traj.len() == seat.traj.len() == row.len() == n
    &&& seat.tick == was.tick
    &&& unended(seat.traj)
    &&& forall|si: int|
        0 <= si < n ==> (#[trigger] seat.traj[si]).len() == was.traj[si].len() + (
        if row[si] is Some {
            1int
        } else {
            0
        })
}

spec fn grown_all<S, A, F, N, V, R>(
    seats: Seq<SeatModel<S, A, F, N, V>>,
    r: Round<S, A, F, N, V, R>,
    n: nat,
) -> bool {
    &&& r.seats.len() == r.acted.len() == seats.len()
    &&& forall|g: int|
        0 <= g < seats.len() ==> grown(seats[g], #[trigger] r.seats[g], r.acted[g], n)
}

/// Only the first `j` of `meta` have chosen.
spec fn chosen_by(acted: Seq<Seq<Option<usize>>>, meta: Seq<(usize, usize)>, j: int) -> bool {
    forall|g: int, si: int|
        0 <= g < acted.len() && 0 <= si < acted[g].len() && (#[trigger] acted[g][si]) is Some
            ==> exists|k: int|
            0 <= k < j && (#[trigger] meta[k]).0 == g && meta[k].1 == si
}

proof fn lemma_decision_grows<
    N: Scalar,
    G: Game<N>,
    E: StateEncoder<State = G::State>,
    W: Reward<N, Event = G::Event>,
    P: Policy<N>,
    L: Learner<N, E::Feature, P::Evaluation, E>,
>(
    parts: Parts<G, E, W, P, L>,
    seats: Seq<SeatOf<N, G, E, P>>,
    a: RoundOf<N, G, E, P, L>,
    eval: (P::Evaluation, Vec<InteriorTarget<E::Feature, N>>),
    meta: Seq<(usize, usize)>,
    j: int,
    b: RoundOf<N, G, E, P, L>,
    n: nat,
)
    requires
        0 <= j < meta.len(),
        distinct(meta),
        meta[j].0 < seats.len(),
        meta[j].1 < n,
        grown_all(seats, a, n),
        chosen_by(a.acted, meta, j),
        decision(parts, a, eval, meta[j].0, meta[j].1, b),
    ensures
        grown_all(seats, b, n),
        chosen_by(b.acted, meta, j + 1),
{
    let g = meta[j].0 as int;
    let si = meta[j].1 as int;
    assert(grown(seats[g], a.seats[g], a.acted[g], n));
    assert(a.acted[g][si] is None) by {
        if a.acted[g][si] is Some {
            let k = choose|k: int| 0 <= k < j && (#[trigger] meta[k]).0 == g && meta[k].1 == si;
            assert(meta[k] == meta[j]);
        }
    }
    let before = a.seats[g].traj;
    let after = b.seats[g].traj;
    assert(after[si] == before[si].push(after[si].last()));
    assert(unended(after)) by {
        assert forall|x: int, i: int|
            0 <= x < after.len() && 0 <= i < after[x].len() implies !(#[trigger] after[x][i]).terminal by {
            if x == si {
                if i < before[si].len() {
                    assert(after[x][i] == before[x][i]);
                    assert(!before[x][i].terminal);
                }
            } else {
                assert(after[x] == before[x]);
                assert(!before[x][i].terminal);
            }
        }
    }
    assert forall|x: int| 0 <= x < n implies (#[trigger] after[x]).len() == seats[g].traj[x].len() + (
    if b.acted[g][x] is Some {
        1int
    } else {
        0
    }) by {
        assert(before[x].len() == seats[g].traj[x].len() + (if a.acted[g][x] is Some {
            1int
        } else {
            0
        }));
        if x != si {
            assert(after[x] == before[x]);
        }
    }
    assert forall|x: int| 0 <= x < seats.len() implies grown(
        seats[x],
        #[trigger] b.seats[x],
        b.acted[x],
        n,
    ) by {
        if x != g {
            assert(grown(seats[x], a.seats[x], a.acted[x], n));
            assert(b.seats[x] == a.seats[x] && b.acted[x] == a.acted[x]);
        }
    }
    assert forall|x: int, y: int|
        0 <= x < b.acted.len() && 0 <= y < b.acted[x].len() && (
        #[trigger] b.acted[x][y]) is Some implies exists|k: int|
        0 <= k < j + 1 && (#[trigger] meta[k]).0 == x && meta[k].1 == y by {
        if x == g && y == si {
            assert(meta[j].0 == x && meta[j].1 == y);
        } else {
            assert(b.acted[x][y] == a.acted[x][y]);
            let k = choose|k: int| 0 <= k < j && (#[trigger] meta[k]).0 == x && meta[k].1 == y;
            assert(0 <= k < j + 1 && meta[k].0 == x && meta[k].1 == y);
        }
    }
}

proof fn lemma_decisions_grow<
    N: Scalar,
    G: Game<N>,
    E: StateEncoder<State = G::State>,
    W: Reward<N, Event = G::Event>,
    P: Policy<N>,
    L: Learner<N, E::Feature, P::Evaluation, E>,
>(
    parts: Parts<G, E, W, P, L>,
    seats: Seq<SeatOf<N, G, E, P>>,
    a: RoundOf<N, G, E, P, L>,
    evals: Seq<(P::Evaluation, Vec<InteriorTarget<E::Feature, N>>)>,
    meta: Seq<(usize, usize)>,
    chain: Seq<RoundOf<N, G, E, P, L>>,
    j: int,
    n: nat,
)
    requires
        deciding(parts, a, evals, meta, chain),
        0 <= j < chain.len(),
        distinct(meta),
        forall|i: int| 0 <= i < meta.len() ==> (#[trigger] meta[i]).0 < seats.len() && meta[i].1 < n,
        grown_all(seats, a, n),
        chosen_by(a.acted, meta, 0),
    ensures
        grown_all(seats, chain[j], n),
        chosen_by(chain[j].acted, meta, j),
    decreases j,
{
    if j > 0 {
        lemma_decisions_grow(parts, seats, a, evals, meta, chain, j - 1, n);
        assert(decided_at(parts, chain, evals, meta, j - 1));
        assert(meta[j - 1].0 < seats.len());
        lemma_decision_grows(
            parts,
            seats,
            chain[j - 1],
            evals[j - 1],
            meta,
            j - 1,
            chain[j],
            n,
        );
    }
}

/// `seat` is as old as `was`, and has at most one step more for each agent, none of them an end.
spec fn stretched<S, A, F, N, V>(
    was: SeatModel<S, A, F, N, V>,
    seat: SeatModel<S, A, F, N, V>,
    n: nat,
) -> bool {
    &&& was.traj.len() == seat.traj.len() == n
    &&& seat.tick == was.tick
    &&& unended(seat.traj)
    &&& forall|si: int|
        0 <= si < n ==> (#[trigger] seat.traj[si]).len() <= was.traj[si].len() + 1
}

proof fn lemma_valued_stretches<
    N: Scalar,
    G: Game<N>,
    E: StateEncoder<State = G::State>,
    W: Reward<N, Event = G::Event>,
    P: Policy<N>,
    L: Learner<N, E::Feature, P::Evaluation, E>,
>(
    parts: Parts<G, E, W, P, L>,
    seats: Seq<SeatOf<N, G, E, P>>,
    mid: RoundOf<N, G, E, P, L>,
    n: nat,
)
    requires
        grown_all(seats, mid, n),
    ensures
        valued(parts, mid.seats, mid.acted).len() == seats.len(),
        forall|g: int|
            0 <= g < seats.len() ==> stretched(
                seats[g],
                #[trigger] valued(parts, mid.seats, mid.acted)[g],
                n,
            ),
{
    let out = valued(parts, mid.seats, mid.acted);
    assert forall|g: int| 0 <= g < seats.len() implies stretched(seats[g], #[trigger] out[g], n) by {
        let seat = mid.seats[g];
        let row = mid.acted[g];
        assert(grown(seats[g], seat, row, n));
        let one = valued_seat(parts, seat, row);
        assert(out[g] == one || out[g] == seat);
        assert(one.traj.len() == n && one.tick == seat.tick);
        assert forall|si: int| 0 <= si < n implies (#[trigger] one.traj[si]).len()
            <= seats[g].traj[si].len() + 1 by {
            assert(seat.traj[si].len() == seats[g].traj[si].len() + (if row[si] is Some {
                1int
            } else {
                0
            }));
        }
        assert forall|si: int| 0 <= si < n implies (#[trigger] seat.traj[si]).len()
            <= seats[g].traj[si].len() + 1 by {}
        assert forall|si: int, i: int|
            0 <= si < one.traj.len() && 0 <= i < one.traj[si].len() implies !(
        #[trigger] one.traj[si][i]).terminal by {
            if i < seat.traj[si].len() {
                assert(one.traj[si][i] == seat.traj[si][i]);
                assert(!seat.traj[si][i].terminal);
            }
        }
    }
}

proof fn lemma_stepped_lives<
    N: Scalar,
    G: Game<N>,
    E: StateEncoder<State = G::State>,
    W: Reward<N, Event = G::Event>,
    P: Policy<N>,
    L: Learner<N, E::Feature, P::Evaluation, E>,
>(
    parts: Parts<G, E, W, P, L>,
    was: SeatOf<N, G, E, P>,
    seat: SeatOf<N, G, E, P>,
    row: Seq<Option<usize>>,
    n: nat,
)
    requires
        live_seat(parts.game.spec_truncation_horizon(), was),
        stretched(was, seat, n),
    ensures
        stepped(parts, seat, row) matches Ok((next, terminal, cut)) ==> next.traj.len() == n && (
        terminal || cut || live_seat(parts.game.spec_truncation_horizon(), next)),
{
    if let Ok((next, terminal, cut)) = stepped(parts, seat, row) {
        if !terminal && !cut {
            assert forall|si: int| 0 <= si < n implies (#[trigger] next.traj[si]).len()
                <= next.tick by {
                assert(seat.traj[si].len() <= was.traj[si].len() + 1);
                assert(was.traj[si].len() <= was.tick);
            }
            assert forall|si: int, i: int|
                0 <= si < next.traj.len() && 0 <= i < next.traj[si].len() implies !(
            #[trigger] next.traj[si][i]).terminal by {
                assert(!seat.traj[si][i].terminal);
            }
        }
    }
}

/// Each of the first `g` games lives, or is among the finished.
spec fn settled_upto<S, A, F, N, V>(
    horizon: Option<usize>,
    seats: Seq<SeatModel<S, A, F, N, V>>,
    finished: Seq<(usize, bool)>,
    g: int,
) -> bool {
    forall|i: int|
        0 <= i < g ==> live_seat(horizon, #[trigger] seats[i]) || exists|k: int|
            0 <= k < finished.len() && (#[trigger] finished[k]).0 == i
}

proof fn lemma_advanced_lives<
    N: Scalar,
    G: Game<N>,
    E: StateEncoder<State = G::State>,
    W: Reward<N, Event = G::Event>,
    P: Policy<N>,
    L: Learner<N, E::Feature, P::Evaluation, E>,
    D: StartDistribution<G::State>,
>(
    parts: Parts<G, E, W, P, L>,
    was: Seq<SeatOf<N, G, E, P>>,
    seats: Seq<SeatOf<N, G, E, P>>,
    acted: Seq<Seq<Option<usize>>>,
    start: D,
    buffer_rng: SplitMix64,
    g: nat,
    n: nat,
)
    requires
        g <= seats.len() == was.len(),
        seats.len() <= usize::MAX,
        live(parts.game.spec_truncation_horizon(), was),
        forall|i: int| 0 <= i < seats.len() ==> stretched(was[i], #[trigger] seats[i], n),
    ensures
        advanced(parts, seats, acted, start, buffer_rng, g) matches Ok(a) ==> {
            &&& a.seats.len() == seats.len()
            &&& seated(a.seats, n)
            &&& settled_upto(
                parts.game.spec_truncation_horizon(),
                a.seats,
                a.finished,
                g as int,
            )
            &&& forall|i: int| g <= i < seats.len() ==> (#[trigger] a.seats[i]) == seats[i]
            &&& forall|k: int|
                0 <= k < a.finished.len() ==> (#[trigger] a.finished[k]).0 < seats.len()
        },
    decreases g,
{
    let horizon = parts.game.spec_truncation_horizon();
    if g == 0 {
        assert forall|i: int| 0 <= i < seats.len() implies (#[trigger] seats[i]).traj.len() == n by {
            assert(stretched(was[i], seats[i], n));
        }
    } else {
        lemma_advanced_lives(
            parts,
            was,
            seats,
            acted,
            start,
            buffer_rng,
            (g - 1) as nat,
            n,
        );
        if let Ok(a) = advanced(parts, seats, acted, start, buffer_rng, (g - 1) as nat) {
            let at = g - 1;
            assert(a.seats[at] == seats[at]);
            assert(stretched(was[at], seats[at], n));
            assert(live_seat(horizon, was[at]));
            lemma_stepped_lives(parts, was[at], seats[at], acted[at], n);
            if let Ok((seat, terminal, cut)) = stepped(parts, a.seats[at], acted[at]) {
                let b = advanced(parts, seats, acted, start, buffer_rng, g)->Ok_0;
                assert forall|i: int| 0 <= i < b.seats.len() implies (#[trigger] b.seats[i]).traj.len()
                    == n by {
                    if i != at {
                        assert(a.seats[i].traj.len() == n);
                    }
                }
                assert forall|i: int| 0 <= i < g implies live_seat(horizon, #[trigger] b.seats[i])
                    || exists|k: int|
                    0 <= k < b.finished.len() && (#[trigger] b.finished[k]).0 == i by {
                    if i < at {
                        assert(b.seats[i] == a.seats[i]);
                        if !live_seat(horizon, a.seats[i]) {
                            let k = choose|k: int|
                                0 <= k < a.finished.len() && (#[trigger] a.finished[k]).0 == i;
                            assert(b.finished[k] == a.finished[k]);
                        }
                    } else if terminal || cut {
                        assert(b.finished[a.finished.len() as int].0 == i);
                    }
                }
                assert forall|k: int| 0 <= k < b.finished.len() implies (#[trigger] b.finished[k]).0
                    < seats.len() by {
                    if k < a.finished.len() {
                        assert(b.finished[k] == a.finished[k]);
                    }
                }
            }
        }
    }
}

proof fn lemma_fresh_lives<S, A, F, N, V>(
    horizon: Option<usize>,
    seat: SeatModel<S, A, F, N, V>,
    n: nat,
)
    requires
        seat.traj == no_steps::<StepModel<F, N, V>>(n),
        match horizon {
            Some(h) => h == 0 || seat.tick < h,
            None => true,
        },
    ensures
        live_seat(horizon, seat),
        seat.traj.len() == n,
{
}

/// Every game lives, or is yet to be flushed.
spec fn unsettled_from<S, A, F, N, V>(
    horizon: Option<usize>,
    seats: Seq<SeatModel<S, A, F, N, V>>,
    finished: Seq<(usize, bool)>,
    from: int,
) -> bool {
    forall|i: int|
        0 <= i < seats.len() ==> live_seat(horizon, #[trigger] seats[i]) || exists|k: int|
            from <= k < finished.len() && (#[trigger] finished[k]).0 == i
}

proof fn lemma_flushed_lives<
    N: Scalar,
    G: Game<N>,
    E: StateEncoder<State = G::State>,
    W: Reward<N, Event = G::Event>,
    P: Policy<N>,
    L: Learner<N, E::Feature, P::Evaluation, E>,
    D: StartDistribution<G::State>,
>(
    parts: Parts<G, E, W, P, L>,
    p: ProgressOf<N, G, E, P, L, D>,
    finished: Seq<(usize, bool)>,
    meta: Seq<(usize, usize)>,
    tails: Seq<Seq<N>>,
    k: nat,
    n: nat,
)
    requires
        k <= finished.len(),
        seated(p.seats, n),
        unsettled_from(parts.game.spec_truncation_horizon(), p.seats, finished, 0),
        forall|i: int| 0 <= i < finished.len() ==> (#[trigger] finished[i]).0 < p.seats.len(),
    ensures
        flushed(parts, p, finished, meta, tails, k) matches Ok(q) ==> {
            &&& q.seats.len() == p.seats.len()
            &&& seated(q.seats, n)
            &&& unsettled_from(parts.game.spec_truncation_horizon(), q.seats, finished, k as int)
        },
    decreases k,
{
    let horizon = parts.game.spec_truncation_horizon();
    if k > 0 {
        lemma_flushed_lives(parts, p, finished, meta, tails, (k - 1) as nat, n);
        if let Ok(q) = flushed(parts, p, finished, meta, tails, (k - 1) as nat) {
            let g = finished[k - 1].0;
            assert(g < p.seats.len());
            if let Ok(b) = seat_flushed(parts, q, meta, tails, g) {
                assert(q.seats[g as int].traj.len() == n);
                lemma_fresh_lives(horizon, b.seats[g as int], n);
                assert forall|i: int| 0 <= i < b.seats.len() implies (#[trigger] b.seats[i]).traj.len()
                    == n by {
                    assert(q.seats[i].traj.len() == n);
                }
                assert forall|i: int| 0 <= i < b.seats.len() implies live_seat(
                    horizon,
                    #[trigger] b.seats[i],
                ) || exists|j: int| k <= j < finished.len() && (#[trigger] finished[j]).0 == i by {
                    if i != g {
                        assert(b.seats[i] == q.seats[i]);
                        if !live_seat(horizon, q.seats[i]) {
                            let j = choose|j: int|
                                k - 1 <= j < finished.len() && (#[trigger] finished[j]).0 == i;
                            assert(j != k - 1);
                        }
                    }
                }
            }
        }
    }
}

/// A tick keeps every episode under way: what ends or is cut short begins anew.
pub proof fn law_tick_keeps_live<
    N: Scalar,
    G: Game<N>,
    E: StateEncoder<State = G::State>,
    W: Reward<N, Event = G::Event>,
    P: Planner<N, G, E, W, B>,
    L: Learner<N, E::Feature, P::Evaluation, E>,
    B: Infer<E::Feature, N>,
    D: StartDistribution<G::State>,
>(
    parts: Parts<G, E, W, P, L>,
    a: ProgressOf<N, G, E, P, L, D>,
    before: B,
    after: B,
    b: ProgressOf<N, G, E, P, L, D>,
)
    requires
        a.seats.len() <= usize::MAX,
        seated(a.seats, parts.game.spec_num_agents() as nat),
        live(parts.game.spec_truncation_horizon(), a.seats),
        tick::<N, G, E, W, P, L, B, D>(parts, a, before, after, b),
    ensures
        b.seats.len() == a.seats.len(),
        seated(b.seats, parts.game.spec_num_agents() as nat),
        live(parts.game.spec_truncation_horizon(), b.seats),
{
    let n = parts.game.spec_num_agents() as nat;
    let horizon = parts.game.spec_truncation_horizon();
    let meta = asked(parts.game, a.seats, a.seats.len());
    let (evals, mid, between, rows) = choose|
        evals: Seq<(P::Evaluation, Vec<InteriorTarget<E::Feature, N>>)>,
        mid: RoundOf<N, G, E, P, L>,
        between: B,
        rows: Seq<Seq<N>>,
    | #[trigger]
        tick_by::<N, G, E, W, P, L, B, D>(
            parts,
            a,
            evals,
            mid,
            before,
            between,
            after,
            rows,
            b,
        );
    let first = round_of(parts, a);
    let chain = choose|chain: Seq<RoundOf<N, G, E, P, L>>| #[trigger]
        deciding(parts, first, evals, meta, chain) && chain.last() == mid && (chain.len() - 1
            == evals.len() || chain.len() - 1 == meta.len());
    lemma_asked(parts.game, a.seats, a.seats.len());
    assert forall|g: int| 0 <= g < a.seats.len() implies grown(
        a.seats[g],
        #[trigger] first.seats[g],
        first.acted[g],
        n,
    ) by {
        assert(a.seats[g].traj.len() == n);
        assert(live_seat(horizon, a.seats[g]));
        assert(first.acted[g] == crate::util::spec_filled(None::<usize>, n));
    }
    assert(grown_all(a.seats, first, n));
    lemma_decisions_grow(parts, a.seats, first, evals, meta, chain, chain.len() - 1, n);
    assert(grown_all(a.seats, mid, n));
    lemma_valued_stretches(parts, a.seats, mid, n);
    let seats = valued(parts, mid.seats, mid.acted);
    lemma_advanced_lives(
        parts,
        a.seats,
        seats,
        mid.acted,
        a.start,
        a.buffer_rng,
        seats.len(),
        n,
    );
    let adv = advanced(parts, seats, mid.acted, a.start, a.buffer_rng, seats.len())->Ok_0;
    let p = moved_on::<N, G, E, W, P, L, D>(adv, mid, next_number(a.search_rng).1);
    let wanted = tails_wanted(parts, p.seats, adv.finished);
    let tails = tails_read(parts, p.seats, wanted, rows, wanted.len())->Ok_0;
    assert(finished_off(parts, p, adv.finished, rows) == Ok::<_, Fault>(b));
    assert forall|i: int| 0 <= i < p.seats.len() implies live_seat(horizon, #[trigger] p.seats[i])
        || exists|k: int| 0 <= k < adv.finished.len() && (#[trigger] adv.finished[k]).0 == i by {}
    lemma_flushed_lives(parts, p, adv.finished, wanted, tails, adv.finished.len(), n);
    assert forall|i: int| 0 <= i < b.seats.len() implies live_seat(horizon, #[trigger] b.seats[i]) by {}
}

proof fn lemma_cut_lives<
    N: Scalar,
    G: Game<N>,
    E: StateEncoder<State = G::State>,
    W: Reward<N, Event = G::Event>,
    P: Policy<N>,
    L: Learner<N, E::Feature, P::Evaluation, E>,
    D: StartDistribution<G::State>,
>(
    parts: Parts<G, E, W, P, L>,
    p: ProgressOf<N, G, E, P, L, D>,
    meta: Seq<(usize, usize)>,
    tails: Seq<Seq<N>>,
    k: nat,
    n: nat,
)
    requires
        k <= p.seats.len(),
        seated(p.seats, n),
        live(parts.game.spec_truncation_horizon(), p.seats),
    ensures
        cut_off(parts, p, meta, tails, k) matches Ok(q) ==> {
            &&& q.seats.len() == p.seats.len()
            &&& seated(q.seats, n)
            &&& live(parts.game.spec_truncation_horizon(), q.seats)
        },
    decreases k,
{
    let horizon = parts.game.spec_truncation_horizon();
    if k > 0 {
        lemma_cut_lives(parts, p, meta, tails, (k - 1) as nat, n);
        if let Ok(q) = cut_off(parts, p, meta, tails, (k - 1) as nat) {
            if let Ok(b) = cut_off(parts, p, meta, tails, k) {
                let at = k - 1;
                assert(live_seat(horizon, q.seats[at]));
                assert(q.seats[at].traj.len() == n);
                lemma_fresh_lives(horizon, b.seats[at], n);
                assert forall|i: int| 0 <= i < b.seats.len() implies (#[trigger] b.seats[i]).traj.len()
                    == n by {
                    assert(q.seats[i].traj.len() == n);
                }
                assert forall|i: int| 0 <= i < b.seats.len() implies live_seat(
                    horizon,
                    #[trigger] b.seats[i],
                ) by {
                    assert(live_seat(horizon, q.seats[i]));
                }
            }
        }
    }
}

proof fn lemma_ticking_lives<
    N: Scalar,
    G: Game<N>,
    E: StateEncoder<State = G::State>,
    W: Reward<N, Event = G::Event>,
    P: Planner<N, G, E, W, B>,
    L: Learner<N, E::Feature, P::Evaluation, E>,
    B: Infer<E::Feature, N>,
    D: StartDistribution<G::State>,
>(
    parts: Parts<G, E, W, P, L>,
    n_records: nat,
    a: ProgressOf<N, G, E, P, L, D>,
    chain: Seq<ProgressOf<N, G, E, P, L, D>>,
    nets: Seq<B>,
    j: int,
)
    requires
        a.seats.len() <= usize::MAX,
        seated(a.seats, parts.game.spec_num_agents() as nat),
        live(parts.game.spec_truncation_horizon(), a.seats),
        ticking::<N, G, E, W, P, L, B, D>(parts, n_records, a, chain, nets),
        0 <= j < chain.len(),
    ensures
        chain[j].seats.len() == a.seats.len(),
        seated(chain[j].seats, parts.game.spec_num_agents() as nat),
        live(parts.game.spec_truncation_horizon(), chain[j].seats),
    decreases j,
{
    if j > 0 {
        lemma_ticking_lives::<N, G, E, W, P, L, B, D>(parts, n_records, a, chain, nets, j - 1);
        assert(ticked_at::<N, G, E, W, P, L, B, D>(parts, n_records, chain, nets, j - 1));
        law_tick_keeps_live::<N, G, E, W, P, L, B, D>(
            parts,
            chain[j - 1],
            nets[j - 1],
            nets[j],
            chain[j]);
    }
}

/// A collection keeps every episode under way. What an engine has buffered therefore can be stored: no
/// trajectory has more decisions than its episode has ticks, no step ended its episode, and no tick
/// count has reached a horizon.
pub proof fn law_collect_keeps_live<
    N: Scalar,
    G: Game<N>,
    E: StateEncoder<State = G::State>,
    W: Reward<N, Event = G::Event>,
    P: Planner<N, G, E, W, B>,
    L: Learner<N, E::Feature, P::Evaluation, E>,
    B: Infer<E::Feature, N>,
    D: StartDistribution<G::State>,
>(
    parts: Parts<G, E, W, P, L>,
    n_records: nat,
    max_ticks: nat,
    a: ProgressOf<N, G, E, P, L, D>,
    source: (B, B),
    b: ProgressOf<N, G, E, P, L, D>,
)
    requires
        a.seats.len() <= usize::MAX,
        seated(a.seats, parts.game.spec_num_agents() as nat),
        live(parts.game.spec_truncation_horizon(), a.seats),
        collected::<N, G, E, W, P, L, B, D>(
            parts,
            n_records,
            max_ticks,
            a,
            source,
            b,
        ),
    ensures
        b.seats.len() == a.seats.len(),
        seated(b.seats, parts.game.spec_num_agents() as nat),
        live(parts.game.spec_truncation_horizon(), b.seats),
{
    let n = parts.game.spec_num_agents() as nat;
    let (chain, nets) = choose|chain: Seq<ProgressOf<N, G, E, P, L, D>>, nets: Seq<B>| #[trigger]
        collection::<N, G, E, W, P, L, B, D>(
            parts,
            n_records,
            max_ticks,
            a,
            source,
            chain,
            nets,
            b,
        );
    lemma_ticking_lives::<N, G, E, W, P, L, B, D>(parts, n_records, a, chain, nets, chain.len() - 1);
    let p = chain.last();
    if parts.learner.spec_bootstraps_fragments() {
        let meta = tails_wanted(parts, p.seats, all_live(p.seats.len()));
        let rows = choose|rows: Seq<Seq<N>>| #[trigger]
            requests_served::<N, G, E, B>(
                parts.encoder,
                requests_for(p.seats, meta),
                (nets.last(), source.1),
                rows,
            ) && Ok::<
                _,
                Fault,
            >(b) == fragments(parts, p, rows);
        let tails = tails_read(parts, p.seats, meta, rows, meta.len())->Ok_0;
        lemma_cut_lives(parts, p, meta, tails, p.seats.len(), n);
    }
}

/// No decision is buffered.
pub open spec fn bare<S, A, F, N, V>(seat: SeatModel<S, A, F, N, V>) -> bool {
    forall|si: int| 0 <= si < seat.traj.len() ==> (#[trigger] seat.traj[si]).len() == 0
}

proof fn lemma_cut_bares<
    N: Scalar,
    G: Game<N>,
    E: StateEncoder<State = G::State>,
    W: Reward<N, Event = G::Event>,
    P: Policy<N>,
    L: Learner<N, E::Feature, P::Evaluation, E>,
    D: StartDistribution<G::State>,
>(
    parts: Parts<G, E, W, P, L>,
    p: ProgressOf<N, G, E, P, L, D>,
    meta: Seq<(usize, usize)>,
    tails: Seq<Seq<N>>,
    k: nat,
)
    requires
        k <= p.seats.len(),
    ensures
        cut_off(parts, p, meta, tails, k) matches Ok(q) ==> {
            &&& q.seats.len() == p.seats.len()
            &&& forall|g: int| 0 <= g < k ==> bare(#[trigger] q.seats[g])
        },
    decreases k,
{
    if k > 0 {
        lemma_cut_bares(parts, p, meta, tails, (k - 1) as nat);
        if let Ok(q) = cut_off(parts, p, meta, tails, (k - 1) as nat) {
            if let Ok(b) = cut_off(parts, p, meta, tails, k) {
                assert(bare(b.seats[k - 1]));
                assert forall|g: int| 0 <= g < k implies bare(#[trigger] b.seats[g]) by {
                    if g < k - 1 {
                        assert(b.seats[g] == q.seats[g]);
                    }
                }
            }
        }
    }
}

/// Where fragments are bootstrapped, a collection leaves no decision buffered: no record spans two
/// collections.
pub proof fn law_no_record_spans_collections<
    N: Scalar,
    G: Game<N>,
    E: StateEncoder<State = G::State>,
    W: Reward<N, Event = G::Event>,
    P: Planner<N, G, E, W, B>,
    L: Learner<N, E::Feature, P::Evaluation, E>,
    B: Infer<E::Feature, N>,
    D: StartDistribution<G::State>,
>(
    parts: Parts<G, E, W, P, L>,
    n_records: nat,
    max_ticks: nat,
    a: ProgressOf<N, G, E, P, L, D>,
    source: (B, B),
    b: ProgressOf<N, G, E, P, L, D>,
)
    requires
        parts.learner.spec_bootstraps_fragments(),
        collected::<N, G, E, W, P, L, B, D>(
            parts,
            n_records,
            max_ticks,
            a,
            source,
            b,
        ),
    ensures
        forall|g: int| 0 <= g < b.seats.len() ==> bare(#[trigger] b.seats[g]),
{
    let (chain, nets) = choose|chain: Seq<ProgressOf<N, G, E, P, L, D>>, nets: Seq<B>| #[trigger]
        collection::<N, G, E, W, P, L, B, D>(
            parts,
            n_records,
            max_ticks,
            a,
            source,
            chain,
            nets,
            b,
        );
    let p = chain.last();
    let meta = tails_wanted(parts, p.seats, all_live(p.seats.len()));
    let rows = choose|rows: Seq<Seq<N>>| #[trigger]
        requests_served::<N, G, E, B>(
                parts.encoder,
                requests_for(p.seats, meta),
                (nets.last(), source.1),
                rows,
            ) && Ok::<
            _,
            Fault,
        >(b) == fragments(parts, p, rows);
    let tails = tails_read(parts, p.seats, meta, rows, meta.len())->Ok_0;
    lemma_cut_bares(parts, p, meta, tails, p.seats.len());
}

/// A new engine's episodes are under way.
pub proof fn law_first_seat_is_live<N: Scalar, G: Game<N>, P: Policy<N>, F>(
    game: G,
    policy: P,
    dealt: (G::State, SplitMix64),
)
    ensures
        live_seat(
            game.spec_truncation_horizon(),
            first_seat::<N, G, P, F>(game, policy, dealt),
        ),
{
}

} // verus!
