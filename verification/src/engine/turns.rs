//! Whose turn it is, what deciding leaves behind, and how every game takes its tick.

use vstd::prelude::*;

#[allow(unused_imports)]
use super::advance::{advanced, stepped, valued, valued_seat};
#[allow(unused_imports)]
use super::decide::{asked, RoundOf};
#[allow(unused_imports)]
use super::earned::law_decisions_open_a_step;
#[allow(unused_imports)]
use super::run::{dealt_games, game_seed, steps_of};
#[allow(unused_imports)]
use super::seat::{Parts, SeatModel, SeatOf};
#[allow(unused_imports)]
use super::tick::{decided_at, deciding};
#[allow(unused_imports)]
use crate::encoder::StateEncoder;
#[allow(unused_imports)]
use crate::episode::movers;
#[allow(unused_imports)]
use crate::fault::Fault;
#[allow(unused_imports)]
use crate::game::{dealt, Actor, Game};
#[allow(unused_imports)]
use crate::learner::{Learner, StepModel};
#[allow(unused_imports)]
use crate::num::Scalar;
#[allow(unused_imports)]
use crate::policies::tree::expectimax::backup::InteriorTarget;
#[allow(unused_imports)]
use crate::policy::Policy;
#[allow(unused_imports)]
use crate::reward::Reward;
#[allow(unused_imports)]
use crate::rng::{generator, SplitMix64};
#[allow(unused_imports)]
use crate::start::StartDistribution;

verus! {

/// Those with a move are the agents that have a legal action, each once, in order.
pub proof fn law_movers_have_a_legal_action<N: Scalar, G: Game<N>>(
    game: G,
    state: G::State,
    n: nat,
)
    requires
        n <= usize::MAX + 1,
    ensures
        forall|x: usize| #[trigger]
            movers(game, state, n).contains(x) == (x < n && game.spec_legal_actions(
                state,
                x,
            ).len() > 0),
        forall|i: int, j: int|
            0 <= i < j < movers(game, state, n).len() ==> movers(game, state, n)[i] < movers(
                game,
                state,
                n,
            )[j],
    decreases n,
{
    if n > 0 {
        law_movers_have_a_legal_action(game, state, (n - 1) as nat);
        let before = movers(game, state, (n - 1) as nat);
        let now = movers(game, state, n);
        let last = (n - 1) as usize;
        if game.spec_legal_actions(state, last).len() > 0 {
            assert(now == before.push(last));
            assert forall|x: usize| #[trigger] now.contains(x) == (x < n
                && game.spec_legal_actions(state, x).len() > 0) by {
                if x == last {
                    assert(now[before.len() as int] == x);
                } else if before.contains(x) {
                    let k = choose|k: int| 0 <= k < before.len() && before[k] == x;
                    assert(now[k] == x);
                } else if now.contains(x) {
                    let k = choose|k: int| 0 <= k < now.len() && now[k] == x;
                    assert(before[k] == x);
                    assert(before.contains(x));
                }
            }
            assert forall|i: int, j: int| 0 <= i < j < now.len() implies now[i] < now[j] by {
                if j == before.len() {
                    assert(before.contains(before[i]));
                    assert(now[i] == before[i]);
                } else {
                    assert(now[i] == before[i] && now[j] == before[j]);
                }
            }
        } else {
            assert(now == before);
        }
    }
}

/// Everyone who has a legal action in some game is asked, and asked once.
pub proof fn law_everyone_with_a_move_is_asked_once<N: Scalar, G: Game<N>, A, F, V>(
    game: G,
    seats: Seq<SeatModel<G::State, A, F, N, V>>,
    k: nat,
)
    requires
        k <= seats.len(),
        k <= usize::MAX + 1,
    ensures
        forall|g: usize, si: usize| #[trigger]
            asked(game, seats, k).contains((g, si)) == (g < k && si < game.spec_num_agents()
                && game.spec_legal_actions(seats[g as int].state, si).len() > 0),
        asked(game, seats, k).no_duplicates(),
    decreases k,
{
    if k > 0 {
        law_everyone_with_a_move_is_asked_once(game, seats, (k - 1) as nat);
        let before = asked(game, seats, (k - 1) as nat);
        let now = asked(game, seats, k);
        let state = seats[k - 1].state;
        let last = (k - 1) as usize;
        let m = movers(game, state, game.spec_num_agents() as nat);
        law_movers_have_a_legal_action(game, state, game.spec_num_agents() as nat);
        let more = m.map_values(|si: usize| (last, si));
        assert(now == before + more);
        assert forall|g: usize, si: usize| #[trigger] now.contains((g, si)) == (g < k && si
            < game.spec_num_agents() && game.spec_legal_actions(
            seats[g as int].state,
            si,
        ).len() > 0) by {
            if before.contains((g, si)) {
                let j = choose|j: int| 0 <= j < before.len() && before[j] == (g, si);
                assert(now[j] == (g, si));
            }
            if g == last && m.contains(si) {
                let j = choose|j: int| 0 <= j < m.len() && m[j] == si;
                assert(more[j] == (g, si));
                assert(now[before.len() + j] == (g, si));
            }
            if now.contains((g, si)) {
                let j = choose|j: int| 0 <= j < now.len() && now[j] == (g, si);
                if j < before.len() {
                    assert(before[j] == (g, si));
                    assert(before.contains((g, si)));
                } else {
                    assert(more[j - before.len()] == (g, si));
                    assert(m[j - before.len()] == si);
                    assert(m.contains(si));
                }
            }
        }
        assert forall|i: int, j: int|
            0 <= i < now.len() && 0 <= j < now.len() && i != j implies now[i] != now[j] by {
            let b = before.len();
            if i < b && j < b {
                assert(before[i] != before[j]);
            } else if i >= b && j >= b {
                assert(m[i - b] != m[j - b]);
            } else if i < b {
                assert(before.contains((before[i].0, before[i].1)));
                assert(more[j - b].0 == last);
            } else {
                assert(before.contains((before[j].0, before[j].1)));
                assert(more[i - b].0 == last);
            }
        }
    }
}

/// What deciding has left of agent `si` of game `g`: who has not chosen has the steps that were there;
/// who has, one more, with what was chosen and nothing earned yet.
pub open spec fn decided_once<F, N: Scalar, V>(
    before: Seq<StepModel<F, N, V>>,
    after: Seq<StepModel<F, N, V>>,
    choice: Option<usize>,
) -> bool {
    match choice {
        None => after == before,
        Some(action) => {
            &&& after.len() == before.len() + 1
            &&& after.drop_last() == before
            &&& after.last().action == action
            &&& after.last().reward == N::spec_zero()
        },
    }
}

/// Once everyone asked has decided, each has one new step, with the choice that it made and nothing
/// earned yet; nobody else's steps change, nor any game's state. Who is not asked has chosen nothing.
pub proof fn law_everyone_decides_once<
    N: Scalar,
    G: Game<N>,
    E: StateEncoder<State = G::State>,
    W: Reward<N, Event = G::Event>,
    P: Policy<N>,
    L: Learner<N, E::Feature, P::Evaluation, E>,
>(
    parts: Parts<G, E, W, P, L>,
    a: RoundOf<N, G, E, P, L>,
    evals: Seq<(P::Evaluation, Vec<InteriorTarget<E::Feature, N>>)>,
    meta: Seq<(usize, usize)>,
    chain: Seq<RoundOf<N, G, E, P, L>>,
    n: int,
    g: int,
    si: int,
)
    requires
        deciding(parts, a, evals, meta, chain),
        0 <= n < chain.len(),
        meta.no_duplicates(),
        0 <= g < a.seats.len(),
        0 <= si < a.seats[g].traj.len(),
        a.acted.len() == a.seats.len(),
        forall|x: int|
            0 <= x < a.seats.len() ==> (#[trigger] a.acted[x]).len() == a.seats[x].traj.len(),
        a.acted[g][si] is None,
        forall|j: int|
            0 <= j < meta.len() ==> (#[trigger] meta[j]).0 < a.seats.len() && meta[j].1
                < a.seats[meta[j].0 as int].traj.len(),
    ensures
        chain[n].seats.len() == a.seats.len(),
        chain[n].acted.len() == a.seats.len(),
        chain[n].seats[g].state == a.seats[g].state,
        chain[n].seats[g].tick == a.seats[g].tick,
        decided_once(
            a.seats[g].traj[si],
            chain[n].seats[g].traj[si],
            chain[n].acted[g][si],
        ),
        chain[n].acted[g][si] is Some ==> exists|j: int|
            0 <= j < n && (#[trigger] meta[j]) == (g as usize, si as usize),
        chain[n].seats[g].traj.len() == a.seats[g].traj.len(),
        chain[n].acted[g].len() == a.seats[g].traj.len(),
    decreases n,
{
    if n > 0 {
        let m = n - 1;
        law_everyone_decides_once(parts, a, evals, meta, chain, m, g, si);
        assert(decided_at(parts, chain, evals, meta, m));
        let (og, oi) = meta[m];
        assert(og < a.seats.len() && oi < a.seats[og as int].traj.len());
        lemma_shape(parts, a, evals, meta, chain, m, og as int);
        law_decisions_open_a_step(
            parts,
            chain[m],
            evals[m],
            og,
            oi,
            chain[n],
            g,
            si,
        );
        if og == g && oi == si {
            if chain[m].acted[g][si] is Some {
                let j = choose|j: int|
                    0 <= j < m && (#[trigger] meta[j]) == (g as usize, si as usize);
                assert(meta[j] != meta[m]);
            }
            assert(meta[m] == (g as usize, si as usize));
        } else {
            assert(chain[n].acted[g][si] == chain[m].acted[g][si]);
            if chain[m].acted[g][si] is Some {
                let j = choose|j: int|
                    0 <= j < m && (#[trigger] meta[j]) == (g as usize, si as usize);
                assert(meta[j] == (g as usize, si as usize));
            }
        }
    }
}

proof fn lemma_shape<
    N: Scalar,
    G: Game<N>,
    E: StateEncoder<State = G::State>,
    W: Reward<N, Event = G::Event>,
    P: Policy<N>,
    L: Learner<N, E::Feature, P::Evaluation, E>,
>(
    parts: Parts<G, E, W, P, L>,
    a: RoundOf<N, G, E, P, L>,
    evals: Seq<(P::Evaluation, Vec<InteriorTarget<E::Feature, N>>)>,
    meta: Seq<(usize, usize)>,
    chain: Seq<RoundOf<N, G, E, P, L>>,
    n: int,
    g: int,
)
    requires
        deciding(parts, a, evals, meta, chain),
        0 <= n < chain.len(),
        0 <= g < a.seats.len(),
        a.acted.len() == a.seats.len(),
        forall|x: int|
            0 <= x < a.seats.len() ==> (#[trigger] a.acted[x]).len() == a.seats[x].traj.len(),
        forall|j: int|
            0 <= j < meta.len() ==> (#[trigger] meta[j]).0 < a.seats.len() && meta[j].1
                < a.seats[meta[j].0 as int].traj.len(),
    ensures
        chain[n].seats.len() == a.seats.len(),
        chain[n].acted.len() == a.seats.len(),
        chain[n].seats[g].traj.len() == a.seats[g].traj.len(),
        chain[n].acted[g].len() == a.seats[g].traj.len(),
    decreases n,
{
    if n > 0 {
        lemma_shape(parts, a, evals, meta, chain, n - 1, g);
        assert(decided_at(parts, chain, evals, meta, n - 1));
        let (og, oi) = meta[n - 1];
        assert(og < a.seats.len());
        lemma_shape(parts, a, evals, meta, chain, n - 1, og as int);
    }
}

/// Every game takes its own tick with what its agents chose, and is finished where that tick ended it
/// or cut it short: told of once, in order, with whether it ended.
pub proof fn law_every_game_takes_its_tick<
    N: Scalar,
    G: Game<N>,
    E: StateEncoder<State = G::State>,
    W: Reward<N, Event = G::Event>,
    P: Policy<N>,
    L: Learner<N, E::Feature, P::Evaluation, E>,
    D: StartDistribution<G::State>,
>(
    parts: Parts<G, E, W, P, L>,
    seats: Seq<SeatOf<N, G, E, P>>,
    acted: Seq<Seq<Option<usize>>>,
    start: D,
    buffer_rng: SplitMix64,
    k: nat,
    g: int,
)
    requires
        k <= seats.len() <= usize::MAX,
        0 <= g < seats.len(),
    ensures
        advanced(parts, seats, acted, start, buffer_rng, k) matches Ok(a) ==> {
            &&& a.seats.len() == seats.len()
            &&& g >= k ==> a.seats[g] == seats[g]
            &&& g < k ==> {
                &&& stepped(parts, seats[g], acted[g]) matches Ok((after, terminal, cut))
                    && a.seats[g] == after && (a.finished.contains((g as usize, terminal)) == (
                terminal || cut)) && !a.finished.contains((g as usize, !terminal))
            }
            &&& forall|i: int|
                0 <= i < a.finished.len() ==> (#[trigger] a.finished[i]).0 < k
            &&& forall|i: int, j: int|
                0 <= i < j < a.finished.len() ==> a.finished[i].0 < a.finished[j].0
        },
    decreases k,
{
    if k > 0 {
        law_every_game_takes_its_tick(
            parts,
            seats,
            acted,
            start,
            buffer_rng,
            (k - 1) as nat,
            g,
        );
        law_every_game_takes_its_tick(
            parts,
            seats,
            acted,
            start,
            buffer_rng,
            (k - 1) as nat,
            k - 1,
        );
        if let Ok(a) = advanced(parts, seats, acted, start, buffer_rng, k) {
            let b = advanced(parts, seats, acted, start, buffer_rng, (k - 1) as nat)->Ok_0;
            let (seat, terminal, cut) = stepped(parts, b.seats[k - 1], acted[k - 1])->Ok_0;
            let last = ((k - 1) as usize, terminal);
            if terminal || cut {
                assert(a.finished == b.finished.push(last));
                assert(a.finished[b.finished.len() as int] == last);
            } else {
                assert(a.finished == b.finished);
            }
            assert forall|i: int| 0 <= i < a.finished.len() implies (
            #[trigger] a.finished[i]).0 < k by {
                if i < b.finished.len() {
                    assert(a.finished[i] == b.finished[i]);
                }
            }
            assert forall|i: int, j: int| 0 <= i < j < a.finished.len() implies a.finished[i].0
                < a.finished[j].0 by {
                assert(a.finished[i] == b.finished[i]);
                if j < b.finished.len() {
                    assert(a.finished[j] == b.finished[j]);
                }
            }
            if g < k {
                let (after, ended, short) = stepped(parts, seats[g], acted[g])->Ok_0;
                if g < k - 1 {
                    if b.finished.contains((g as usize, ended)) {
                        let i = choose|i: int|
                            0 <= i < b.finished.len() && b.finished[i] == (g as usize, ended);
                        assert(a.finished[i] == (g as usize, ended));
                    }
                    if a.finished.contains((g as usize, ended)) {
                        let i = choose|i: int|
                            0 <= i < a.finished.len() && a.finished[i] == (g as usize, ended);
                        assert(b.finished[i] == (g as usize, ended));
                    }
                    if a.finished.contains((g as usize, !ended)) {
                        let i = choose|i: int|
                            0 <= i < a.finished.len() && a.finished[i] == (g as usize, !ended);
                        assert(b.finished[i] == (g as usize, !ended));
                    }
                } else {
                    if a.finished.contains((g as usize, ended)) {
                        let i = choose|i: int|
                            0 <= i < a.finished.len() && a.finished[i] == (g as usize, ended);
                        if i < b.finished.len() {
                            assert(b.finished[i].0 < k - 1);
                        }
                    }
                    if a.finished.contains((g as usize, !ended)) {
                        let i = choose|i: int|
                            0 <= i < a.finished.len() && a.finished[i] == (g as usize, !ended);
                        if i < b.finished.len() {
                            assert(b.finished[i].0 < k - 1);
                        }
                    }
                }
            }
        }
    }
}

/// Where the policy looks from every agent's side, every game's bystanders get their steps; elsewhere
/// nobody does.
pub proof fn law_every_side_is_valued<
    N: Scalar,
    G: Game<N>,
    E: StateEncoder<State = G::State>,
    W: Reward<N, Event = G::Event>,
    P: Policy<N>,
    L: Learner<N, E::Feature, P::Evaluation, E>,
>(
    parts: Parts<G, E, W, P, L>,
    seats: Seq<SeatOf<N, G, E, P>>,
    acted: Seq<Seq<Option<usize>>>,
    g: int,
)
    requires
        0 <= g < seats.len(),
    ensures
        valued(parts, seats, acted).len() == seats.len(),
        ({
            let all = parts.policy.spec_evaluates_all_perspectives(
                parts.sequential,
                parts.game.spec_num_agents(),
            );
            &&& all ==> valued(parts, seats, acted)[g] == valued_seat(parts, seats[g], acted[g])
            &&& !all ==> valued(parts, seats, acted)[g] == seats[g]
        }),
{
}

/// Every game of an engine is dealt from its own seed, at a decision.
pub proof fn law_games_are_dealt_from_their_seeds<N: Scalar, G: Game<N>>(
    game: G,
    seed: u64,
    k: nat,
    i: int,
)
    requires
        0 <= i < k,
    ensures
        dealt_games(game, seed, k) matches Ok(out) ==> {
            &&& out.len() == k
            &&& dealt(
                game,
                game.spec_initial_state(),
                0,
                generator(game_seed(seed, i as nat)),
            ) == (Ok::<_, Fault>(out[i].0), out[i].1)
            &&& game.spec_actor(out[i].0) != Actor::Chance
        },
    decreases k,
{
    crate::game::law_dealt_is_decision(
        game,
        game.spec_initial_state(),
        0,
        generator(game_seed(seed, i as nat)),
    );
    if i < k - 1 {
        law_games_are_dealt_from_their_seeds(game, seed, (k - 1) as nat, i);
    } else if k > 1 {
        law_games_are_dealt_from_their_seeds(game, seed, (k - 1) as nat, 0);
    }
}

/// A decision more is a decision more that waits.
pub proof fn law_waiting_decisions_are_counted<T>(traj: Seq<Seq<T>>, n: nat, si: int, step: T)
    requires
        n <= traj.len(),
        0 <= si < n,
    ensures
        steps_of(traj.update(si, traj[si].push(step)), n) == steps_of(traj, n) + 1,
    decreases n,
{
    let more = traj.update(si, traj[si].push(step));
    if si < n - 1 {
        law_waiting_decisions_are_counted(traj, (n - 1) as nat, si, step);
    } else {
        lemma_steps_same(traj, more, (n - 1) as nat);
    }
}

proof fn lemma_steps_same<T>(a: Seq<Seq<T>>, b: Seq<Seq<T>>, n: nat)
    requires
        n <= a.len() == b.len(),
        forall|i: int| 0 <= i < n ==> #[trigger] b[i] == a[i],
    ensures
        steps_of(b, n) == steps_of(a, n),
    decreases n,
{
    if n > 0 {
        lemma_steps_same(a, b, (n - 1) as nat);
        assert(b[n - 1] == a[n - 1]);
    }
}

} // verus!
