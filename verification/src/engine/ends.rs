//! What becomes of finished games: whose trajectories are bootstrapped and from what, which records
//! they make, and what is told of them.

use vstd::prelude::*;

#[allow(unused_imports)]
use super::earned::earnings;
#[allow(unused_imports)]
use super::flush::{
    cut_off, emptied, return_of, seat_flushed, tail_legal, tail_of, tails_read, tails_wanted,
    wanted, wanted_agents, ProgressOf,
};
#[allow(unused_imports)]
use super::seat::{Parts, SeatOf};
#[allow(unused_imports)]
use crate::encoder::StateEncoder;
#[allow(unused_imports)]
use crate::fault::Fault;
#[allow(unused_imports)]
use crate::game::{Actor, Game};
#[allow(unused_imports)]
use crate::learner::Learner;
#[allow(unused_imports)]
use crate::num::{law_sum, spec_sum, Scalar};
#[allow(unused_imports)]
use crate::policy::Policy;
#[allow(unused_imports)]
use crate::reward::Reward;
#[allow(unused_imports)]
use crate::rng::SplitMix64;
#[allow(unused_imports)]
use crate::start::{Start, StartDistribution};

verus! {

/// Trajectory `si` of a game that was cut short is bootstrapped: it holds a decision, and its agent has
/// a move or everyone's is.
pub open spec fn bootstraps<
    N: Scalar,
    G: Game<N>,
    E: StateEncoder<State = G::State>,
    W: Reward<N, Event = G::Event>,
    P: Policy<N>,
    L: Learner<N, E::Feature, P::Evaluation, E>,
>(
    parts: Parts<G, E, W, P, L>,
    seat: SeatOf<N, G, E, P>,
    si: int,
) -> bool {
    let everyone = parts.learner.spec_tails_all_trajectories() || (parts.sequential
        && parts.game.spec_num_agents() > 2 && parts.learner.spec_value_only_evaluation(
        parts.game.spec_action_count(),
    ) is Some);
    &&& seat.traj[si].len() > 0
    &&& everyone || parts.game.spec_legal_actions(seat.state, si as usize).len() > 0
}

proof fn lemma_wanted_agents<
    N: Scalar,
    G: Game<N>,
    E: StateEncoder<State = G::State>,
    W: Reward<N, Event = G::Event>,
    P: Policy<N>,
    L: Learner<N, E::Feature, P::Evaluation, E>,
>(
    parts: Parts<G, E, W, P, L>,
    seat: SeatOf<N, G, E, P>,
    g: usize,
    n: nat,
    si: usize,
)
    requires
        n <= usize::MAX + 1,
    ensures
        wanted_agents(parts, seat, g, n).contains((g, si)) == (si < n && bootstraps(
            parts,
            seat,
            si as int,
        )),
        forall|i: int|
            0 <= i < wanted_agents(parts, seat, g, n).len() ==> (#[trigger] wanted_agents(
                parts,
                seat,
                g,
                n,
            )[i]).0 == g,
    decreases n,
{
    if n > 0 {
        lemma_wanted_agents(parts, seat, g, (n - 1) as nat, si);
        let before = wanted_agents(parts, seat, g, (n - 1) as nat);
        let now = wanted_agents(parts, seat, g, n);
        let last = (g, (n - 1) as usize);
        if bootstraps(parts, seat, n - 1) {
            assert(now == before.push(last));
            assert(now[before.len() as int] == last);
            if before.contains((g, si)) {
                let k = choose|k: int| 0 <= k < before.len() && before[k] == (g, si);
                assert(now[k] == (g, si));
            }
            if now.contains((g, si)) {
                let k = choose|k: int| 0 <= k < now.len() && now[k] == (g, si);
                if k < before.len() {
                    assert(before[k] == (g, si));
                }
            }
        } else {
            assert(now == before);
        }
    }
}

proof fn lemma_wanted<
    N: Scalar,
    G: Game<N>,
    E: StateEncoder<State = G::State>,
    W: Reward<N, Event = G::Event>,
    P: Policy<N>,
    L: Learner<N, E::Feature, P::Evaluation, E>,
>(
    parts: Parts<G, E, W, P, L>,
    seats: Seq<SeatOf<N, G, E, P>>,
    finished: Seq<(usize, bool)>,
    k: nat,
    g: usize,
    si: usize,
)
    requires
        k <= finished.len(),
    ensures
        wanted(parts, seats, finished, k).contains((g, si)) == (si < parts.game.spec_num_agents()
            && bootstraps(parts, seats[g as int], si as int) && exists|j: int|
            0 <= j < k && #[trigger] finished[j] == (g, false)),
    decreases k,
{
    if k > 0 {
        lemma_wanted(parts, seats, finished, (k - 1) as nat, g, si);
        let before = wanted(parts, seats, finished, (k - 1) as nat);
        let now = wanted(parts, seats, finished, k);
        let (og, terminal) = finished[k - 1];
        if !terminal {
            let n = parts.game.spec_num_agents() as nat;
            let more = wanted_agents(parts, seats[og as int], og, n);
            lemma_wanted_agents(parts, seats[og as int], og, n, si);
            assert(now == before + more);
            if before.contains((g, si)) {
                let j = choose|j: int| 0 <= j < before.len() && before[j] == (g, si);
                assert(now[j] == (g, si));
            }
            if more.contains((g, si)) {
                let j = choose|j: int| 0 <= j < more.len() && more[j] == (g, si);
                assert(now[before.len() + j] == (g, si));
            }
            if now.contains((g, si)) {
                let j = choose|j: int| 0 <= j < now.len() && now[j] == (g, si);
                if j < before.len() {
                    assert(before[j] == (g, si));
                } else {
                    assert(more[j - before.len()] == (g, si));
                }
            }
            if og == g {
                assert(finished[k - 1] == (g, false));
            }
        }
        if exists|j: int| 0 <= j < k && #[trigger] finished[j] == (g, false) {
            let j = choose|j: int| 0 <= j < k && #[trigger] finished[j] == (g, false);
            if j < k - 1 {
                assert(finished[j] == (g, false));
            }
        }
    }
}

/// A trajectory is bootstrapped where the learner bootstraps, its game was cut short and not ended, it
/// holds a decision, and its agent has a move or everyone's is; and nowhere else.
pub proof fn law_bootstraps_follow_cuts<
    N: Scalar,
    G: Game<N>,
    E: StateEncoder<State = G::State>,
    W: Reward<N, Event = G::Event>,
    P: Policy<N>,
    L: Learner<N, E::Feature, P::Evaluation, E>,
>(
    parts: Parts<G, E, W, P, L>,
    seats: Seq<SeatOf<N, G, E, P>>,
    finished: Seq<(usize, bool)>,
    g: usize,
    si: usize,
)
    ensures
        tails_wanted(parts, seats, finished).contains((g, si)) == (
        parts.learner.spec_uses_episode_tail() && si < parts.game.spec_num_agents() && bootstraps(
            parts,
            seats[g as int],
            si as int,
        ) && exists|j: int| 0 <= j < finished.len() && #[trigger] finished[j] == (g, false)),
{
    lemma_wanted(parts, seats, finished, finished.len(), g, si);
}

proof fn lemma_tails<
    N: Scalar,
    G: Game<N>,
    E: StateEncoder<State = G::State>,
    W: Reward<N, Event = G::Event>,
    P: Policy<N>,
    L: Learner<N, E::Feature, P::Evaluation, E>,
>(
    parts: Parts<G, E, W, P, L>,
    seats: Seq<SeatOf<N, G, E, P>>,
    meta: Seq<(usize, usize)>,
    rows: Seq<Seq<N>>,
    k: nat,
    j: int,
)
    requires
        0 <= j < k <= meta.len(),
    ensures
        tails_read(parts, seats, meta, rows, k) matches Ok(out) ==> {
            let (g, si) = meta[j];
            &&& out.len() == k
            &&& tail_legal(parts.game, seats[g as int].state, si) is Ok
            &&& parts.learner.spec_tail_from_row(
                rows[j],
                parts.game.spec_action_count(),
                tail_legal(parts.game, seats[g as int].state, si)->Ok_0,
                parts.encoder,
                si,
            ) == Ok::<_, Fault>(out[j])
        },
    decreases k,
{
    if j < k - 1 {
        lemma_tails(parts, seats, meta, rows, (k - 1) as nat, j);
    } else {
        lemma_tails_len(parts, seats, meta, rows, (k - 1) as nat);
    }
}

proof fn lemma_tails_len<
    N: Scalar,
    G: Game<N>,
    E: StateEncoder<State = G::State>,
    W: Reward<N, Event = G::Event>,
    P: Policy<N>,
    L: Learner<N, E::Feature, P::Evaluation, E>,
>(
    parts: Parts<G, E, W, P, L>,
    seats: Seq<SeatOf<N, G, E, P>>,
    meta: Seq<(usize, usize)>,
    rows: Seq<Seq<N>>,
    k: nat,
)
    ensures
        tails_read(parts, seats, meta, rows, k) matches Ok(out) ==> out.len() == k,
    decreases k,
{
    if k > 0 {
        lemma_tails_len(parts, seats, meta, rows, (k - 1) as nat);
    }
}

proof fn lemma_tail_of<N>(
    meta: Seq<(usize, usize)>,
    tails: Seq<Seq<N>>,
    g: usize,
    si: usize,
    k: nat,
)
    requires
        k <= meta.len(),
    ensures
        (forall|j: int| 0 <= j < k ==> #[trigger] meta[j] != (g, si)) ==> tail_of(
            meta,
            tails,
            g,
            si,
            k,
        ).len() == 0,
        (exists|j: int| 0 <= j < k && #[trigger] meta[j] == (g, si)) ==> exists|j: int|
            0 <= j < k && #[trigger] meta[j] == (g, si) && tail_of(meta, tails, g, si, k)
                == tails[j],
    decreases k,
{
    if k > 0 {
        if meta[k - 1] == (g, si) {
            assert(tail_of(meta, tails, g, si, k) == tails[k - 1]);
        } else {
            lemma_tail_of(meta, tails, g, si, (k - 1) as nat);
        }
    }
}

/// What a trajectory is bootstrapped from: its own row, read by the learner with the actions that are
/// legal where the game stands for its agent; nothing where it is not bootstrapped.
pub proof fn law_tails_are_read_from_their_row<
    N: Scalar,
    G: Game<N>,
    E: StateEncoder<State = G::State>,
    W: Reward<N, Event = G::Event>,
    P: Policy<N>,
    L: Learner<N, E::Feature, P::Evaluation, E>,
>(
    parts: Parts<G, E, W, P, L>,
    seats: Seq<SeatOf<N, G, E, P>>,
    meta: Seq<(usize, usize)>,
    rows: Seq<Seq<N>>,
    g: usize,
    si: usize,
) -> (j: int)
    ensures
        tails_read(parts, seats, meta, rows, meta.len()) matches Ok(tails) ==> {
            let tail = tail_of(meta, tails, g, si, meta.len());
            let state = seats[g as int].state;
            &&& tails.len() == meta.len()
            &&& !meta.contains((g, si)) ==> tail.len() == 0
            &&& meta.contains((g, si)) ==> {
                &&& 0 <= j < meta.len()
                &&& meta[j] == (g, si)
                &&& parts.game.spec_actor(state) != Actor::Chance
                &&& parts.learner.spec_tail_from_row(
                    rows[j],
                    parts.game.spec_action_count(),
                    match parts.game.spec_actor(state) {
                        Actor::Agent(mover) => parts.game.spec_legal_actions(state, mover),
                        _ => parts.game.spec_legal_actions(state, si),
                    },
                    parts.encoder,
                    si,
                ) == Ok::<_, Fault>(tail)
            }
        },
{
    lemma_tails_len(parts, seats, meta, rows, meta.len());
    if let Ok(tails) = tails_read(parts, seats, meta, rows, meta.len()) {
        lemma_tail_of(meta, tails, g, si, meta.len());
        if meta.contains((g, si)) {
            let at = choose|at: int| 0 <= at < meta.len() && meta[at] == (g, si);
            assert(meta[at] == (g, si));
            let j = choose|j: int|
                0 <= j < meta.len() && #[trigger] meta[j] == (g, si) && tail_of(
                    meta,
                    tails,
                    g,
                    si,
                    meta.len(),
                ) == tails[j];
            lemma_tails(parts, seats, meta, rows, meta.len(), j);
            j
        } else {
            0
        }
    } else {
        0
    }
}

/// Pieces, one behind the other.
pub open spec fn together<R>(pieces: Seq<Seq<R>>) -> Seq<R>
    decreases pieces.len(),
{
    if pieces.len() == 0 {
        Seq::empty()
    } else {
        together(pieces.drop_last()) + pieces.last()
    }
}

/// What the trajectories of a game come to: of each agent what its decisions have earned; and behind
/// the records that were there, agent by agent, what the learner makes of the agent's trajectory with
/// its own tail, each drawing where the one before left off.
pub proof fn law_trajectories_make_records<
    N: Scalar,
    G: Game<N>,
    E: StateEncoder<State = G::State>,
    W: Reward<N, Event = G::Event>,
    P: Policy<N>,
    L: Learner<N, E::Feature, P::Evaluation, E>,
>(
    parts: Parts<G, E, W, P, L>,
    seat: SeatOf<N, G, E, P>,
    records: Seq<L::Shown>,
    meta: Seq<(usize, usize)>,
    tails: Seq<Seq<N>>,
    g: usize,
    n: nat,
) -> (r: (Seq<Seq<L::Shown>>, Seq<SplitMix64>))
    requires
        n <= seat.traj.len() <= usize::MAX,
    ensures
        emptied(parts, seat, records, meta, tails, g, n) matches Ok(e) ==> {
            let (pieces, rngs) = r;
            &&& e.rewards.len() == n
            &&& forall|si: int|
                0 <= si < n ==> #[trigger] e.rewards[si] == spec_sum(earnings(seat.traj[si]))
            &&& pieces.len() == n
            &&& rngs.len() == n + 1
            &&& rngs[0] == seat.rng
            &&& rngs[n as int] == e.rng
            &&& e.records == records + together(pieces)
            &&& forall|si: int|
                0 <= si < n ==> {
                    let steps = seat.traj[si];
                    let piece = #[trigger] pieces[si];
                    if steps.len() == 0 {
                        piece.len() == 0 && rngs[si + 1] == rngs[si]
                    } else {
                        parts.learner.spec_episode_records(
                            steps,
                            tail_of(meta, tails, g, si as usize, meta.len()),
                            parts.encoder,
                            si as usize,
                            rngs[si],
                        ) == (Ok::<_, Fault>(piece), rngs[si + 1])
                    }
                }
        },
    decreases n,
{
    if n == 0 {
        assert(records + together(Seq::<Seq<L::Shown>>::empty()) =~= records);
        (Seq::empty(), seq![seat.rng])
    } else {
        let (pieces, rngs) = law_trajectories_make_records(
            parts,
            seat,
            records,
            meta,
            tails,
            g,
            (n - 1) as nat,
        );
        if let Ok(e) = emptied(parts, seat, records, meta, tails, g, n) {
            let before = emptied(parts, seat, records, meta, tails, g, (n - 1) as nat)->Ok_0;
            let steps = seat.traj[n - 1];
            let none = Seq::<L::Shown>::empty();
            let piece = if steps.len() == 0 {
                assert(earnings(steps) =~= Seq::empty());
                law_sum(Seq::<N>::empty(), N::spec_zero());
                none
            } else {
                parts.learner.spec_episode_records(
                    steps,
                    tail_of(meta, tails, g, (n - 1) as usize, meta.len()),
                    parts.encoder,
                    (n - 1) as usize,
                    before.rng,
                ).0->Ok_0
            };
            let more = pieces.push(piece);
            let states = rngs.push(e.rng);
            assert(more.drop_last() =~= pieces);
            assert(e.records =~= records + together(more));
            assert forall|si: int| 0 <= si < n implies #[trigger] e.rewards[si] == spec_sum(
                earnings(seat.traj[si]),
            ) by {
                if si < n - 1 {
                    assert(e.rewards[si] == before.rewards[si]);
                } else {
                    assert(return_of(steps) == spec_sum(earnings(steps)));
                }
            }
            assert forall|si: int| 0 <= si < n implies {
                let steps = seat.traj[si];
                let piece = #[trigger] more[si];
                if steps.len() == 0 {
                    piece.len() == 0 && states[si + 1] == states[si]
                } else {
                    parts.learner.spec_episode_records(
                        steps,
                        tail_of(meta, tails, g, si as usize, meta.len()),
                        parts.encoder,
                        si as usize,
                        states[si],
                    ) == (Ok::<_, Fault>(piece), states[si + 1])
                }
            } by {
                if si < n - 1 {
                    assert(more[si] == pieces[si]);
                    assert(states[si] == rngs[si] && states[si + 1] == rngs[si + 1]);
                } else {
                    assert(states[si] == rngs[n - 1] && states[n as int] == e.rng);
                }
            }
            (more, states)
        } else {
            (pieces, rngs)
        }
    }
}

/// A finished game is told of once, at the end of the episodes: what each agent earned, for how many
/// ticks, and whether it began from a stored state. It begins anew where the start distribution says,
/// with nothing left of the old episode, and no other game changes.
pub proof fn law_finished_games_are_told_of<
    N: Scalar,
    G: Game<N>,
    E: StateEncoder<State = G::State>,
    W: Reward<N, Event = G::Event>,
    P: Policy<N>,
    L: Learner<N, E::Feature, P::Evaluation, E>,
    D: StartDistribution<G::State>,
>(
    parts: Parts<G, E, W, P, L>,
    p: ProgressOf<N, G, E, P, L, D>,
    meta: Seq<(usize, usize)>,
    tails: Seq<Seq<N>>,
    g: usize,
    si: int,
    og: int,
)
    requires
        g < p.seats.len(),
        0 <= si < p.seats[g as int].traj.len() <= usize::MAX,
        0 <= og < p.seats.len(),
        og != g,
    ensures
        seat_flushed(parts, p, meta, tails, g) matches Ok(q) ==> {
            let seat = p.seats[g as int];
            let next = q.seats[g as int];
            let told = q.stats.episodes.last();
            let from = p.start.spec_next_start(p.buffer_rng);
            &&& q.stats.episodes.len() == p.stats.episodes.len() + 1
            &&& q.stats.episodes.drop_last() == p.stats.episodes
            &&& told.reward.len() == seat.traj.len()
            &&& told.reward[si] == spec_sum(earnings(seat.traj[si]))
            &&& told.length == seat.tick
            &&& told.seeded == seat.seeded
            &&& q.stats.decisions == p.stats.decisions
            &&& q.seats.len() == p.seats.len()
            &&& q.seats[og] == p.seats[og]
            &&& next.tick == 0
            &&& next.traj.len() == seat.traj.len()
            &&& next.traj[si].len() == 0
            &&& from.0 matches Start::Restore(s) ==> next.state == s && next.seeded
            &&& from.0 is Fresh ==> !next.seeded && parts.game.spec_actor(next.state)
                != Actor::Chance
            &&& q.start == from.1
            &&& q.buffer_rng == from.2
            &&& p.records.len() <= q.records.len()
            &&& q.records.take(p.records.len() as int) == p.records
        },
{
    let seat = p.seats[g as int];
    let r = law_trajectories_make_records(
        parts,
        seat,
        p.records,
        meta,
        tails,
        g,
        seat.traj.len(),
    );
    if let Ok(q) = seat_flushed(parts, p, meta, tails, g) {
        let e = emptied(parts, seat, p.records, meta, tails, g, seat.traj.len())->Ok_0;
        assert(e.rewards[si] == spec_sum(earnings(seat.traj[si])));
        assert(q.records =~= p.records + together(r.0));
        assert(q.records.take(p.records.len() as int) =~= p.records);
        assert(q.stats.episodes.drop_last() =~= p.stats.episodes);
        if p.start.spec_next_start(p.buffer_rng).0 is Fresh {
            crate::game::law_dealt_is_decision(
                parts.game,
                parts.game.spec_initial_state(),
                0,
                e.rng,
            );
        }
    }
}

/// Live games whose trajectories are made into records go on as they stood, with no decision left
/// waiting; the records that were there stay in front, and no episode is told of.
pub proof fn law_fragments_leave_games_going<
    N: Scalar,
    G: Game<N>,
    E: StateEncoder<State = G::State>,
    W: Reward<N, Event = G::Event>,
    P: Policy<N>,
    L: Learner<N, E::Feature, P::Evaluation, E>,
    D: StartDistribution<G::State>,
>(
    parts: Parts<G, E, W, P, L>,
    p: ProgressOf<N, G, E, P, L, D>,
    meta: Seq<(usize, usize)>,
    tails: Seq<Seq<N>>,
    k: nat,
    g: int,
    si: int,
)
    requires
        k <= p.seats.len() <= usize::MAX,
        0 <= g < p.seats.len(),
        0 <= si < p.seats[g].traj.len(),
        forall|x: int|
            0 <= x < p.seats.len() ==> (#[trigger] p.seats[x]).traj.len() <= usize::MAX,
    ensures
        cut_off(parts, p, meta, tails, k) matches Ok(q) ==> {
            let before = p.seats[g];
            let after = q.seats[g];
            &&& q.seats.len() == p.seats.len()
            &&& g >= k ==> after == before
            &&& after.state == before.state
            &&& after.tick == before.tick
            &&& after.policy_state == before.policy_state
            &&& after.seeded == before.seeded
            &&& after.traj.len() == before.traj.len()
            &&& g < k ==> after.traj[si].len() == 0
            &&& q.stats == p.stats
            &&& q.start == p.start
            &&& q.buffer_rng == p.buffer_rng
            &&& p.records.len() <= q.records.len()
            &&& q.records.take(p.records.len() as int) == p.records
            &&& forall|x: int|
                0 <= x < q.seats.len() ==> (#[trigger] q.seats[x]).traj.len() <= usize::MAX
        },
    decreases k,
{
    if k == 0 {
        assert(p.records.take(p.records.len() as int) =~= p.records);
    } else {
        law_fragments_leave_games_going(parts, p, meta, tails, (k - 1) as nat, g, si);
        if let Ok(q) = cut_off(parts, p, meta, tails, k) {
            let mid = cut_off(parts, p, meta, tails, (k - 1) as nat)->Ok_0;
            let seat = mid.seats[k - 1];
            assert(seat.traj.len() <= usize::MAX);
            let r = law_trajectories_make_records(
                parts,
                seat,
                mid.records,
                meta,
                tails,
                (k - 1) as usize,
                seat.traj.len(),
            );
            let n = p.records.len() as int;
            assert(q.records =~= mid.records + together(r.0));
            assert(q.records.take(n) =~= mid.records.take(n));
            assert forall|x: int| 0 <= x < q.seats.len() implies (
            #[trigger] q.seats[x]).traj.len() <= usize::MAX by {
                if x != k - 1 {
                    assert(q.seats[x] == mid.seats[x]);
                }
            }
        }
    }
}

} // verus!
