//! Finished games: the values that bootstrap their trajectories, their records, and what follows.

use vstd::prelude::*;

use super::seat::{Parts, Seat};
#[allow(unused_imports)]
use super::seat::{seat_models, seated, traj_models, SeatModel, SeatOf};
use crate::encoder::StateEncoder;
#[allow(unused_imports)]
use crate::episode::has_move;
use crate::fault::Fault;
use crate::game::{Actor, Game};
#[allow(unused_imports)]
use crate::game::dealt;
use crate::learner::{Learner, Step};
#[allow(unused_imports)]
use crate::learner::{record_models, step_models, StepModel};
use crate::num::{sum, Scalar};
#[allow(unused_imports)]
use crate::num::spec_sum;
use crate::policy::Policy;
use crate::reward::Reward;
use crate::rng::SplitMix64;
use crate::start::{Start, StartDistribution};
use crate::stats::{CollectStats, EpisodeSummary};
#[allow(unused_imports)]
use crate::stats::{summary_models, StatsModel, SummaryModel};
use crate::util::copied;
#[allow(unused_imports)]
use crate::util::matrix;

verus! {

/// A collection under way.
#[verifier::ext_equal]
pub struct Progress<S, A, F, N, V, R, D> {
    pub seats: Seq<SeatModel<S, A, F, N, V>>,
    pub search_rng: SplitMix64,
    pub buffer_rng: SplitMix64,
    pub start: D,
    pub records: Seq<R>,
    pub stats: StatsModel<N>,
}

/// The progress of a composition.
pub type ProgressOf<N, G, E, P, L, D> = Progress<
    <G as Game<N>>::State,
    <P as Policy<N>>::PolicyState,
    <E as StateEncoder>::Feature,
    N,
    <<P as Policy<N>>::Evaluation as View>::V,
    <L as Learner<N, <E as StateEncoder>::Feature, <P as Policy<N>>::Evaluation, E>>::Shown,
    D,
>;

/// Whether the trajectory of an agent that has no move is bootstrapped too.
pub open spec fn tails_for_all<
    N: Scalar,
    G: Game<N>,
    E: StateEncoder<State = G::State>,
    W: Reward<N, Event = G::Event>,
    P: Policy<N>,
    L: Learner<N, E::Feature, P::Evaluation, E>,
>(parts: Parts<G, E, W, P, L>) -> bool {
    ||| parts.learner.spec_tails_all_trajectories()
    ||| {
        &&& parts.sequential
        &&& parts.game.spec_num_agents() > 2
        &&& parts.learner.spec_value_only_evaluation(parts.game.spec_action_count()) is Some
    }
}

/// The first `n` agents of game `g` whose trajectories are bootstrapped.
pub open spec fn wanted_agents<
    N: Scalar,
    G: Game<N>,
    E: StateEncoder<State = G::State>,
    W: Reward<N, Event = G::Event>,
    P: Policy<N>,
    L: Learner<N, E::Feature, P::Evaluation, E>,
>(
    parts: Parts<G, E, W, P, L>,
    seat: SeatOf<N, G, E, P>,
    g: usize,
    n: nat,
) -> Seq<(usize, usize)>
    decreases n,
{
    if n == 0 {
        Seq::empty()
    } else {
        let before = wanted_agents(parts, seat, g, (n - 1) as nat);
        if (tails_for_all(parts) || has_move(parts.game, seat.state, (n - 1) as usize))
            && seat.traj[n - 1].len() > 0 {
            before.push((g, (n - 1) as usize))
        } else {
            before
        }
    }
}

/// The trajectories that are bootstrapped among the first `k` finished games: those of games that
/// were cut short.
pub open spec fn wanted<
    N: Scalar,
    G: Game<N>,
    E: StateEncoder<State = G::State>,
    W: Reward<N, Event = G::Event>,
    P: Policy<N>,
    L: Learner<N, E::Feature, P::Evaluation, E>,
>(
    parts: Parts<G, E, W, P, L>,
    seats: Seq<SeatOf<N, G, E, P>>,
    finished: Seq<(usize, bool)>,
    k: nat,
) -> Seq<(usize, usize)>
    decreases k,
{
    if k == 0 {
        Seq::empty()
    } else {
        let before = wanted(parts, seats, finished, (k - 1) as nat);
        let (g, terminal) = finished[k - 1];
        if terminal {
            before
        } else {
            before + wanted_agents(
                parts,
                seats[g as int],
                g,
                parts.game.spec_num_agents() as nat,
            )
        }
    }
}

/// The trajectories that are bootstrapped, where the learner bootstraps.
pub open spec fn tails_wanted<
    N: Scalar,
    G: Game<N>,
    E: StateEncoder<State = G::State>,
    W: Reward<N, Event = G::Event>,
    P: Policy<N>,
    L: Learner<N, E::Feature, P::Evaluation, E>,
>(
    parts: Parts<G, E, W, P, L>,
    seats: Seq<SeatOf<N, G, E, P>>,
    finished: Seq<(usize, bool)>,
) -> Seq<(usize, usize)> {
    if parts.learner.spec_uses_episode_tail() {
        wanted(parts, seats, finished, finished.len())
    } else {
        Seq::empty()
    }
}

/// Finds the trajectories that are bootstrapped.
#[verifier::loop_isolation(false)]
pub fn want_tails<
    N: Scalar,
    G: Game<N>,
    E: StateEncoder<State = G::State>,
    W: Reward<N, Event = G::Event>,
    P: Policy<N>,
    L: Learner<N, E::Feature, P::Evaluation, E>,
>(
    parts: &Parts<G, E, W, P, L>,
    seats: &Vec<Seat<G::State, P::PolicyState, E::Feature, N, P::Evaluation>>,
    finished: &Vec<(usize, bool)>,
) -> (r: Vec<(usize, usize)>)
    requires
        seated(seat_models(seats@), parts.game.spec_num_agents() as nat),
        forall|i: int| 0 <= i < finished@.len() ==> (#[trigger] finished@[i]).0 < seats@.len(),
    ensures
        r@ == tails_wanted(*parts, seat_models(seats@), finished@),
        forall|i: int| 0 <= i < r@.len() ==> (#[trigger] r@[i]).0 < seats@.len(),
{
    let ghost models = seat_models(seats@);
    let mut out: Vec<(usize, usize)> = Vec::new();
    assert(out@ =~= Seq::empty());
    if !parts.learner.uses_episode_tail() {
        return out;
    }
    let n = parts.game.num_agents();
    let all = parts.learner.tails_all_trajectories() || (parts.sequential && n > 2
        && parts.learner.value_only_evaluation(parts.game.action_count()).is_some());
    let mut k: usize = 0;
    while k < finished.len()
        invariant
            k <= finished@.len(),
            out@ == wanted(*parts, models, finished@, k as nat),
            forall|i: int| 0 <= i < out@.len() ==> (#[trigger] out@[i]).0 < seats@.len(),
        decreases finished@.len() - k,
    {
        let (g, terminal) = finished[k];
        assert(finished@[k as int].0 < seats@.len());
        if !terminal {
            let ghost before = out@;
            let ghost seat = models[g as int];
            assert(seat == seats@[g as int]@);
            assert(seat.traj.len() == n);
            let mut si: usize = 0;
            assert(before + Seq::empty() =~= before);
            while si < n
                invariant
                    si <= n,
                    out@ == before + wanted_agents(*parts, seat, g, si as nat),
                    forall|i: int| 0 <= i < out@.len() ==> (#[trigger] out@[i]).0 < seats@.len(),
                decreases n - si,
            {
                assert(seat.traj[si as int] == step_models(seats@[g as int].traj@[si as int]@));
                if (all || seats[g].episode.agent_active(&parts.game, si))
                    && seats[g].traj[si].len() > 0 {
                    out.push((g, si));
                    assert(out@ =~= before + wanted_agents(*parts, seat, g, si as nat).push((g, si)));
                }
                si = si + 1;
            }
        }
        k = k + 1;
    }
    out
}

/// The actions that are legal where a trajectory was cut short: the mover's, or the agent's own.
pub open spec fn tail_legal<N: Scalar, G: Game<N>>(game: G, state: G::State, si: usize) -> Result<
    Seq<usize>,
    Fault,
> {
    match game.spec_actor(state) {
        Actor::Agent(mover) => Ok(game.spec_legal_actions(state, mover)),
        Actor::Simultaneous => Ok(game.spec_legal_actions(state, si)),
        Actor::Chance => Err(Fault::ChanceActor),
    }
}

/// The bootstrap values that the first `k` network rows give.
pub open spec fn tails_read<
    N: Scalar,
    G: Game<N>,
    E: StateEncoder<State = G::State>,
    W: Reward<N, Event = G::Event>,
    P: Policy<N>,
    L: Learner<N, E::Feature, P::Evaluation, E>,
>(
    parts: Parts<G, E, W, P, L>,
    seats: Seq<SeatOf<N, G, E, P>>,
    meta: Seq<(usize, usize)>,
    rows: Seq<Seq<N>>,
    k: nat,
) -> Result<Seq<Seq<N>>, Fault>
    decreases k,
{
    if k == 0 {
        Ok(Seq::empty())
    } else {
        match tails_read(parts, seats, meta, rows, (k - 1) as nat) {
            Err(f) => Err(f),
            Ok(before) => {
                let (g, si) = meta[k - 1];
                match tail_legal(parts.game, seats[g as int].state, si) {
                    Err(f) => Err(f),
                    Ok(legal) => match parts.learner.spec_tail_from_row(
                        rows[k - 1],
                        parts.game.spec_action_count(),
                        legal,
                        parts.encoder,
                        si,
                    ) {
                        Err(f) => Err(f),
                        Ok(tail) => Ok(before.push(tail)),
                    },
                }
            },
        }
    }
}

proof fn lemma_tails_fault<
    N: Scalar,
    G: Game<N>,
    E: StateEncoder<State = G::State>,
    W: Reward<N, Event = G::Event>,
    P: Policy<N>,
    L: Learner<N, E::Feature, P::Evaluation, E>,
>(
    parts: Parts<G, E, W, P, L>,
    seats: Seq<SeatOf<N, G, E, P>>,
    meta: Seq<(usize, usize)>,
    rows: Seq<Seq<N>>,
    k: nat,
    n: nat,
    f: Fault,
)
    requires
        k <= n,
        tails_read(parts, seats, meta, rows, k) == Err::<Seq<Seq<N>>, _>(f),
    ensures
        tails_read(parts, seats, meta, rows, n) == Err::<Seq<Seq<N>>, _>(f),
    decreases n,
{
    if k < n {
        lemma_tails_fault(parts, seats, meta, rows, k, (n - 1) as nat, f);
    }
}

pub proof fn lemma_tails_len<
    N: Scalar,
    G: Game<N>,
    E: StateEncoder<State = G::State>,
    W: Reward<N, Event = G::Event>,
    P: Policy<N>,
    L: Learner<N, E::Feature, P::Evaluation, E>,
>(
    parts: Parts<G, E, W, P, L>,
    seats: Seq<SeatOf<N, G, E, P>>,
    meta: Seq<(usize, usize)>,
    rows: Seq<Seq<N>>,
    k: nat,
)
    ensures
        tails_read(parts, seats, meta, rows, k) matches Ok(tails) ==> tails.len() == k,
    decreases k,
{
    if k > 0 {
        lemma_tails_len(parts, seats, meta, rows, (k - 1) as nat);
    }
}

/// Reads bootstrap values from network rows, one for each trajectory.
#[verifier::loop_isolation(false)]
pub fn read_tails<
    N: Scalar,
    G: Game<N>,
    E: StateEncoder<State = G::State>,
    W: Reward<N, Event = G::Event>,
    P: Policy<N>,
    L: Learner<N, E::Feature, P::Evaluation, E>,
>(
    parts: &Parts<G, E, W, P, L>,
    seats: &Vec<Seat<G::State, P::PolicyState, E::Feature, N, P::Evaluation>>,
    meta: &Vec<(usize, usize)>,
    rows: &Vec<Vec<N>>,
) -> (r: Result<Vec<Vec<N>>, Fault>)
    requires
        rows@.len() == meta@.len(),
        forall|i: int| 0 <= i < meta@.len() ==> (#[trigger] meta@[i]).0 < seats@.len(),
    ensures
        match r {
            Ok(tails) => tails_read(
                *parts,
                seat_models(seats@),
                meta@,
                matrix(rows@),
                meta@.len(),
            ) == Ok::<_, Fault>(matrix(tails@)),
            Err(f) => tails_read(
                *parts,
                seat_models(seats@),
                meta@,
                matrix(rows@),
                meta@.len(),
            ) == Err::<Seq<Seq<N>>, _>(f),
        },
{
    let ghost models = seat_models(seats@);
    let ghost shown = matrix(rows@);
    let a = parts.game.action_count();
    let n = meta.len();
    let mut out: Vec<Vec<N>> = Vec::new();
    assert(matrix(out@) =~= Seq::empty());
    let mut k: usize = 0;
    while k < n
        invariant
            k <= n,
            tails_read(*parts, models, meta@, shown, k as nat) == Ok::<_, Fault>(matrix(out@)),
        decreases n - k,
    {
        let (g, si) = meta[k];
        assert(meta@[k as int].0 < seats@.len());
        assert(models[g as int] == seats@[g as int]@);
        assert(shown[k as int] == rows@[k as int]@);
        let state = &seats[g].episode.state;
        let legal = match parts.game.actor(state) {
            Actor::Agent(mover) => parts.game.legal_actions(state, mover),
            Actor::Simultaneous => parts.game.legal_actions(state, si),
            Actor::Chance => {
                proof {
                    lemma_tails_fault(
                        *parts,
                        models,
                        meta@,
                        shown,
                        (k + 1) as nat,
                        n as nat,
                        Fault::ChanceActor,
                    );
                }
                return Err(Fault::ChanceActor);
            },
        };
        match parts.learner.tail_from_row(&rows[k], a, &legal, &parts.encoder, si) {
            Ok(tail) => {
                let ghost before = matrix(out@);
                let ghost one = tail@;
                out.push(tail);
                assert(matrix(out@) =~= before.push(one));
            },
            Err(f) => {
                proof {
                    lemma_tails_fault(*parts, models, meta@, shown, (k + 1) as nat, n as nat, f);
                }
                return Err(f);
            },
        }
        k = k + 1;
    }
    Ok(out)
}

/// The bootstrap values of one trajectory; none where it has no entry. Of several entries the last
/// counts.
pub open spec fn tail_of<N>(
    meta: Seq<(usize, usize)>,
    tails: Seq<Seq<N>>,
    g: usize,
    si: usize,
    k: nat,
) -> Seq<N>
    decreases k,
{
    if k == 0 {
        Seq::empty()
    } else if meta[k - 1] == (g, si) {
        tails[k - 1]
    } else {
        tail_of(meta, tails, g, si, (k - 1) as nat)
    }
}

/// Finds the bootstrap values of one trajectory.
pub fn find_tail<N: Scalar>(
    meta: &Vec<(usize, usize)>,
    tails: &Vec<Vec<N>>,
    g: usize,
    si: usize,
) -> (r: Vec<N>)
    requires
        meta@.len() == tails@.len(),
    ensures
        r@ == tail_of(meta@, matrix(tails@), g, si, meta@.len()),
{
    let mut k = meta.len();
    while k > 0
        invariant
            k <= meta@.len() == tails@.len(),
            tail_of(meta@, matrix(tails@), g, si, k as nat) == tail_of(
                meta@,
                matrix(tails@),
                g,
                si,
                meta@.len(),
            ),
        decreases k,
    {
        k = k - 1;
        let (mg, ms) = meta[k];
        if mg == g && ms == si {
            assert(matrix(tails@)[k as int] == tails@[k as int]@);
            return copied(&tails[k]);
        }
    }
    let out: Vec<N> = Vec::new();
    assert(out@ =~= Seq::empty());
    out
}

/// What the trajectories of a game gave: the records so far, each agent's return, and the generator
/// then.
#[verifier::ext_equal]
pub struct Emptied<N, R> {
    pub records: Seq<R>,
    pub rewards: Seq<N>,
    pub rng: SplitMix64,
}

/// The return of a trajectory.
pub open spec fn return_of<F, N: Scalar, V>(steps: Seq<StepModel<F, N, V>>) -> N {
    spec_sum(steps.map_values(|s: StepModel<F, N, V>| s.reward))
}

/// What the trajectories of the first `n` agents of a game give.
pub open spec fn emptied<
    N: Scalar,
    G: Game<N>,
    E: StateEncoder<State = G::State>,
    W: Reward<N, Event = G::Event>,
    P: Policy<N>,
    L: Learner<N, E::Feature, P::Evaluation, E>,
>(
    parts: Parts<G, E, W, P, L>,
    seat: SeatOf<N, G, E, P>,
    records: Seq<L::Shown>,
    meta: Seq<(usize, usize)>,
    tails: Seq<Seq<N>>,
    g: usize,
    n: nat,
) -> Result<Emptied<N, L::Shown>, Fault>
    decreases n,
{
    if n == 0 {
        Ok(Emptied { records, rewards: Seq::empty(), rng: seat.rng })
    } else {
        match emptied(parts, seat, records, meta, tails, g, (n - 1) as nat) {
            Err(f) => Err(f),
            Ok(e) => {
                let steps = seat.traj[n - 1];
                let si = (n - 1) as usize;
                if steps.len() == 0 {
                    Ok(Emptied { rewards: e.rewards.push(N::spec_zero()), ..e })
                } else {
                    let tail = tail_of(meta, tails, g, si, meta.len());
                    let (made, rng) = parts.learner.spec_episode_records(
                        steps,
                        tail,
                        parts.encoder,
                        si,
                        e.rng,
                    );
                    match made {
                        Err(f) => Err(f),
                        Ok(made) => Ok(
                            Emptied {
                                records: e.records + made,
                                rewards: e.rewards.push(return_of(steps)),
                                rng,
                            },
                        ),
                    }
                }
            },
        }
    }
}

proof fn lemma_emptied_fault<
    N: Scalar,
    G: Game<N>,
    E: StateEncoder<State = G::State>,
    W: Reward<N, Event = G::Event>,
    P: Policy<N>,
    L: Learner<N, E::Feature, P::Evaluation, E>,
>(
    parts: Parts<G, E, W, P, L>,
    seat: SeatOf<N, G, E, P>,
    records: Seq<L::Shown>,
    meta: Seq<(usize, usize)>,
    tails: Seq<Seq<N>>,
    g: usize,
    k: nat,
    n: nat,
    f: Fault,
)
    requires
        k <= n,
        emptied(parts, seat, records, meta, tails, g, k) == Err::<Emptied<N, L::Shown>, _>(f),
    ensures
        emptied(parts, seat, records, meta, tails, g, n) == Err::<Emptied<N, L::Shown>, _>(f),
    decreases n,
{
    if k < n {
        lemma_emptied_fault(parts, seat, records, meta, tails, g, k, (n - 1) as nat, f);
    }
}

/// No steps for any of `n` agents.
pub open spec fn no_steps<T>(n: nat) -> Seq<Seq<T>> {
    Seq::new(n, |i: int| Seq::empty())
}

fn sum_rewards<F, N: Scalar, V: View>(steps: &Vec<Step<F, N, V>>) -> (r: N)
    ensures
        r == return_of(step_models(steps@)),
{
    let ghost all = step_models(steps@).map_values(|s: StepModel<F, N, V::V>| s.reward);
    let mut rewards: Vec<N> = Vec::new();
    let mut i: usize = 0;
    while i < steps.len()
        invariant
            i <= steps@.len(),
            all == step_models(steps@).map_values(|s: StepModel<F, N, V::V>| s.reward),
            rewards@ =~= all.take(i as int),
        decreases steps@.len() - i,
    {
        assert(all[i as int] == steps@[i as int]@.reward);
        rewards.push(steps[i].reward);
        i = i + 1;
    }
    assert(all.take(i as int) =~= all);
    sum(&rewards)
}

/// Makes the records of a game's trajectories and clears them; gives each agent's return.
#[verifier::loop_isolation(false)]
pub fn empty_seat<
    N: Scalar,
    G: Game<N>,
    E: StateEncoder<State = G::State>,
    W: Reward<N, Event = G::Event>,
    P: Policy<N>,
    L: Learner<N, E::Feature, P::Evaluation, E>,
>(
    parts: &Parts<G, E, W, P, L>,
    seat: &mut Seat<G::State, P::PolicyState, E::Feature, N, P::Evaluation>,
    records: &mut Vec<L::Record>,
    meta: &Vec<(usize, usize)>,
    tails: &Vec<Vec<N>>,
    g: usize,
) -> (r: Result<Vec<N>, Fault>)
    requires
        meta@.len() == tails@.len(),
    ensures
        match r {
            Ok(rewards) => {
                &&& emptied(
                    *parts,
                    old(seat)@,
                    record_models(old(records)@, |x: L::Record| L::shown(x)),
                    meta@,
                    matrix(tails@),
                    g,
                    old(seat).traj@.len(),
                ) == Ok::<_, Fault>(
                    Emptied {
                        records: record_models(final(records)@, |x: L::Record| L::shown(x)),
                        rewards: rewards@,
                        rng: final(seat)@.rng,
                    },
                )
                &&& final(seat)@ == SeatModel {
                    rng: final(seat)@.rng,
                    traj: no_steps(old(seat).traj@.len()),
                    ..old(seat)@
                }
            },
            Err(f) => emptied(
                *parts,
                old(seat)@,
                record_models(old(records)@, |x: L::Record| L::shown(x)),
                meta@,
                matrix(tails@),
                g,
                old(seat).traj@.len(),
            ) == Err::<Emptied<N, L::Shown>, _>(f),
        },
{
    let ghost was = seat@;
    let ghost had = record_models(records@, |x: L::Record| L::shown(x));
    let ghost m_tails = matrix(tails@);
    let n = seat.traj.len();
    let mut rewards: Vec<N> = Vec::new();
    assert(rewards@ =~= Seq::empty());
    let mut si: usize = 0;
    while si < n
        invariant
            si <= n == seat.traj@.len() == was.traj.len(),
            seat@.state == was.state,
            seat@.policy_state == was.policy_state,
            seat@.tick == was.tick,
            seat@.seeded == was.seeded,
            forall|i: int| 0 <= i < si ==> (#[trigger] traj_models(seat.traj@)[i]).len() == 0,
            forall|i: int|
                si <= i < n ==> (#[trigger] traj_models(seat.traj@)[i]) == was.traj[i],
            emptied(*parts, was, had, meta@, m_tails, g, si as nat) == Ok::<_, Fault>(
                Emptied {
                    records: record_models(records@, |x: L::Record| L::shown(x)),
                    rewards: rewards@,
                    rng: seat@.rng,
                },
            ),
        decreases n - si,
    {
        let ghost held = seat.traj@;
        assert(traj_models(held)[si as int] == step_models(held[si as int]@));
        assert(was.traj[si as int] == step_models(held[si as int]@));
        if seat.traj[si].len() == 0 {
            rewards.push(N::zero());
        } else {
            let total = sum_rewards(&seat.traj[si]);
            let tail = find_tail(meta, tails, g, si);
            let made = parts.learner.episode_records(
                &seat.traj[si],
                &tail,
                &parts.encoder,
                si,
                &mut seat.episode.rng,
            );
            let mut made = match made {
                Ok(made) => made,
                Err(f) => {
                    proof {
                        lemma_emptied_fault(
                            *parts,
                            was,
                            had,
                            meta@,
                            m_tails,
                            g,
                            (si + 1) as nat,
                            n as nat,
                            f,
                        );
                    }
                    return Err(f);
                },
            };
            let ghost before = record_models(records@, |x: L::Record| L::shown(x));
            let ghost fresh = record_models(made@, |x: L::Record| L::shown(x));
            records.append(&mut made);
            assert(record_models(records@, |x: L::Record| L::shown(x)) =~= before + fresh);
            rewards.push(total);
            seat.traj.set(si, Vec::new());
            proof {
                assert(traj_models(seat.traj@)[si as int].len() == 0);
                assert forall|i: int| 0 <= i < n && i != si implies (#[trigger] traj_models(
                    seat.traj@,
                )[i]) == traj_models(held)[i] by {}
            }
        }
        si = si + 1;
    }
    proof {
        assert forall|i: int| 0 <= i < n implies (#[trigger] traj_models(seat.traj@)[i])
            == Seq::<StepModel<E::Feature, N, <P::Evaluation as View>::V>>::empty() by {
            assert(traj_models(seat.traj@)[i].len() == 0);
            assert(traj_models(seat.traj@)[i] =~= Seq::<
                StepModel<E::Feature, N, <P::Evaluation as View>::V>,
            >::empty());
        }
        assert(traj_models(seat.traj@) =~= no_steps(n as nat));
    }
    Ok(rewards)
}

/// A finished game flushed: the records of its trajectories, its summary, and its next episode, which
/// begins where the start distribution says.
pub open spec fn seat_flushed<
    N: Scalar,
    G: Game<N>,
    E: StateEncoder<State = G::State>,
    W: Reward<N, Event = G::Event>,
    P: Policy<N>,
    L: Learner<N, E::Feature, P::Evaluation, E>,
    D: StartDistribution<G::State>,
>(
    parts: Parts<G, E, W, P, L>,
    p: ProgressOf<N, G, E, P, L, D>,
    meta: Seq<(usize, usize)>,
    tails: Seq<Seq<N>>,
    g: usize,
) -> Result<ProgressOf<N, G, E, P, L, D>, Fault> {
    let seat = p.seats[g as int];
    match emptied(parts, seat, p.records, meta, tails, g, seat.traj.len()) {
        Err(f) => Err(f),
        Ok(e) => {
            let summary = SummaryModel {
                reward: e.rewards,
                length: seat.tick,
                seeded: seat.seeded,
            };
            let (from, start, buffer_rng) = p.start.spec_next_start(p.buffer_rng);
            let (begun, rng, seeded) = match from {
                Start::Restore(state) => (Ok::<_, Fault>(state), e.rng, true),
                Start::Fresh => {
                    let (state, rng) = dealt(
                        parts.game,
                        parts.game.spec_initial_state(),
                        0,
                        e.rng,
                    );
                    (state, rng, false)
                },
            };
            match begun {
                Err(f) => Err(f),
                Ok(state) => {
                    let (policy_state, rng) = parts.policy.spec_begin_episode(rng);
                    Ok(
                        Progress {
                            seats: p.seats.update(
                                g as int,
                                SeatModel {
                                    state,
                                    rng,
                                    policy_state,
                                    tick: 0,
                                    seeded,
                                    traj: no_steps(seat.traj.len()),
                                },
                            ),
                            records: e.records,
                            stats: StatsModel {
                                episodes: p.stats.episodes.push(summary),
                                ..p.stats
                            },
                            start,
                            buffer_rng,
                            ..p
                        },
                    )
                },
            }
        },
    }
}

/// Flushes a finished game.
pub(crate) fn flush_seat<
    N: Scalar,
    G: Game<N>,
    E: StateEncoder<State = G::State>,
    W: Reward<N, Event = G::Event>,
    P: Policy<N>,
    L: Learner<N, E::Feature, P::Evaluation, E>,
    D: StartDistribution<G::State>,
>(
    parts: &Parts<G, E, W, P, L>,
    seats: &mut Vec<Seat<G::State, P::PolicyState, E::Feature, N, P::Evaluation>>,
    start: &mut D,
    buffer_rng: &mut SplitMix64,
    records: &mut Vec<L::Record>,
    stats: &mut CollectStats<N>,
    meta: &Vec<(usize, usize)>,
    tails: &Vec<Vec<N>>,
    g: usize,
    Ghost(search_rng): Ghost<SplitMix64>,
) -> (r: Result<(), Fault>)
    requires
        meta@.len() == tails@.len(),
        g < old(seats)@.len(),
    ensures
        match r {
            Ok(_) => seat_flushed(
                *parts,
                Progress {
                    seats: seat_models(old(seats)@),
                    search_rng,
                    buffer_rng: *old(buffer_rng),
                    start: *old(start),
                    records: record_models(old(records)@, |x: L::Record| L::shown(x)),
                    stats: old(stats)@,
                },
                meta@,
                matrix(tails@),
                g,
            ) == Ok::<_, Fault>(
                Progress {
                    seats: seat_models(final(seats)@),
                    search_rng,
                    buffer_rng: *final(buffer_rng),
                    start: *final(start),
                    records: record_models(final(records)@, |x: L::Record| L::shown(x)),
                    stats: final(stats)@,
                },
            ),
            Err(f) => seat_flushed(
                *parts,
                Progress {
                    seats: seat_models(old(seats)@),
                    search_rng,
                    buffer_rng: *old(buffer_rng),
                    start: *old(start),
                    records: record_models(old(records)@, |x: L::Record| L::shown(x)),
                    stats: old(stats)@,
                },
                meta@,
                matrix(tails@),
                g,
            ) == Err::<ProgressOf<N, G, E, P, L, D>, _>(f),
        },
{
    let ghost was = seat_models(seats@);
    assert(was[g as int] == seats@[g as int]@);
    let seat = &mut seats[g];
    let ghost agents = seat.traj@.len();
    let rewards = match empty_seat(parts, seat, records, meta, tails, g) {
        Ok(rewards) => rewards,
        Err(f) => return Err(f),
    };
    let ghost told = summary_models(stats.episodes@);
    let summary = EpisodeSummary { reward: rewards, length: seat.tick, seeded: seat.seeded };
    let ghost shown = summary@;
    stats.episodes.push(summary);
    assert(summary_models(stats.episodes@) =~= told.push(shown));
    match start.next_start(buffer_rng) {
        Start::Restore(state) => {
            seat.episode.state = state;
            seat.seeded = true;
        },
        Start::Fresh => {
            match seat.episode.reset(&parts.game) {
                Ok(_) => {},
                Err(f) => return Err(f),
            }
            seat.seeded = false;
        },
    }
    seat.tick = 0;
    seat.policy_state = parts.policy.begin_episode(&mut seat.episode.rng);
    let ghost now = seat@;
    assert(seat_models(seats@) =~= was.update(g as int, now));
    Ok(())
}

/// The first `k` finished games flushed.
pub open spec fn flushed<
    N: Scalar,
    G: Game<N>,
    E: StateEncoder<State = G::State>,
    W: Reward<N, Event = G::Event>,
    P: Policy<N>,
    L: Learner<N, E::Feature, P::Evaluation, E>,
    D: StartDistribution<G::State>,
>(
    parts: Parts<G, E, W, P, L>,
    p: ProgressOf<N, G, E, P, L, D>,
    finished: Seq<(usize, bool)>,
    meta: Seq<(usize, usize)>,
    tails: Seq<Seq<N>>,
    k: nat,
) -> Result<ProgressOf<N, G, E, P, L, D>, Fault>
    decreases k,
{
    if k == 0 {
        Ok(p)
    } else {
        match flushed(parts, p, finished, meta, tails, (k - 1) as nat) {
            Err(f) => Err(f),
            Ok(q) => seat_flushed(parts, q, meta, tails, finished[k - 1].0),
        }
    }
}

/// What follows the rows that bootstrap the finished games: they are read, and the games flushed.
pub open spec fn finished_off<
    N: Scalar,
    G: Game<N>,
    E: StateEncoder<State = G::State>,
    W: Reward<N, Event = G::Event>,
    P: Policy<N>,
    L: Learner<N, E::Feature, P::Evaluation, E>,
    D: StartDistribution<G::State>,
>(
    parts: Parts<G, E, W, P, L>,
    p: ProgressOf<N, G, E, P, L, D>,
    finished: Seq<(usize, bool)>,
    rows: Seq<Seq<N>>,
) -> Result<ProgressOf<N, G, E, P, L, D>, Fault> {
    let meta = tails_wanted(parts, p.seats, finished);
    match tails_read(parts, p.seats, meta, rows, meta.len()) {
        Err(f) => Err(f),
        Ok(tails) => flushed(parts, p, finished, meta, tails, finished.len()),
    }
}

/// The first `k` games with their trajectories made into records, though they go on.
pub open spec fn cut_off<
    N: Scalar,
    G: Game<N>,
    E: StateEncoder<State = G::State>,
    W: Reward<N, Event = G::Event>,
    P: Policy<N>,
    L: Learner<N, E::Feature, P::Evaluation, E>,
    D: StartDistribution<G::State>,
>(
    parts: Parts<G, E, W, P, L>,
    p: ProgressOf<N, G, E, P, L, D>,
    meta: Seq<(usize, usize)>,
    tails: Seq<Seq<N>>,
    k: nat,
) -> Result<ProgressOf<N, G, E, P, L, D>, Fault>
    decreases k,
{
    if k == 0 {
        Ok(p)
    } else {
        match cut_off(parts, p, meta, tails, (k - 1) as nat) {
            Err(f) => Err(f),
            Ok(q) => {
                let seat = q.seats[k - 1];
                match emptied(
                    parts,
                    seat,
                    q.records,
                    meta,
                    tails,
                    (k - 1) as usize,
                    seat.traj.len(),
                ) {
                    Err(f) => Err(f),
                    Ok(e) => Ok(
                        Progress {
                            seats: q.seats.update(
                                k - 1,
                                SeatModel {
                                    rng: e.rng,
                                    traj: no_steps(seat.traj.len()),
                                    ..seat
                                },
                            ),
                            records: e.records,
                            ..q
                        },
                    ),
                }
            },
        }
    }
}

/// Every game, as cut short now.
pub open spec fn all_live(n: nat) -> Seq<(usize, bool)> {
    Seq::new(n, |g: int| (g as usize, false))
}

/// What follows the rows that bootstrap the live fragments: they are made into records.
pub open spec fn fragments<
    N: Scalar,
    G: Game<N>,
    E: StateEncoder<State = G::State>,
    W: Reward<N, Event = G::Event>,
    P: Policy<N>,
    L: Learner<N, E::Feature, P::Evaluation, E>,
    D: StartDistribution<G::State>,
>(
    parts: Parts<G, E, W, P, L>,
    p: ProgressOf<N, G, E, P, L, D>,
    rows: Seq<Seq<N>>,
) -> Result<ProgressOf<N, G, E, P, L, D>, Fault> {
    let meta = tails_wanted(parts, p.seats, all_live(p.seats.len()));
    match tails_read(parts, p.seats, meta, rows, meta.len()) {
        Err(f) => Err(f),
        Ok(tails) => cut_off(parts, p, meta, tails, p.seats.len()),
    }
}

} // verus!
