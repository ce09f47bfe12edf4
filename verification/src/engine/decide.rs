//! Decisions: who must act, what is evaluated, and what follows from an evaluation.

use vstd::prelude::*;

use super::seat::{Parts, Seat};
#[allow(unused_imports)]
use super::seat::{seat_models, traj_models, SeatModel};
use crate::encoder::StateEncoder;
#[allow(unused_imports)]
use crate::episode::movers;
use crate::fault::Fault;
use crate::game::Game;
use crate::learner::{Learner, Step};
#[allow(unused_imports)]
use crate::learner::{record_models, step_models, StepModel};
use crate::num::Scalar;
use crate::policies::tree::expectimax::backup::InteriorTarget;
#[allow(unused_imports)]
use crate::policies::tree::expectimax::backup::targets;
use crate::policies::tree::mcts::simulate::bump;
#[allow(unused_imports)]
use crate::policies::tree::mcts::simulate::counted;
use crate::policy::Policy;
use crate::reward::Reward;
use crate::stats::CollectStats;
#[allow(unused_imports)]
use crate::stats::StatsModel;

verus! {

/// Whose turn it is in the first `g` games, by game and by agent.
pub open spec fn asked<N: Scalar, G: Game<N>, A, F, V>(
    game: G,
    seats: Seq<SeatModel<G::State, A, F, N, V>>,
    g: nat,
) -> Seq<(usize, usize)>
    decreases g,
{
    if g == 0 {
        Seq::empty()
    } else {
        asked(game, seats, (g - 1) as nat) + movers(
            game,
            seats[g - 1].state,
            game.spec_num_agents() as nat,
        ).map_values(|si: usize| ((g - 1) as usize, si))
    }
}

/// The states that are asked about.
pub open spec fn requests_for<S, A, F, N, V>(
    seats: Seq<SeatModel<S, A, F, N, V>>,
    meta: Seq<(usize, usize)>,
) -> Seq<(S, usize)> {
    meta.map_values(|m: (usize, usize)| (seats[m.0 as int].state, m.1))
}

/// Every entry is an agent of a seat.
pub open spec fn in_seats(meta: Seq<(usize, usize)>, seats: nat, agents: nat) -> bool {
    forall|i: int| 0 <= i < meta.len() ==> (#[trigger] meta[i]).0 < seats && meta[i].1 < agents
}

proof fn lemma_movers_below<N: Scalar, G: Game<N>>(game: G, state: G::State, n: nat)
    requires
        n <= usize::MAX,
    ensures
        forall|i: int| 0 <= i < movers(game, state, n).len() ==> (#[trigger] movers(game, state, n)[i]) < n,
    decreases n,
{
    if n > 0 {
        lemma_movers_below(game, state, (n - 1) as nat);
        let before = movers(game, state, (n - 1) as nat);
        let all = movers(game, state, n);
        assert forall|i: int| 0 <= i < all.len() implies (#[trigger] all[i]) < n by {
            if i < before.len() {
                assert(all[i] == before[i]);
            }
        }
    }
}

/// Finds whose turn it is in every game.
pub fn gather<N: Scalar, G: Game<N>, A, F, V: View>(
    game: &G,
    seats: &Vec<Seat<G::State, A, F, N, V>>,
) -> (r: Vec<(usize, usize)>)
    ensures
        r@ == asked(*game, seat_models(seats@), seats@.len()),
        in_seats(r@, seats@.len(), game.spec_num_agents() as nat),
{
    let ghost models = seat_models(seats@);
    let ghost n = game.spec_num_agents() as nat;
    let mut meta: Vec<(usize, usize)> = Vec::new();
    let mut g: usize = 0;
    assert(meta@ =~= Seq::empty());
    while g < seats.len()
        invariant
            g <= seats@.len(),
            models == seat_models(seats@),
            n == game.spec_num_agents(),
            meta@ == asked(*game, models, g as nat),
            in_seats(meta@, seats@.len(), n),
        decreases seats@.len() - g,
    {
        assert(models[g as int] == seats@[g as int]@);
        let active = seats[g].episode.active_agents(game);
        proof {
            lemma_movers_below(*game, models[g as int].state, n);
        }
        let ghost before = meta@;
        let mut i: usize = 0;
        while i < active.len()
            invariant
                i <= active@.len(),
                g < seats@.len(),
                forall|j: int| 0 <= j < active@.len() ==> (#[trigger] active@[j]) < n,
                meta@ =~= before + active@.map_values(|si: usize| (g, si)).take(i as int),
                in_seats(meta@, seats@.len(), n),
            decreases active@.len() - i,
        {
            meta.push((g, active[i]));
            i = i + 1;
        }
        assert(meta@ =~= before + active@.map_values(|si: usize| (g, si)));
        g = g + 1;
        assert(active@.map_values(|si: usize| ((g - 1) as usize, si)) =~= movers(
            *game,
            models[g - 1].state,
            n,
        ).map_values(|si: usize| ((g as nat - 1) as usize, si)));
    }
    meta
}

/// Copies the states that are asked about.
pub fn requests_of<N: Scalar, G: Game<N>, A, F, V: View>(
    game: &G,
    seats: &Vec<Seat<G::State, A, F, N, V>>,
    meta: &Vec<(usize, usize)>,
) -> (r: Vec<(G::State, usize)>)
    requires
        forall|i: int| 0 <= i < meta@.len() ==> (#[trigger] meta@[i]).0 < seats@.len(),
    ensures
        r@ == requests_for(seat_models(seats@), meta@),
{
    let ghost models = seat_models(seats@);
    let mut out: Vec<(G::State, usize)> = Vec::new();
    let mut i: usize = 0;
    while i < meta.len()
        invariant
            i <= meta@.len(),
            models == seat_models(seats@),
            forall|i: int| 0 <= i < meta@.len() ==> (#[trigger] meta@[i]).0 < seats@.len(),
            out@ =~= requests_for(models, meta@).take(i as int),
        decreases meta@.len() - i,
    {
        let (g, si) = meta[i];
        assert(meta@[i as int].0 < seats@.len());
        assert(models[g as int] == seats@[g as int]@);
        out.push((game.copy_state(&seats[g].episode.state), si));
        i = i + 1;
    }
    assert(requests_for(models, meta@).take(i as int) =~= requests_for(models, meta@));
    out
}

/// A round under way: the seats, the records and the telemetry so far, and what each agent chose.
#[verifier::ext_equal]
pub struct Round<S, A, F, N, V, R> {
    pub seats: Seq<SeatModel<S, A, F, N, V>>,
    pub records: Seq<R>,
    pub stats: StatsModel<N>,
    pub acted: Seq<Seq<Option<usize>>>,
}

/// A round of a composition.
pub type RoundOf<N, G, E, P, L> = Round<
    <G as Game<N>>::State,
    <P as Policy<N>>::PolicyState,
    <E as StateEncoder>::Feature,
    N,
    <<P as Policy<N>>::Evaluation as View>::V,
    <L as Learner<N, <E as StateEncoder>::Feature, <P as Policy<N>>::Evaluation, E>>::Shown,
>;

/// A decision as it is buffered: its reward and what follows come with the transition.
pub open spec fn buffered<F, N: Scalar, V>(obs: Seq<F>, evaluation: V, action: usize) -> StepModel<
    F,
    N,
    V,
> {
    StepModel {
        obs,
        evaluation,
        action,
        reward: N::spec_zero(),
        next_obs: Seq::empty(),
        next_legal: Seq::empty(),
        terminal: false,
    }
}

/// `b` may follow `a` by the decision of agent `si` of game `g` on an evaluation: its telemetry is
/// folded in, its immediate records are emitted, an action is chosen, and the step is buffered.
pub open spec fn decision<
    N: Scalar,
    G: Game<N>,
    E: StateEncoder<State = G::State>,
    W: Reward<N, Event = G::Event>,
    P: Policy<N>,
    L: Learner<N, E::Feature, P::Evaluation, E>,
>(
    parts: Parts<G, E, W, P, L>,
    a: RoundOf<N, G, E, P, L>,
    eval: (P::Evaluation, Vec<InteriorTarget<E::Feature, N>>),
    g: usize,
    si: usize,
    b: RoundOf<N, G, E, P, L>,
) -> bool {
    let seat = a.seats[g as int];
    let after = b.seats[g as int];
    let (made, rng) = parts.learner.spec_eval_records(
        eval.0@,
        targets(eval.1@),
        parts.encoder,
        si,
        seat.rng,
    );
    let action = b.acted[g as int][si as int]->Some_0;
    &&& counted(a.stats.decisions, 1) is Ok
    &&& parts.policy.spec_fold_telemetry(
        eval.0@,
        StatsModel { decisions: counted(a.stats.decisions, 1)->Ok_0, ..a.stats },
    ) == Ok::<_, Fault>(b.stats)
    &&& made is Ok
    &&& parts.policy.selects(
        eval.0@,
        seat.policy_state,
        rng,
        action,
        after.policy_state,
        after.rng,
    )
    &&& b.records == a.records + made->Ok_0
    &&& b.acted == a.acted.update(g as int, a.acted[g as int].update(si as int, Some(action)))
    &&& b.seats == a.seats.update(
        g as int,
        SeatModel {
            policy_state: after.policy_state,
            rng: after.rng,
            traj: seat.traj.update(
                si as int,
                seat.traj[si as int].push(
                    buffered(parts.encoder.spec_encode(seat.state, si), eval.0@, action),
                ),
            ),
            ..seat
        },
    )
}

/// Why a decision cannot be made.
pub open spec fn decision_fails<
    N: Scalar,
    G: Game<N>,
    E: StateEncoder<State = G::State>,
    W: Reward<N, Event = G::Event>,
    P: Policy<N>,
    L: Learner<N, E::Feature, P::Evaluation, E>,
>(
    parts: Parts<G, E, W, P, L>,
    a: RoundOf<N, G, E, P, L>,
    eval: (P::Evaluation, Vec<InteriorTarget<E::Feature, N>>),
    g: usize,
    si: usize,
    f: Fault,
) -> bool {
    let seat = a.seats[g as int];
    match counted(a.stats.decisions, 1) {
        Err(e) => f == e,
        Ok(decisions) => match parts.policy.spec_fold_telemetry(
            eval.0@,
            StatsModel { decisions, ..a.stats },
        ) {
            Err(e) => f == e,
            Ok(_) => match parts.learner.spec_eval_records(
                eval.0@,
                targets(eval.1@),
                parts.encoder,
                si,
                seat.rng,
            ).0 {
                Err(e) => f == e,
                Ok(_) => parts.policy.cannot_select(eval.0@, seat.policy_state, f),
            },
        },
    }
}

/// Makes a decision.
pub fn decide<
    N: Scalar,
    G: Game<N>,
    E: StateEncoder<State = G::State>,
    W: Reward<N, Event = G::Event>,
    P: Policy<N>,
    L: Learner<N, E::Feature, P::Evaluation, E>,
>(
    parts: &Parts<G, E, W, P, L>,
    seats: &mut Vec<Seat<G::State, P::PolicyState, E::Feature, N, P::Evaluation>>,
    records: &mut Vec<L::Record>,
    stats: &mut CollectStats<N>,
    acted: &mut Vec<Vec<Option<usize>>>,
    eval: P::Evaluation,
    interior: Vec<InteriorTarget<E::Feature, N>>,
    g: usize,
    si: usize,
) -> (r: Result<(), Fault>)
    requires
        g < old(seats)@.len(),
        si < old(seats)@[g as int].traj@.len(),
        g < old(acted)@.len(),
        si < old(acted)@[g as int]@.len(),
    ensures
        match r {
            Ok(_) => decision(
                *parts,
                Round {
                    seats: seat_models(old(seats)@),
                    records: record_models(old(records)@, |x: L::Record| L::shown(x)),
                    stats: old(stats)@,
                    acted: choices(old(acted)@),
                },
                (eval, interior),
                g,
                si,
                Round {
                    seats: seat_models(final(seats)@),
                    records: record_models(final(records)@, |x: L::Record| L::shown(x)),
                    stats: final(stats)@,
                    acted: choices(final(acted)@),
                },
            ),
            Err(f) => decision_fails(
                *parts,
                Round {
                    seats: seat_models(old(seats)@),
                    records: record_models(old(records)@, |x: L::Record| L::shown(x)),
                    stats: old(stats)@,
                    acted: choices(old(acted)@),
                },
                (eval, interior),
                g,
                si,
                f,
            ),
        },
{
    let ghost eval_pair = (eval, interior);
    let ghost was = seat_models(seats@);
    let ghost had = record_models(records@, |x: L::Record| L::shown(x));
    let ghost chose = choices(acted@);
    assert(was[g as int] == seats@[g as int]@);
    assert(chose[g as int] == acted@[g as int]@);
    match bump(stats.decisions, 1) {
        Ok(n) => {
            stats.decisions = n;
        },
        Err(f) => return Err(f),
    }
    match parts.policy.fold_telemetry(&eval, stats) {
        Ok(_) => {},
        Err(f) => return Err(f),
    }
    let seat = &mut seats[g];
    let ghost before = *seat;
    let made = parts.learner.eval_records(
        &eval,
        interior,
        &parts.encoder,
        si,
        &mut seat.episode.rng,
    );
    let mut made = match made {
        Ok(made) => made,
        Err(f) => return Err(f),
    };
    let ghost fresh = record_models(made@, |x: L::Record| L::shown(x));
    records.append(&mut made);
    assert(record_models(records@, |x: L::Record| L::shown(x)) =~= had + fresh);
    let action = match parts.policy.select(
        &eval,
        &mut seat.policy_state,
        &mut seat.episode.rng,
    ) {
        Ok(action) => action,
        Err(f) => return Err(f),
    };
    let obs = seat.episode.observe(&parts.encoder, si);
    let ghost obs_shown = obs@;
    let next_obs: Vec<E::Feature> = Vec::new();
    let next_legal: Vec<usize> = Vec::new();
    assert(next_obs@ =~= Seq::empty());
    assert(next_legal@ =~= Seq::empty());
    let ghost evaluation = eval@;
    let step = Step {
        obs,
        evaluation: eval,
        action,
        reward: N::zero(),
        next_obs,
        next_legal,
        terminal: false,
    };
    let ghost shown = step@;
    let ghost old_traj = seat.traj@;
    let ghost old_row = seat.traj@[si as int]@;
    let row = &mut seat.traj[si];
    row.push(step);
    proof {
        assert(shown =~= buffered(obs_shown, evaluation, action));
        assert(step_models(old_row.push(step)) =~= step_models(old_row).push(shown));
        assert(traj_models(seat.traj@) =~= traj_models(old_traj).update(
            si as int,
            traj_models(old_traj)[si as int].push(shown),
        ));
    }
    let ghost model = seat@;
    let mine = &mut acted[g];
    mine.set(si, Some(action));
    proof {
        assert(choices(acted@) =~= chose.update(
            g as int,
            chose[g as int].update(si as int, Some(action)),
        ));
        assert(choices(acted@)[g as int][si as int] == Some(action));
        assert(seat_models(seats@) =~= was.update(g as int, model));
        assert(seat_models(seats@)[g as int] == model);
    }
    Ok(())
}

/// What each agent of each game chose, by its views.
pub open spec fn choices(acted: Seq<Vec<Option<usize>>>) -> Seq<Seq<Option<usize>>> {
    acted.map_values(|row: Vec<Option<usize>>| row@)
}

} // verus!
