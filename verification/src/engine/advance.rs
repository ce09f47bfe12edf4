//! The transition of every game.

use vstd::prelude::*;

use super::decide::buffered;
#[allow(unused_imports)]
use super::decide::choices;
use super::seat::{Parts, Seat};
#[allow(unused_imports)]
use super::seat::{seat_models, seated, traj_models, SeatModel, SeatOf};
use crate::encoder::StateEncoder;
use crate::fault::Fault;
use crate::game::Game;
#[allow(unused_imports)]
use crate::game::spec_step_env;
use crate::learner::{Learner, Step};
#[allow(unused_imports)]
use crate::learner::{step_models, StepModel};
use crate::num::Scalar;
use crate::policies::tree::mcts::simulate::bump;
#[allow(unused_imports)]
use crate::policies::tree::mcts::simulate::counted;
use crate::policy::Policy;
use crate::reward::Reward;
use crate::rng::SplitMix64;
use crate::start::StartDistribution;

verus! {

/// Whether any agent chose.
pub open spec fn anyone_acted(row: Seq<Option<usize>>) -> bool {
    exists|i: int| 0 <= i < row.len() && (#[trigger] row[i]) is Some
}

/// A game in which some agent chose, with a step without a policy target for each agent that did
/// not, where the learner makes such steps.
pub open spec fn valued_seat<
    N: Scalar,
    G: Game<N>,
    E: StateEncoder<State = G::State>,
    W: Reward<N, Event = G::Event>,
    P: Policy<N>,
    L: Learner<N, E::Feature, P::Evaluation, E>,
>(
    parts: Parts<G, E, W, P, L>,
    seat: SeatOf<N, G, E, P>,
    row: Seq<Option<usize>>,
) -> SeatOf<N, G, E, P> {
    match parts.learner.spec_value_only_evaluation(parts.game.spec_action_count()) {
        Some(v) if anyone_acted(row) => SeatModel {
            traj: Seq::new(
                seat.traj.len(),
                |si: int|
                    if row[si] is None {
                        seat.traj[si].push(
                            buffered(parts.encoder.spec_encode(seat.state, si as usize), v, 0),
                        )
                    } else {
                        seat.traj[si]
                    },
            ),
            ..seat
        },
        _ => seat,
    }
}

/// Every game with such steps, where the policy consumes every perspective.
pub open spec fn valued<
    N: Scalar,
    G: Game<N>,
    E: StateEncoder<State = G::State>,
    W: Reward<N, Event = G::Event>,
    P: Policy<N>,
    L: Learner<N, E::Feature, P::Evaluation, E>,
>(
    parts: Parts<G, E, W, P, L>,
    seats: Seq<SeatOf<N, G, E, P>>,
    acted: Seq<Seq<Option<usize>>>,
) -> Seq<SeatOf<N, G, E, P>> {
    if parts.policy.spec_evaluates_all_perspectives(
        parts.sequential,
        parts.game.spec_num_agents(),
    ) {
        Seq::new(seats.len(), |g: int| valued_seat(parts, seats[g], acted[g]))
    } else {
        seats
    }
}

fn any_acted(row: &Vec<Option<usize>>) -> (r: bool)
    ensures
        r == anyone_acted(row@),
{
    let mut i: usize = 0;
    while i < row.len()
        invariant
            i <= row@.len(),
            forall|j: int| 0 <= j < i ==> (#[trigger] row@[j]) is None,
        decreases row@.len() - i,
    {
        if row[i].is_some() {
            assert(row@[i as int] is Some);
            return true;
        }
        i = i + 1;
    }
    false
}

/// Adds the steps of one game's agents that did not choose.
#[verifier::loop_isolation(false)]
pub fn value_seat<
    N: Scalar,
    G: Game<N>,
    E: StateEncoder<State = G::State>,
    W: Reward<N, Event = G::Event>,
    P: Policy<N>,
    L: Learner<N, E::Feature, P::Evaluation, E>,
>(
    parts: &Parts<G, E, W, P, L>,
    seat: &mut Seat<G::State, P::PolicyState, E::Feature, N, P::Evaluation>,
    row: &Vec<Option<usize>>,
)
    requires
        row@.len() == old(seat).traj@.len(),
    ensures
        final(seat)@ == valued_seat(*parts, old(seat)@, row@),
{
    let ghost was = seat@;
    let ghost goal = valued_seat(*parts, was, row@);
    if !any_acted(row) {
        return;
    }
    let n = row.len();
    let a = parts.game.action_count();
    let mut si: usize = 0;
    while si < n
        invariant
            si <= n == row@.len() == seat.traj@.len() == was.traj.len(),
            seat@.state == was.state,
            seat@.rng == was.rng,
            seat@.policy_state == was.policy_state,
            seat@.tick == was.tick,
            seat@.seeded == was.seeded,
            forall|i: int|
                0 <= i < si ==> (#[trigger] traj_models(seat.traj@)[i]) == goal.traj[i],
            forall|i: int|
                si <= i < n ==> (#[trigger] traj_models(seat.traj@)[i]) == was.traj[i],
        decreases n - si,
    {
        if row[si].is_none() {
            match parts.learner.value_only_evaluation(a) {
                Some(evaluation) => {
                    let ghost v = evaluation@;
                    let next_obs: Vec<E::Feature> = Vec::new();
                    let next_legal: Vec<usize> = Vec::new();
                    assert(next_obs@ =~= Seq::empty());
                    assert(next_legal@ =~= Seq::empty());
                    let obs = seat.episode.observe(&parts.encoder, si);
                    let step = Step {
                        obs,
                        evaluation,
                        action: 0,
                        reward: N::zero(),
                        next_obs,
                        next_legal,
                        terminal: false,
                    };
                    let ghost shown = step@;
                    assert(shown =~= buffered(
                        parts.encoder.spec_encode(was.state, si),
                        v,
                        0,
                    ));
                    let ghost held = seat.traj@;
                    let ghost old_row = held[si as int]@;
                    let mine = &mut seat.traj[si];
                    mine.push(step);
                    proof {
                        assert(step_models(old_row.push(step)) =~= step_models(old_row).push(
                            shown,
                        ));
                        assert(traj_models(held)[si as int] == step_models(old_row));
                        assert(traj_models(seat.traj@)[si as int] == was.traj[si as int].push(
                            shown,
                        ));
                        assert forall|i: int| 0 <= i < n && i != si implies (#[trigger] traj_models(
                            seat.traj@,
                        )[i]) == traj_models(held)[i] by {}
                    }
                },
                None => {},
            }
        }
        si = si + 1;
    }
    assert(seat@.traj =~= goal.traj);
}

/// Adds the steps of every game's agents that did not choose.
pub fn value_all<
    N: Scalar,
    G: Game<N>,
    E: StateEncoder<State = G::State>,
    W: Reward<N, Event = G::Event>,
    P: Policy<N>,
    L: Learner<N, E::Feature, P::Evaluation, E>,
>(
    parts: &Parts<G, E, W, P, L>,
    seats: &mut Vec<Seat<G::State, P::PolicyState, E::Feature, N, P::Evaluation>>,
    acted: &Vec<Vec<Option<usize>>>,
)
    requires
        acted@.len() == old(seats)@.len(),
        forall|g: int|
            0 <= g < acted@.len() ==> (#[trigger] acted@[g])@.len() == old(seats)@[g].traj@.len(),
    ensures
        seat_models(final(seats)@) == valued(*parts, seat_models(old(seats)@), choices(acted@)),
{
    let ghost was = seats@;
    let ghost models = seat_models(was);
    let ghost chose = choices(acted@);
    if !parts.policy.evaluates_all_perspectives(parts.sequential, parts.game.num_agents()) {
        return;
    }
    let mut g: usize = 0;
    while g < seats.len()
        invariant
            g <= seats@.len() == acted@.len() == was.len(),
            models == seat_models(was),
            chose == choices(acted@),
            forall|i: int|
                0 <= i < acted@.len() ==> (#[trigger] acted@[i])@.len() == was[i].traj@.len(),
            forall|i: int|
                0 <= i < g ==> (#[trigger] seats@[i])@ == valued_seat(*parts, models[i], chose[i]),
            forall|i: int| g <= i < seats@.len() ==> (#[trigger] seats@[i]) == was[i],
        decreases seats@.len() - g,
    {
        assert(models[g as int] == was[g as int]@);
        assert(chose[g as int] == acted@[g as int]@);
        let seat = &mut seats[g];
        value_seat(parts, seat, &acted[g]);
        g = g + 1;
    }
    assert(seat_models(seats@) =~= valued(*parts, models, chose));
}

/// What a tick's events are worth to an agent, in their order, on top of `acc`.
pub open spec fn trace_reward_from<N: Scalar, W: Reward<N>>(
    reward: W,
    trace: Seq<(usize, W::Event)>,
    agent: usize,
    i: nat,
    acc: N,
) -> N
    decreases trace.len() - i,
{
    if i >= trace.len() {
        acc
    } else {
        let (to, event) = trace[i as int];
        trace_reward_from(
            reward,
            trace,
            agent,
            i + 1,
            if to == agent {
                acc.spec_plus(reward.spec_step_reward(event, agent))
            } else {
                acc
            },
        )
    }
}

/// What a tick's events are worth to an agent.
pub open spec fn trace_reward<N: Scalar, W: Reward<N>>(
    reward: W,
    trace: Seq<(usize, W::Event)>,
    agent: usize,
) -> N {
    trace_reward_from(reward, trace, agent, 0, N::spec_zero())
}

/// Sums what a tick's events are worth to an agent.
pub fn sum_trace<N: Scalar, W: Reward<N>>(
    reward: &W,
    trace: &Vec<(usize, W::Event)>,
    agent: usize,
) -> (r: N)
    ensures
        r == trace_reward(*reward, trace@, agent),
{
    let mut acc = N::zero();
    let mut i: usize = 0;
    while i < trace.len()
        invariant
            i <= trace@.len(),
            trace_reward_from(*reward, trace@, agent, i as nat, acc) == trace_reward(
                *reward,
                trace@,
                agent,
            ),
        decreases trace@.len() - i,
    {
        let (to, event) = &trace[i];
        if *to == agent {
            acc = acc.plus(reward.step_reward(event, agent));
        }
        i = i + 1;
    }
    acc
}

/// An agent's trajectory after a tick. The step of an agent that chose takes the tick's reward and
/// what follows it; an agent that did not choose is scored by the tick all the same, on its last
/// step.
pub open spec fn stamped_row<
    N: Scalar,
    G: Game<N>,
    E: StateEncoder<State = G::State>,
    W: Reward<N, Event = G::Event>,
    P: Policy<N>,
    L: Learner<N, E::Feature, P::Evaluation, E>,
>(
    parts: Parts<G, E, W, P, L>,
    state: G::State,
    steps: Seq<StepModel<E::Feature, N, <P::Evaluation as View>::V>>,
    si: usize,
    acted: bool,
    reward: N,
    terminal: bool,
) -> Seq<StepModel<E::Feature, N, <P::Evaluation as View>::V>> {
    if steps.len() == 0 {
        steps
    } else {
        let last = steps.last();
        let needs = parts.learner.spec_needs_next_obs();
        steps.update(
            steps.len() - 1,
            if acted {
                StepModel {
                    reward,
                    next_obs: if needs {
                        parts.encoder.spec_encode(state, si)
                    } else {
                        Seq::empty()
                    },
                    next_legal: if needs {
                        parts.game.spec_legal_actions(state, si)
                    } else {
                        Seq::empty()
                    },
                    terminal,
                    ..last
                }
            } else {
                StepModel {
                    reward: last.reward.spec_plus(reward),
                    terminal: last.terminal || terminal,
                    ..last
                }
            },
        )
    }
}

/// A game after its transition, its agents' trajectories stamped with it.
pub open spec fn stamped<
    N: Scalar,
    G: Game<N>,
    E: StateEncoder<State = G::State>,
    W: Reward<N, Event = G::Event>,
    P: Policy<N>,
    L: Learner<N, E::Feature, P::Evaluation, E>,
>(
    parts: Parts<G, E, W, P, L>,
    seat: SeatOf<N, G, E, P>,
    row: Seq<Option<usize>>,
    trace: Seq<(usize, G::Event)>,
    terminal: bool,
) -> SeatOf<N, G, E, P> {
    SeatModel {
        traj: Seq::new(
            seat.traj.len(),
            |si: int|
                stamped_row(
                    parts,
                    seat.state,
                    seat.traj[si],
                    si as usize,
                    row[si] is Some,
                    trace_reward(parts.reward, trace, si as usize),
                    terminal,
                ),
        ),
        ..seat
    }
}

/// Stamps a game's trajectories with a tick.
#[verifier::loop_isolation(false)]
pub fn stamp<
    N: Scalar,
    G: Game<N>,
    E: StateEncoder<State = G::State>,
    W: Reward<N, Event = G::Event>,
    P: Policy<N>,
    L: Learner<N, E::Feature, P::Evaluation, E>,
>(
    parts: &Parts<G, E, W, P, L>,
    seat: &mut Seat<G::State, P::PolicyState, E::Feature, N, P::Evaluation>,
    row: &Vec<Option<usize>>,
    trace: &Vec<(usize, G::Event)>,
    terminal: bool,
)
    requires
        row@.len() == old(seat).traj@.len(),
    ensures
        final(seat)@ == stamped(*parts, old(seat)@, row@, trace@, terminal),
{
    let ghost was = seat@;
    let ghost goal = stamped(*parts, was, row@, trace@, terminal);
    let n = row.len();
    let needs = parts.learner.needs_next_obs();
    let mut si: usize = 0;
    while si < n
        invariant
            si <= n == row@.len() == seat.traj@.len() == was.traj.len(),
            seat@.state == was.state,
            seat@.rng == was.rng,
            seat@.policy_state == was.policy_state,
            seat@.tick == was.tick,
            seat@.seeded == was.seeded,
            forall|i: int|
                0 <= i < si ==> (#[trigger] traj_models(seat.traj@)[i]) == goal.traj[i],
            forall|i: int|
                si <= i < n ==> (#[trigger] traj_models(seat.traj@)[i]) == was.traj[i],
        decreases n - si,
    {
        let reward = sum_trace(&parts.reward, trace, si);
        let ghost held = seat.traj@;
        let len = seat.traj[si].len();
        assert(traj_models(held)[si as int] == step_models(held[si as int]@));
        assert(was.traj[si as int] == step_models(held[si as int]@));
        if len > 0 {
            let ghost last = held[si as int]@[len - 1];
            assert(step_models(held[si as int]@).last() == last@);
            if row[si].is_some() {
                let mut next_obs: Vec<E::Feature> = Vec::new();
                let mut next_legal: Vec<usize> = Vec::new();
                if needs {
                    next_obs = seat.episode.observe(&parts.encoder, si);
                    next_legal = parts.game.legal_actions(&seat.episode.state, si);
                }
                assert(!needs ==> next_obs@ =~= Seq::empty() && next_legal@ =~= Seq::empty());
                let mine = &mut seat.traj[si];
                let step = &mut mine[len - 1];
                step.reward = reward;
                step.next_obs = next_obs;
                step.next_legal = next_legal;
                step.terminal = terminal;
            } else {
                let mine = &mut seat.traj[si];
                let step = &mut mine[len - 1];
                step.reward = step.reward.plus(reward);
                step.terminal = step.terminal || terminal;
            }
            proof {
                let now = seat.traj@[si as int]@[len - 1];
                assert(seat.traj@[si as int]@ =~= held[si as int]@.update(len - 1, now));
                assert(step_models(seat.traj@[si as int]@) =~= step_models(
                    held[si as int]@,
                ).update(len - 1, now@));
                assert(traj_models(seat.traj@)[si as int] =~= goal.traj[si as int]);
            }
        } else {
            assert(step_models(held[si as int]@).len() == 0);
            assert(traj_models(seat.traj@)[si as int] =~= goal.traj[si as int]);
        }
        proof {
            assert forall|i: int| 0 <= i < n && i != si implies (#[trigger] traj_models(
                seat.traj@,
            )[i]) == traj_models(held)[i] by {}
        }
        si = si + 1;
    }
    assert(seat@.traj =~= goal.traj);
}

/// The joint action of a game: what each agent chose, and the first action for who did not.
pub open spec fn joint_action(row: Seq<Option<usize>>) -> Seq<usize> {
    row.map_values(
        |a: Option<usize>|
            match a {
                Some(x) => x,
                None => 0,
            },
    )
}

/// Whether a tick that did not end the game is its last.
pub open spec fn cut_short(horizon: Option<usize>, tick: usize, terminal: bool) -> bool {
    match horizon {
        Some(h) => tick >= h && !terminal,
        None => false,
    }
}

/// A game after its tick, and whether the tick ended it or cut it short. On a tick that cuts it
/// short the game marks the events first.
pub open spec fn stepped<
    N: Scalar,
    G: Game<N>,
    E: StateEncoder<State = G::State>,
    W: Reward<N, Event = G::Event>,
    P: Policy<N>,
    L: Learner<N, E::Feature, P::Evaluation, E>,
>(
    parts: Parts<G, E, W, P, L>,
    seat: SeatOf<N, G, E, P>,
    row: Seq<Option<usize>>,
) -> Result<(SeatOf<N, G, E, P>, bool, bool), Fault> {
    let (tick, rng) = spec_step_env(parts.game, seat.state, joint_action(row), seat.rng);
    match tick {
        Err(f) => Err(f),
        Ok(t) => match counted(seat.tick, 1) {
            Err(f) => Err(f),
            Ok(count) => {
                let cut = cut_short(parts.game.spec_truncation_horizon(), count, t.terminal);
                let trace = if cut {
                    parts.game.spec_mark_truncation(t.next_state, t.trace)
                } else {
                    t.trace
                };
                let moved = SeatModel { state: t.next_state, rng, tick: count, ..seat };
                Ok((stamped(parts, moved, row, trace, t.terminal), t.terminal, cut))
            },
        },
    }
}

/// Advances one game by a tick.
pub fn step_seat<
    N: Scalar,
    G: Game<N>,
    E: StateEncoder<State = G::State>,
    W: Reward<N, Event = G::Event>,
    P: Policy<N>,
    L: Learner<N, E::Feature, P::Evaluation, E>,
>(
    parts: &Parts<G, E, W, P, L>,
    seat: &mut Seat<G::State, P::PolicyState, E::Feature, N, P::Evaluation>,
    row: &Vec<Option<usize>>,
) -> (r: Result<(bool, bool), Fault>)
    requires
        row@.len() == old(seat).traj@.len(),
    ensures
        match r {
            Ok((terminal, cut)) => stepped(*parts, old(seat)@, row@) == Ok::<_, Fault>(
                (final(seat)@, terminal, cut),
            ),
            Err(f) => stepped(*parts, old(seat)@, row@) == Err::<(SeatOf<N, G, E, P>, bool, bool), _>(f),
        },
{
    let mut joint: Vec<usize> = Vec::new();
    let mut i: usize = 0;
    while i < row.len()
        invariant
            i <= row@.len(),
            joint@ =~= joint_action(row@).take(i as int),
        decreases row@.len() - i,
    {
        joint.push(
            match row[i] {
                Some(x) => x,
                None => 0,
            },
        );
        i = i + 1;
    }
    assert(joint_action(row@).take(i as int) =~= joint_action(row@));
    let (trace, terminal) = match seat.episode.advance(&parts.game, &joint) {
        Ok(t) => t,
        Err(f) => return Err(f),
    };
    let mut trace = trace;
    match bump(seat.tick, 1) {
        Ok(n) => {
            seat.tick = n;
        },
        Err(f) => return Err(f),
    }
    let cut = match parts.game.truncation_horizon() {
        Some(h) => seat.tick >= h && !terminal,
        None => false,
    };
    if cut {
        parts.game.mark_truncation(&seat.episode.state, &mut trace);
    }
    stamp(parts, seat, row, &trace, terminal);
    Ok((terminal, cut))
}

/// Every game advanced, the start distribution and its generator, and the games that finished, with
/// whether they ended.
#[verifier::ext_equal]
pub struct Advanced<S, A, F, N, V, D> {
    pub seats: Seq<SeatModel<S, A, F, N, V>>,
    pub start: D,
    pub buffer_rng: SplitMix64,
    pub finished: Seq<(usize, bool)>,
}

/// What is known of a composition once its games have advanced.
pub type AdvancedOf<N, G, E, P, D> = Advanced<
    <G as Game<N>>::State,
    <P as Policy<N>>::PolicyState,
    <E as StateEncoder>::Feature,
    N,
    <<P as Policy<N>>::Evaluation as View>::V,
    D,
>;

/// The first `g` games advanced. Reached states that are not ends are shown to the start
/// distribution.
pub open spec fn advanced<
    N: Scalar,
    G: Game<N>,
    E: StateEncoder<State = G::State>,
    W: Reward<N, Event = G::Event>,
    P: Policy<N>,
    L: Learner<N, E::Feature, P::Evaluation, E>,
    D: StartDistribution<G::State>,
>(
    parts: Parts<G, E, W, P, L>,
    seats: Seq<SeatOf<N, G, E, P>>,
    acted: Seq<Seq<Option<usize>>>,
    start: D,
    buffer_rng: SplitMix64,
    g: nat,
) -> Result<AdvancedOf<N, G, E, P, D>, Fault>
    decreases g,
{
    if g == 0 {
        Ok(Advanced { seats, start, buffer_rng, finished: Seq::empty() })
    } else {
        match advanced(parts, seats, acted, start, buffer_rng, (g - 1) as nat) {
            Err(f) => Err(f),
            Ok(a) => match stepped(parts, a.seats[g - 1], acted[g - 1]) {
                Err(f) => Err(f),
                Ok((seat, terminal, cut)) => {
                    let (start, buffer_rng) = if terminal {
                        (a.start, a.buffer_rng)
                    } else {
                        a.start.spec_observe(seat.state, a.buffer_rng)
                    };
                    Ok(
                        Advanced {
                            seats: a.seats.update(g - 1, seat),
                            start,
                            buffer_rng,
                            finished: if terminal || cut {
                                a.finished.push(((g - 1) as usize, terminal))
                            } else {
                                a.finished
                            },
                        },
                    )
                },
            },
        }
    }
}

proof fn lemma_advanced_fault<
    N: Scalar,
    G: Game<N>,
    E: StateEncoder<State = G::State>,
    W: Reward<N, Event = G::Event>,
    P: Policy<N>,
    L: Learner<N, E::Feature, P::Evaluation, E>,
    D: StartDistribution<G::State>,
>(
    parts: Parts<G, E, W, P, L>,
    seats: Seq<SeatOf<N, G, E, P>>,
    acted: Seq<Seq<Option<usize>>>,
    start: D,
    buffer_rng: SplitMix64,
    g: nat,
    n: nat,
    f: Fault,
)
    requires
        g <= n,
        advanced(parts, seats, acted, start, buffer_rng, g) == Err::<AdvancedOf<N, G, E, P, D>, _>(f),
    ensures
        advanced(parts, seats, acted, start, buffer_rng, n) == Err::<AdvancedOf<N, G, E, P, D>, _>(f),
    decreases n,
{
    if g < n {
        lemma_advanced_fault(parts, seats, acted, start, buffer_rng, g, (n - 1) as nat, f);
    }
}

/// Advances every game.
#[verifier::loop_isolation(false)]
pub fn advance_all<
    N: Scalar,
    G: Game<N>,
    E: StateEncoder<State = G::State>,
    W: Reward<N, Event = G::Event>,
    P: Policy<N>,
    L: Learner<N, E::Feature, P::Evaluation, E>,
    D: StartDistribution<G::State>,
>(
    parts: &Parts<G, E, W, P, L>,
    seats: &mut Vec<Seat<G::State, P::PolicyState, E::Feature, N, P::Evaluation>>,
    acted: &Vec<Vec<Option<usize>>>,
    start: &mut D,
    buffer_rng: &mut SplitMix64,
) -> (r: Result<Vec<(usize, bool)>, Fault>)
    requires
        acted@.len() == old(seats)@.len(),
        forall|g: int|
            0 <= g < acted@.len() ==> (#[trigger] acted@[g])@.len() == old(seats)@[g].traj@.len(),
    ensures
        match r {
            Ok(finished) => advanced(
                *parts,
                seat_models(old(seats)@),
                choices(acted@),
                *old(start),
                *old(buffer_rng),
                old(seats)@.len(),
            ) == Ok::<_, Fault>(
                Advanced {
                    seats: seat_models(final(seats)@),
                    start: *final(start),
                    buffer_rng: *final(buffer_rng),
                    finished: finished@,
                },
            ),
            Err(f) => advanced(
                *parts,
                seat_models(old(seats)@),
                choices(acted@),
                *old(start),
                *old(buffer_rng),
                old(seats)@.len(),
            ) == Err::<AdvancedOf<N, G, E, P, D>, _>(f),
        },
{
    let ghost was = seats@;
    let ghost models = seat_models(was);
    let ghost chose = choices(acted@);
    let n = seats.len();
    let mut finished: Vec<(usize, bool)> = Vec::new();
    assert(finished@ =~= Seq::empty());
    let mut g: usize = 0;
    while g < n
        invariant
            g <= n == seats@.len() == was.len() == acted@.len(),
            forall|i: int| g <= i < n ==> (#[trigger] seats@[i]) == was[i],
            advanced(*parts, models, chose, *old(start), *old(buffer_rng), g as nat) == Ok::<
                _,
                Fault,
            >(
                Advanced {
                    seats: seat_models(seats@),
                    start: *start,
                    buffer_rng: *buffer_rng,
                    finished: finished@,
                },
            ),
        decreases n - g,
    {
        let ghost now = seat_models(seats@);
        assert(now[g as int] == was[g as int]@);
        assert(chose[g as int] == acted@[g as int]@);
        let seat = &mut seats[g];
        let outcome = step_seat(parts, seat, &acted[g]);
        let (terminal, cut) = match outcome {
            Ok(t) => t,
            Err(f) => {
                proof {
                    lemma_advanced_fault(
                        *parts,
                        models,
                        chose,
                        *old(start),
                        *old(buffer_rng),
                        (g + 1) as nat,
                        n as nat,
                        f,
                    );
                }
                return Err(f);
            },
        };
        let ghost stepped_seat = seat@;
        if !terminal {
            start.observe(&seat.episode.state, buffer_rng);
        }
        if terminal || cut {
            finished.push((g, terminal));
        }
        assert(seat_models(seats@) =~= now.update(g as int, stepped_seat));
        g = g + 1;
    }
    Ok(finished)
}

/// Advancing keeps the seats and their agents.
pub proof fn lemma_advanced_seated<
    N: Scalar,
    G: Game<N>,
    E: StateEncoder<State = G::State>,
    W: Reward<N, Event = G::Event>,
    P: Policy<N>,
    L: Learner<N, E::Feature, P::Evaluation, E>,
    D: StartDistribution<G::State>,
>(
    parts: Parts<G, E, W, P, L>,
    seats: Seq<SeatOf<N, G, E, P>>,
    acted: Seq<Seq<Option<usize>>>,
    start: D,
    buffer_rng: SplitMix64,
    g: nat,
    agents: nat,
)
    requires
        g <= seats.len(),
        seated(seats, agents),
    ensures
        advanced(parts, seats, acted, start, buffer_rng, g) matches Ok(a) ==> {
            &&& a.seats.len() == seats.len()
            &&& seated(a.seats, agents)
            &&& forall|i: int|
                0 <= i < a.finished.len() ==> (#[trigger] a.finished[i]).0 < seats.len()
        },
    decreases g,
{
    if g > 0 {
        lemma_advanced_seated(parts, seats, acted, start, buffer_rng, (g - 1) as nat, agents);
        if let Ok(a) = advanced(parts, seats, acted, start, buffer_rng, (g - 1) as nat) {
            if let Ok((seat, terminal, cut)) = stepped(parts, a.seats[g - 1], acted[g - 1]) {
                assert(a.seats[g - 1].traj.len() == agents);
                assert(seat.traj.len() == agents);
                assert forall|i: int| 0 <= i < seats.len() implies (#[trigger] a.seats.update(
                    g - 1,
                    seat,
                )[i]).traj.len() == agents by {
                    if i != g - 1 {
                        assert(a.seats[i].traj.len() == agents);
                    }
                }
            }
        }
    }
}

} // verus!
