//! What agents earn: every tick's pay stands on the decision that it followed, and none is lost.

use vstd::prelude::*;

#[allow(unused_imports)]
use super::advance::{joint_action, stepped, trace_reward, trace_reward_from, valued_seat};
#[allow(unused_imports)]
use super::decide::{buffered, decision, RoundOf};
#[allow(unused_imports)]
use super::seat::{Parts, SeatOf};
#[allow(unused_imports)]
use crate::encoder::StateEncoder;
#[allow(unused_imports)]
use crate::game::{spec_step_env, Game};
#[allow(unused_imports)]
use crate::learner::{Learner, StepModel};
#[allow(unused_imports)]
use crate::num::{law_ring, law_sum, ring, spec_sum, Scalar};
#[allow(unused_imports)]
use crate::policies::tree::expectimax::backup::InteriorTarget;
#[allow(unused_imports)]
use crate::policy::Policy;
#[allow(unused_imports)]
use crate::reward::Reward;

verus! {

/// What the events to an agent are worth to it, one by one.
pub open spec fn pays<N: Scalar, W: Reward<N>>(
    reward: W,
    trace: Seq<(usize, W::Event)>,
    agent: usize,
) -> Seq<N> {
    trace.filter(goes_to(agent)).map_values(worth_to(reward, agent))
}

/// Which events go to an agent.
pub open spec fn goes_to<V>(agent: usize) -> spec_fn((usize, V)) -> bool {
    |x: (usize, V)| x.0 == agent
}

/// What an event is worth to an agent.
pub open spec fn worth_to<N: Scalar, W: Reward<N>>(reward: W, agent: usize) -> spec_fn(
    (usize, W::Event),
) -> N {
    |x: (usize, W::Event)| reward.spec_step_reward(x.1, agent)
}

proof fn lemma_pays<N: Scalar, W: Reward<N>>(
    reward: W,
    trace: Seq<(usize, W::Event)>,
    agent: usize,
    i: nat,
    acc: N,
)
    requires
        i <= trace.len(),
        acc == spec_sum(pays(reward, trace.take(i as int), agent)),
    ensures
        trace_reward_from(reward, trace, agent, i, acc) == spec_sum(pays(reward, trace, agent)),
    decreases trace.len() - i,
{
    if i < trace.len() {
        reveal(Seq::filter);
        let mine = goes_to::<W::Event>(agent);
        let worth = worth_to(reward, agent);
        let before = trace.take(i as int);
        let now = trace.take((i + 1) as int);
        let x = trace[i as int];
        assert(now.drop_last() =~= before);
        assert(now.last() == x);
        let next = if x.0 == agent {
            law_sum(pays(reward, before, agent), worth(x));
            assert(before.filter(mine).push(x).map_values(worth) =~= pays(
                reward,
                before,
                agent,
            ).push(worth(x)));
            acc.spec_plus(worth(x))
        } else {
            acc
        };
        lemma_pays(reward, trace, agent, i + 1, next);
    } else {
        assert(trace.take(i as int) =~= trace);
    }
}

/// What a tick pays an agent is the sum of what the events to it are worth, in their order.
pub proof fn law_pay_is_what_events_are_worth<N: Scalar, W: Reward<N>>(
    reward: W,
    trace: Seq<(usize, W::Event)>,
    agent: usize,
)
    ensures
        trace_reward(reward, trace, agent) == spec_sum(pays(reward, trace, agent)),
{
    reveal(Seq::filter);
    let none = trace.take(0);
    assert(pays(reward, none, agent) =~= Seq::empty());
    law_sum(Seq::<N>::empty(), N::spec_zero());
    lemma_pays(reward, trace, agent, 0, N::spec_zero());
}

/// The events of the tick that a game takes.
pub open spec fn events_of<
    N: Scalar,
    G: Game<N>,
    E: StateEncoder<State = G::State>,
    W: Reward<N, Event = G::Event>,
    P: Policy<N>,
    L: Learner<N, E::Feature, P::Evaluation, E>,
>(
    parts: Parts<G, E, W, P, L>,
    seat: SeatOf<N, G, E, P>,
    row: Seq<Option<usize>>,
) -> Seq<(usize, G::Event)> {
    let t = spec_step_env(parts.game, seat.state, joint_action(row), seat.rng).0->Ok_0;
    let late = parts.game.spec_truncation_horizon() matches Some(h) && seat.tick + 1 >= h;
    if late && !t.terminal {
        parts.game.spec_mark_truncation(t.next_state, t.trace)
    } else {
        t.trace
    }
}

/// What the tick that a game takes pays an agent.
pub open spec fn pay<
    N: Scalar,
    G: Game<N>,
    E: StateEncoder<State = G::State>,
    W: Reward<N, Event = G::Event>,
    P: Policy<N>,
    L: Learner<N, E::Feature, P::Evaluation, E>,
>(
    parts: Parts<G, E, W, P, L>,
    seat: SeatOf<N, G, E, P>,
    row: Seq<Option<usize>>,
    agent: usize,
) -> N {
    spec_sum(pays(parts.reward, events_of(parts, seat, row), agent))
}

/// A tick takes the game to where the environment takes it, and is the last where the game ended or
/// the horizon was reached. It changes no decision but the last of each agent, and of that only what
/// followed: the last decision takes the tick's pay, alone where the agent has just decided, on top of
/// what it had earned where it has not; the end of the game marks it; and what the agent sees next
/// stands beside it where the learner asks for that.
pub proof fn law_ticks_pay_the_last_decision<
    N: Scalar,
    G: Game<N>,
    E: StateEncoder<State = G::State>,
    W: Reward<N, Event = G::Event>,
    P: Policy<N>,
    L: Learner<N, E::Feature, P::Evaluation, E>,
>(
    parts: Parts<G, E, W, P, L>,
    seat: SeatOf<N, G, E, P>,
    row: Seq<Option<usize>>,
    si: int,
)
    requires
        0 <= si < seat.traj.len() <= usize::MAX,
    ensures
        stepped(parts, seat, row) matches Ok((after, terminal, cut)) ==> {
            let t = spec_step_env(parts.game, seat.state, joint_action(row), seat.rng);
            let n = seat.traj[si].len() - 1;
            let was = seat.traj[si].last();
            let is = after.traj[si].last();
            let acted = row[si] is Some;
            let asks = parts.learner.spec_needs_next_obs();
            &&& after.state == t.0->Ok_0.next_state
            &&& after.rng == t.1
            &&& after.tick == seat.tick + 1
            &&& after.policy_state == seat.policy_state
            &&& after.seeded == seat.seeded
            &&& terminal == t.0->Ok_0.terminal
            &&& cut == (!terminal && (parts.game.spec_truncation_horizon() matches Some(h)
                && after.tick >= h))
            &&& after.traj.len() == seat.traj.len()
            &&& after.traj[si].len() == seat.traj[si].len()
            &&& n >= 0 ==> {
                &&& after.traj[si].drop_last() == seat.traj[si].drop_last()
                &&& is.obs == was.obs
                &&& is.evaluation == was.evaluation
                &&& is.action == was.action
                &&& acted ==> is.reward == pay(parts, seat, row, si as usize)
                &&& !acted ==> is.reward == was.reward.spec_plus(pay(parts, seat, row, si as usize))
                &&& acted ==> is.terminal == terminal
                &&& !acted ==> is.terminal == (was.terminal || terminal)
                &&& acted && asks ==> is.next_obs == parts.encoder.spec_encode(
                    after.state,
                    si as usize,
                ) && is.next_legal == parts.game.spec_legal_actions(after.state, si as usize)
                &&& !acted ==> is.next_obs == was.next_obs && is.next_legal == was.next_legal
            }
        },
{
    if let Ok((after, terminal, cut)) = stepped(parts, seat, row) {
        law_pay_is_what_events_are_worth(
            parts.reward,
            events_of(parts, seat, row),
            si as usize,
        );
        if seat.traj[si].len() > 0 {
            assert(after.traj[si].drop_last() =~= seat.traj[si].drop_last());
        }
    }
}

/// Each agent plays what it chose, and the first action where it chose nothing.
pub proof fn law_everyone_plays_their_choice(row: Seq<Option<usize>>, si: int)
    requires
        0 <= si < row.len(),
    ensures
        joint_action(row).len() == row.len(),
        row[si] matches Some(a) ==> joint_action(row)[si] == a,
        row[si] is None ==> joint_action(row)[si] == 0,
{
}

/// Between ticks an agent's decisions stay as they are, or one more is there that has earned nothing
/// yet.
pub open spec fn opened<F, N: Scalar, V>(
    before: Seq<StepModel<F, N, V>>,
    after: Seq<StepModel<F, N, V>>,
) -> bool {
    after == before || (after.len() == before.len() + 1 && after.drop_last() == before
        && after.last().reward == N::spec_zero())
}

/// A decision opens the decider's trajectory by one step with what it saw and did, and leaves everyone
/// else's alone.
pub proof fn law_decisions_open_a_step<
    N: Scalar,
    G: Game<N>,
    E: StateEncoder<State = G::State>,
    W: Reward<N, Event = G::Event>,
    P: Policy<N>,
    L: Learner<N, E::Feature, P::Evaluation, E>,
>(
    parts: Parts<G, E, W, P, L>,
    a: RoundOf<N, G, E, P, L>,
    eval: (P::Evaluation, Vec<InteriorTarget<E::Feature, N>>),
    g: usize,
    si: usize,
    b: RoundOf<N, G, E, P, L>,
    og: int,
    oi: int,
)
    requires
        decision(parts, a, eval, g, si, b),
        g < a.seats.len(),
        si < a.seats[g as int].traj.len(),
        0 <= og < a.seats.len(),
        0 <= oi < a.seats[og].traj.len(),
        a.acted.len() == a.seats.len(),
        a.acted[g as int].len() == a.seats[g as int].traj.len(),
    ensures
        b.seats.len() == a.seats.len(),
        b.seats[og].state == a.seats[og].state,
        b.seats[og].tick == a.seats[og].tick,
        b.seats[og].traj.len() == a.seats[og].traj.len(),
        og != g || oi != si ==> b.seats[og].traj[oi] == a.seats[og].traj[oi],
        og == g && oi == si ==> {
            let step = b.seats[og].traj[oi].last();
            &&& b.seats[og].traj[oi].len() == a.seats[og].traj[oi].len() + 1
            &&& b.seats[og].traj[oi].drop_last() == a.seats[og].traj[oi]
            &&& b.acted[og][oi] == Some(step.action)
            &&& step.obs == parts.encoder.spec_encode(a.seats[og].state, si)
            &&& step.evaluation == eval.0@
            &&& step.reward == N::spec_zero()
            &&& !step.terminal
        },
        opened(a.seats[og].traj[oi], b.seats[og].traj[oi]),
{
    let before = a.seats[g as int].traj[si as int];
    let step = buffered(
        parts.encoder.spec_encode(a.seats[g as int].state, si),
        eval.0@,
        b.acted[g as int][si as int]->Some_0,
    );
    assert(before.push(step).drop_last() =~= before);
}

/// Where someone acted, a step without a policy target opens for each agent that did not, if the
/// learner makes such steps; nobody else's trajectory changes.
pub proof fn law_bystanders_open_a_step<
    N: Scalar,
    G: Game<N>,
    E: StateEncoder<State = G::State>,
    W: Reward<N, Event = G::Event>,
    P: Policy<N>,
    L: Learner<N, E::Feature, P::Evaluation, E>,
>(
    parts: Parts<G, E, W, P, L>,
    seat: SeatOf<N, G, E, P>,
    row: Seq<Option<usize>>,
    si: int,
)
    requires
        0 <= si < seat.traj.len() <= usize::MAX,
    ensures
        ({
            let after = valued_seat(parts, seat, row);
            let made = parts.learner.spec_value_only_evaluation(parts.game.spec_action_count());
            let opens = row[si] is None && made is Some && exists|i: int|
                0 <= i < row.len() && (#[trigger] row[i]) is Some;
            &&& after.state == seat.state
            &&& after.rng == seat.rng
            &&& after.tick == seat.tick
            &&& after.traj.len() == seat.traj.len()
            &&& opened(seat.traj[si], after.traj[si])
            &&& !opens ==> after.traj[si] == seat.traj[si]
            &&& opens ==> {
                let step = after.traj[si].last();
                &&& after.traj[si].len() == seat.traj[si].len() + 1
                &&& step.obs == parts.encoder.spec_encode(seat.state, si as usize)
                &&& step.evaluation == made->Some_0
                &&& step.action == 0
            }
        }),
{
    let made = parts.learner.spec_value_only_evaluation(parts.game.spec_action_count());
    if let Some(v) = made {
        let step = buffered::<_, N, _>(
            parts.encoder.spec_encode(seat.state, si as usize),
            v,
            0,
        );
        assert(seat.traj[si].push(step).drop_last() =~= seat.traj[si]);
    }
}

/// A stretch of ticks of one game, seen by agent `si`: `seats[i]` before the `i`-th tick, `ready[i]`
/// once everyone has decided, and `rows[i]` what they chose. Who chose has a new step.
pub open spec fn stretch<
    N: Scalar,
    G: Game<N>,
    E: StateEncoder<State = G::State>,
    W: Reward<N, Event = G::Event>,
    P: Policy<N>,
    L: Learner<N, E::Feature, P::Evaluation, E>,
>(
    parts: Parts<G, E, W, P, L>,
    seats: Seq<SeatOf<N, G, E, P>>,
    ready: Seq<SeatOf<N, G, E, P>>,
    rows: Seq<Seq<Option<usize>>>,
    si: int,
) -> bool {
    &&& seats.len() == ready.len() + 1
    &&& rows.len() == ready.len()
    &&& forall|i: int|
        0 <= i < ready.len() ==> {
            let now = #[trigger] ready[i];
            &&& si < now.traj.len() <= usize::MAX
            &&& si < seats[i].traj.len()
            &&& opened(seats[i].traj[si], now.traj[si])
            &&& rows[i][si] is Some ==> now.traj[si].len() == seats[i].traj[si].len() + 1
            &&& stepped(parts, now, rows[i]) matches Ok(r) && r.0 == seats[i + 1]
        }
}

/// What the ticks from the `i`-th to before the `j`-th pay agent `si`, one by one.
pub open spec fn pays_between<
    N: Scalar,
    G: Game<N>,
    E: StateEncoder<State = G::State>,
    W: Reward<N, Event = G::Event>,
    P: Policy<N>,
    L: Learner<N, E::Feature, P::Evaluation, E>,
>(
    parts: Parts<G, E, W, P, L>,
    ready: Seq<SeatOf<N, G, E, P>>,
    rows: Seq<Seq<Option<usize>>>,
    si: int,
    i: int,
    j: int,
) -> Seq<N> {
    Seq::new((j - i) as nat, |k: int| pay(parts, ready[i + k], rows[i + k], si as usize))
}

/// The reward on a decision is the sum of what every tick pays its agent, from the one that it was
/// made for to before the agent's next decision.
pub proof fn law_decisions_earn_until_the_next<
    N: Scalar,
    G: Game<N>,
    E: StateEncoder<State = G::State>,
    W: Reward<N, Event = G::Event>,
    P: Policy<N>,
    L: Learner<N, E::Feature, P::Evaluation, E>,
>(
    parts: Parts<G, E, W, P, L>,
    seats: Seq<SeatOf<N, G, E, P>>,
    ready: Seq<SeatOf<N, G, E, P>>,
    rows: Seq<Seq<Option<usize>>>,
    si: int,
    i: int,
    j: int,
)
    requires
        ring::<N>(),
        0 <= si,
        stretch(parts, seats, ready, rows, si),
        0 <= i < j <= ready.len(),
        ready[i].traj[si].len() == seats[i].traj[si].len() + 1,
        forall|k: int| i < k < j ==> (#[trigger] ready[k]).traj[si] == seats[k].traj[si],
    ensures
        seats[j].traj[si].len() == ready[i].traj[si].len(),
        seats[j].traj[si].last().action == ready[i].traj[si].last().action,
        seats[j].traj[si].last().obs == ready[i].traj[si].last().obs,
        seats[j].traj[si].last().reward == spec_sum(
            pays_between(parts, ready, rows, si, i, j),
        ),
    decreases j - i,
{
    let k = j - 1;
    let now = ready[k];
    law_ticks_pay_the_last_decision(parts, now, rows[k], si);
    let before = pays_between(parts, ready, rows, si, i, k);
    let one = pay(parts, now, rows[k], si as usize);
    law_sum(before, one);
    assert(before.push(one) =~= pays_between(parts, ready, rows, si, i, j));
    law_ring(one, one, one);
    if i < k {
        assert(ready[k].traj[si] == seats[k].traj[si]);
        law_decisions_earn_until_the_next(parts, seats, ready, rows, si, i, k);
    } else {
        assert(before =~= Seq::empty());
        law_sum(before, one);
        assert(ready[i].traj[si] != seats[i].traj[si]);
    }
}

/// The rewards of a trajectory.
pub open spec fn earnings<F, N, V>(steps: Seq<StepModel<F, N, V>>) -> Seq<N> {
    steps.map_values(|s: StepModel<F, N, V>| s.reward)
}

/// No pay is lost: what an agent's decisions have earned grows by everything that the ticks pay it,
/// from its first decision on.
pub proof fn law_no_pay_is_lost<
    N: Scalar,
    G: Game<N>,
    E: StateEncoder<State = G::State>,
    W: Reward<N, Event = G::Event>,
    P: Policy<N>,
    L: Learner<N, E::Feature, P::Evaluation, E>,
>(
    parts: Parts<G, E, W, P, L>,
    seats: Seq<SeatOf<N, G, E, P>>,
    ready: Seq<SeatOf<N, G, E, P>>,
    rows: Seq<Seq<Option<usize>>>,
    si: int,
    i: int,
    j: int,
)
    requires
        ring::<N>(),
        0 <= si,
        stretch(parts, seats, ready, rows, si),
        0 <= i <= j <= ready.len(),
        i < j ==> ready[i].traj[si].len() > 0,
    ensures
        spec_sum(earnings(seats[j].traj[si])) == spec_sum(earnings(seats[i].traj[si])).spec_plus(
            spec_sum(pays_between(parts, ready, rows, si, i, j)),
        ),
        i < j ==> seats[j].traj[si].len() > 0,
    decreases j - i,
{
    let start = spec_sum(earnings(seats[i].traj[si]));
    if i == j {
        assert(pays_between(parts, ready, rows, si, i, j) =~= Seq::empty());
        law_sum(Seq::<N>::empty(), start);
        law_ring(start, start, start);
    } else {
        let k = j - 1;
        law_no_pay_is_lost(parts, seats, ready, rows, si, i, k);
        let now = ready[k];
        let one = pay(parts, now, rows[k], si as usize);
        let before = pays_between(parts, ready, rows, si, i, k);
        law_sum(before, one);
        assert(before.push(one) =~= pays_between(parts, ready, rows, si, i, j));
        law_ring(start, spec_sum(before), one);
        law_ticks_pay_the_last_decision(parts, now, rows[k], si);
        let old_steps = seats[k].traj[si];
        let mid = now.traj[si];
        let new_steps = seats[j].traj[si];
        let zero = N::spec_zero();
        let rest = earnings(mid.drop_last());
        assert(earnings(mid) =~= rest.push(mid.last().reward));
        assert(earnings(new_steps) =~= rest.push(new_steps.last().reward));
        law_sum(rest, mid.last().reward);
        law_sum(rest, new_steps.last().reward);
        law_ring(spec_sum(rest), mid.last().reward, one);
        law_ring(spec_sum(rest), one, one);
        law_ring(one, one, one);
        if mid != old_steps {
            assert(mid.last().reward == zero);
            assert(spec_sum(earnings(mid)) == spec_sum(earnings(old_steps)));
        }
        assert(spec_sum(earnings(new_steps)) == spec_sum(earnings(old_steps)).spec_plus(one));
    }
}

} // verus!
