//! Game dynamics and chance realization.

use vstd::prelude::*;

use crate::fault::Fault;
use crate::num::{sum, Scalar};
use crate::rng::weighted_index;
#[allow(unused_imports)]
use crate::num::{irreflexive, spec_sum};
#[allow(unused_imports)]
use crate::rng::{lemma_weight_scan_bound, weighted_pick};
#[allow(unused_imports)]
use crate::util::viewed;

verus! {

/// Random source used by realized transitions: each draw is a function of the source's state.
pub trait Rng<N: Scalar>: Sized {
    /// A draw below `n`, and the source after it.
    open spec fn spec_below(self, n: usize) -> (usize, Self) {
        arbitrary()
    }

    fn below(&mut self, n: usize) -> (r: usize)
        requires
            n > 0,
        ensures
            (r, *final(self)) == old(self).spec_below(n),
            r < n,
    ;

    /// A draw from the unit interval, and the source after it.
    open spec fn spec_unit(self) -> (N, Self) {
        arbitrary()
    }

    fn unit(&mut self) -> (r: N)
        ensures
            (r, *final(self)) == old(self).spec_unit(),
    ;
}

/// Who chooses at a node.
#[derive(Clone, Copy, Debug, PartialEq, Eq, Structural)]
pub enum Actor {
    Agent(usize),
    Simultaneous,
    Chance,
}

/// One edge's resulting state, incremental events, and terminal status.
pub struct Transition<S, E> {
    pub next_state: S,
    pub events: Vec<Option<E>>,
    pub terminal: bool,
}

/// A transition as a mathematical value.
#[verifier::ext_equal]
pub struct TransitionModel<S, E> {
    pub next_state: S,
    pub events: Seq<Option<E>>,
    pub terminal: bool,
}

impl<S, E> View for Transition<S, E> {
    type V = TransitionModel<S, E>;

    open spec fn view(&self) -> TransitionModel<S, E> {
        TransitionModel {
            next_state: self.next_state,
            events: self.events@,
            terminal: self.terminal,
        }
    }
}

impl<S, E> Transition<S, E> {
    /// A non-terminal edge with no emitted events.
    pub fn silent(next_state: S, num_agents: usize) -> (r: Self)
        ensures
            r@ == (TransitionModel {
                next_state,
                events: Seq::new(num_agents as nat, |i: int| None::<E>),
                terminal: false,
            }),
    {
        let mut events: Vec<Option<E>> = Vec::new();
        let mut i: usize = 0;
        while i < num_agents
            invariant
                i <= num_agents,
                events@ =~= Seq::new(i as nat, |i: int| None::<E>),
            decreases num_agents - i,
        {
            events.push(None);
            i = i + 1;
        }
        Transition { next_state, events, terminal: false }
    }
}

/// A chance state's distribution over outcome indices.
#[derive(Clone, Debug, PartialEq)]
pub enum ChanceDist<N> {
    Weighted(Vec<N>),
    Uniform(usize),
}

/// A chance distribution as a mathematical value.
#[verifier::ext_equal]
pub enum ChanceModel<N> {
    Weighted(Seq<N>),
    Uniform(usize),
}

impl<N> View for ChanceDist<N> {
    type V = ChanceModel<N>;

    open spec fn view(&self) -> ChanceModel<N> {
        match self {
            ChanceDist::Weighted(p) => ChanceModel::Weighted(p@),
            ChanceDist::Uniform(n) => ChanceModel::Uniform(*n),
        }
    }
}

/// Whether weights can be drawn from.
pub open spec fn sound_total<N: Scalar>(total: N) -> bool {
    total.spec_is_finite() && N::spec_zero().spec_less(total)
}

impl<N: Scalar> ChanceModel<N> {
    pub open spec fn count(self) -> nat {
        match self {
            ChanceModel::Weighted(p) => p.len(),
            ChanceModel::Uniform(n) => n as nat,
        }
    }

    /// The weights, if there are any, have a finite positive total.
    pub open spec fn sound(self) -> bool {
        match self {
            ChanceModel::Weighted(p) => sound_total(spec_sum(p)),
            ChanceModel::Uniform(n) => true,
        }
    }

    /// Normalized probabilities in outcome order.
    pub open spec fn probs(self) -> Seq<N> {
        match self {
            ChanceModel::Weighted(p) => p.map_values(|w: N| w.spec_over(spec_sum(p))),
            ChanceModel::Uniform(n) => crate::util::spec_filled(
                N::spec_one().spec_over(N::spec_count(n as u64)),
                n as nat,
            ),
        }
    }

    /// The outcome that one unit draw picks.
    pub open spec fn pick(self, unit: N) -> usize {
        match self {
            ChanceModel::Weighted(p) => weighted_pick(p, unit) as usize,
            ChanceModel::Uniform(n) => {
                let i = N::spec_count(n as u64).spec_times(unit).spec_index();
                if n == 0 {
                    0
                } else if i < n {
                    i
                } else {
                    (n - 1) as usize
                }
            },
        }
    }

    /// What drawing from `rng` gives, and the source after it.
    pub open spec fn drawn<R: Rng<N>>(self, rng: R) -> (Result<usize, Fault>, R) {
        if self.sound() {
            (Ok(self.pick(rng.spec_unit().0)), rng.spec_unit().1)
        } else {
            (Err(Fault::WeightTotal), rng)
        }
    }
}

/// A drawn outcome is one of the distribution's outcomes.
pub proof fn law_pick_in_range<N: Scalar>(dist: ChanceModel<N>, unit: N)
    requires
        dist.sound(),
        dist.count() > 0,
        dist.count() <= usize::MAX,
    ensures
        dist.pick(unit) < dist.count(),
{
    match dist {
        ChanceModel::Weighted(p) => {
            lemma_weight_scan_bound(p, 0, unit.spec_times(spec_sum(p)), 0);
        },
        ChanceModel::Uniform(n) => {},
    }
}

/// Weights that can be drawn from are not empty.
pub proof fn law_sound_weights<N: Scalar>(p: Seq<N>)
    requires
        irreflexive::<N>(),
        ChanceModel::Weighted(p).sound(),
    ensures
        p.len() > 0,
{
}

impl<N: Scalar> ChanceDist<N> {
    pub fn count(&self) -> (r: usize)
        ensures
            r == self@.count(),
    {
        match self {
            ChanceDist::Weighted(p) => p.len(),
            ChanceDist::Uniform(n) => *n,
        }
    }

    fn checked_total(p: &[N]) -> (r: Result<N, Fault>)
        ensures
            r == (if sound_total(spec_sum(p@)) {
                Ok::<N, Fault>(spec_sum(p@))
            } else {
                Err(Fault::WeightTotal)
            }),
    {
        let total = sum(p);
        if total.is_finite() && N::zero().less(total) {
            Ok(total)
        } else {
            Err(Fault::WeightTotal)
        }
    }

    /// Normalized probabilities in outcome order.
    pub fn iter_probs(&self) -> (r: Result<Vec<N>, Fault>)
        ensures
            self@.sound() ==> r is Ok && r->Ok_0@ == self@.probs(),
            !self@.sound() ==> r is Err && r->Err_0 == Fault::WeightTotal,
    {
        match self {
            ChanceDist::Weighted(p) => {
                let total = match Self::checked_total(p) {
                    Ok(total) => total,
                    Err(f) => return Err(f),
                };
                let mut r: Vec<N> = Vec::new();
                let mut i: usize = 0;
                while i < p.len()
                    invariant
                        i <= p@.len(),
                        total == spec_sum(p@),
                        r@.len() == i,
                        forall|k: int| 0 <= k < i ==> #[trigger] r@[k] == p@[k].spec_over(total),
                    decreases p.len() - i,
                {
                    r.push(p[i].over(total));
                    i = i + 1;
                }
                assert(r@ =~= self@.probs());
                Ok(r)
            },
            ChanceDist::Uniform(n) => {
                let even = N::one().over(N::count(*n as u64));
                Ok(crate::util::filled(even, *n))
            },
        }
    }

    /// Draws one outcome, using exactly one unit draw.
    pub fn draw<R: Rng<N>>(&self, rng: &mut R) -> (r: Result<usize, Fault>)
        ensures
            (r, *final(rng)) == self@.drawn(*old(rng)),
    {
        match self {
            ChanceDist::Weighted(p) => {
                match Self::checked_total(p) {
                    Ok(_) => {},
                    Err(f) => return Err(f),
                }
                Ok(weighted_index(rng, p))
            },
            ChanceDist::Uniform(n) => {
                let u = rng.unit();
                let i = N::count(*n as u64).times(u).index();
                if *n == 0 {
                    Ok(0)
                } else if i < *n {
                    Ok(i)
                } else {
                    Ok(*n - 1)
                }
            },
        }
    }
}

/// Finite-action game dynamics. Everything random goes through chance states, so each method is
/// a function of its arguments.
pub trait Game<N: Scalar> {
    type State;

    /// One edge's incremental outcome for an agent.
    type Event;

    open spec fn spec_num_agents(&self) -> usize {
        arbitrary()
    }

    fn num_agents(&self) -> (r: usize)
        ensures
            r == self.spec_num_agents(),
    ;

    open spec fn spec_action_count(&self) -> usize {
        arbitrary()
    }

    fn action_count(&self) -> (r: usize)
        ensures
            r == self.spec_action_count(),
    ;

    /// A second copy of a state.
    fn copy_state(&self, state: &Self::State) -> (r: Self::State)
        ensures
            r == *state,
    ;

    open spec fn spec_actor(&self, state: Self::State) -> Actor {
        arbitrary()
    }

    fn actor(&self, state: &Self::State) -> (r: Actor)
        ensures
            r == self.spec_actor(*state),
    ;

    open spec fn spec_legal_actions(&self, state: Self::State, agent: usize) -> Seq<usize> {
        arbitrary()
    }

    fn legal_actions(&self, state: &Self::State, agent: usize) -> (r: Vec<usize>)
        ensures
            r@ == self.spec_legal_actions(*state, agent),
    ;

    open spec fn spec_step(&self, state: Self::State, actions: Seq<usize>) -> TransitionModel<
        Self::State,
        Self::Event,
    > {
        arbitrary()
    }

    fn step(&self, state: &Self::State, actions: &[usize]) -> (r: Transition<
        Self::State,
        Self::Event,
    >)
        ensures
            r@ == self.spec_step(*state, actions@),
    ;

    open spec fn spec_chance_node(&self, state: Self::State) -> ChanceModel<N> {
        arbitrary()
    }

    /// Distribution over the outcome indices accepted by
    /// [`apply_chance_node`](Self::apply_chance_node).
    fn chance_node(&self, state: &Self::State) -> (r: ChanceDist<N>)
        requires
            self.spec_actor(*state) == Actor::Chance,
        ensures
            r@ == self.spec_chance_node(*state),
    ;

    open spec fn spec_apply_chance_node(&self, state: Self::State, outcome: usize) -> TransitionModel<
        Self::State,
        Self::Event,
    > {
        arbitrary()
    }

    /// Realizes one outcome at a chance state.
    fn apply_chance_node(&self, state: &Self::State, outcome: usize) -> (r: Transition<
        Self::State,
        Self::Event,
    >)
        requires
            self.spec_actor(*state) == Actor::Chance,
        ensures
            r@ == self.spec_apply_chance_node(*state, outcome),
    ;

    open spec fn spec_perfect_information(&self) -> bool {
        arbitrary()
    }

    /// Whether each agent's observation contains the full game state.
    fn perfect_information(&self) -> (r: bool)
        ensures
            r == self.spec_perfect_information(),
    ;

    open spec fn spec_initial_state(&self) -> Self::State {
        arbitrary()
    }

    /// Deterministic root state; random openings begin with a chance state.
    fn initial_state(&self) -> (r: Self::State)
        ensures
            r == self.spec_initial_state(),
    ;

    open spec fn spec_truncation_horizon(&self) -> Option<usize> {
        arbitrary()
    }

    /// Episode-length cap, or `None` for no horizon.
    fn truncation_horizon(&self) -> (r: Option<usize>)
        ensures
            r == self.spec_truncation_horizon(),
    ;

    open spec fn spec_mark_truncation(
        &self,
        state: Self::State,
        trace: Seq<(usize, Self::Event)>,
    ) -> Seq<(usize, Self::Event)> {
        arbitrary()
    }

    /// Amends the final tick's events when the episode is truncated.
    fn mark_truncation(&self, state: &Self::State, trace: &mut Vec<(usize, Self::Event)>)
        ensures
            final(trace)@ == self.spec_mark_truncation(*state, old(trace)@),
    ;
}

/// One action and its chance chain, realized to the next decision or terminal state.
pub struct Tick<S, E> {
    pub next_state: S,
    pub trace: Vec<(usize, E)>,
    pub terminal: bool,
}

/// A tick as a mathematical value.
#[verifier::ext_equal]
pub struct TickModel<S, E> {
    pub next_state: S,
    pub trace: Seq<(usize, E)>,
    pub terminal: bool,
}

impl<S, E> View for Tick<S, E> {
    type V = TickModel<S, E>;

    open spec fn view(&self) -> TickModel<S, E> {
        TickModel { next_state: self.next_state, trace: self.trace@, terminal: self.terminal }
    }
}

pub const CHANCE_CHAIN_LIMIT: usize = 10_000;

/// The events that were emitted, each with the agent in whose slot it stands.
pub open spec fn tagged<E>(events: Seq<Option<E>>) -> Seq<(usize, E)>
    decreases events.len(),
{
    if events.len() == 0 {
        Seq::empty()
    } else {
        let before = tagged(events.drop_last());
        match events.last() {
            Some(e) => before.push(((events.len() - 1) as usize, e)),
            None => before,
        }
    }
}

/// Appends an edge's events to a trace. Event position is the agent, so arity must be exact.
pub fn push_edge_events<E>(
    trace: &mut Vec<(usize, E)>,
    events: Vec<Option<E>>,
    num_agents: usize,
) -> (r: Result<(), Fault>)
    ensures
        r is Ok <==> events@.len() == num_agents,
        r is Ok ==> final(trace)@ == old(trace)@ + tagged(events@),
        r is Err ==> r->Err_0 == Fault::EventArity && final(trace)@ == old(trace)@,
{
    if events.len() != num_agents {
        return Err(Fault::EventArity);
    }
    let ghost all = events@;
    let mut agent: usize = 0;
    assert(all.take(0) =~= Seq::<Option<E>>::empty());
    assert(trace@ =~= old(trace)@ + tagged(all.take(0)));
    for e in it: events
        invariant
            it.seq() == all,
            all.len() == num_agents,
            agent == it.index(),
            trace@ == old(trace)@ + tagged(all.take(agent as int)),
    {
        assert(e == all[agent as int]);
        assert(all.take(agent + 1).drop_last() =~= all.take(agent as int));
        match e {
            Some(e) => {
                trace.push((agent, e));
            },
            None => {},
        }
        assert(trace@ =~= old(trace)@ + tagged(all.take(agent + 1)));
        agent = agent + 1;
    }
    assert(all.take(agent as int) =~= all);
    Ok(())
}

/// The tick that a transition opens: its events, and those of the chance chain behind it, up to
/// the next decision or the end. `edges` chance edges lie behind; the source comes along.
pub open spec fn settled<N: Scalar, G: Game<N>, R: Rng<N>>(
    game: G,
    t: TransitionModel<G::State, G::Event>,
    trace: Seq<(usize, G::Event)>,
    edges: nat,
    rng: R,
) -> (Result<TickModel<G::State, G::Event>, Fault>, R)
    decreases CHANCE_CHAIN_LIMIT + 1 - edges,
{
    if t.events.len() != game.spec_num_agents() {
        (Err(Fault::EventArity), rng)
    } else {
        let trace = trace + tagged(t.events);
        if t.terminal || game.spec_actor(t.next_state) != Actor::Chance {
            (Ok(TickModel { next_state: t.next_state, trace, terminal: t.terminal }), rng)
        } else if edges >= CHANCE_CHAIN_LIMIT {
            (Err(Fault::ChainLimit), rng)
        } else {
            let (drawn, after) = game.spec_chance_node(t.next_state).drawn(rng);
            match drawn {
                Err(f) => (Err(f), after),
                Ok(outcome) => settled(
                    game,
                    game.spec_apply_chance_node(t.next_state, outcome),
                    trace,
                    edges + 1,
                    after,
                ),
            }
        }
    }
}

/// What an action at `state` comes to, and the source after it.
pub open spec fn spec_step_env<N: Scalar, G: Game<N>, R: Rng<N>>(
    game: G,
    state: G::State,
    actions: Seq<usize>,
    rng: R,
) -> (Result<TickModel<G::State, G::Event>, Fault>, R) {
    settled(game, game.spec_step(state, actions), Seq::empty(), 0, rng)
}

/// Realizes an action and its chance chain as one environment tick.
pub fn step_env<N: Scalar, G: Game<N>, R: Rng<N>>(
    game: &G,
    state: &G::State,
    actions: &[usize],
    rng: &mut R,
) -> (r: Result<Tick<G::State, G::Event>, Fault>)
    ensures
        (viewed(r), *final(rng)) == spec_step_env(*game, *state, actions@, *old(rng)),
{
    let t0 = game.step(state, actions);
    let num_agents = game.num_agents();
    let mut trace: Vec<(usize, G::Event)> = Vec::new();
    let mut next_state = t0.next_state;
    let mut terminal = t0.terminal;
    let mut edges: usize = 0;
    let ghost goal = spec_step_env(*game, *state, actions@, *old(rng));
    let ghost mut t = t0@;
    match push_edge_events(&mut trace, t0.events, num_agents) {
        Ok(_) => {},
        Err(f) => return Err(f),
    }
    let mut chance = !terminal && matches!(game.actor(&next_state), Actor::Chance);
    while chance
        invariant
            num_agents == game.spec_num_agents(),
            chance == (!terminal && game.spec_actor(next_state) == Actor::Chance),
            edges <= CHANCE_CHAIN_LIMIT,
            t.next_state == next_state,
            t.terminal == terminal,
            t.events.len() == num_agents,
            exists|before: Seq<(usize, G::Event)>|
                trace@ == before + tagged(t.events) && goal == #[trigger] settled(
                    *game,
                    t,
                    before,
                    edges as nat,
                    *rng,
                ),
            goal == spec_step_env(*game, *state, actions@, *old(rng)),
        decreases CHANCE_CHAIN_LIMIT - edges,
    {
        let ghost before = choose|before: Seq<(usize, G::Event)>|
            trace@ == before + tagged(t.events) && goal == #[trigger] settled(
                *game,
                t,
                before,
                edges as nat,
                *rng,
            );
        if edges >= CHANCE_CHAIN_LIMIT {
            return Err(Fault::ChainLimit);
        }
        edges = edges + 1;
        let outcome = match game.chance_node(&next_state).draw(rng) {
            Ok(outcome) => outcome,
            Err(f) => return Err(f),
        };
        let t1 = game.apply_chance_node(&next_state, outcome);
        let ghost held = trace@;
        proof {
            t = t1@;
            assert(goal == settled(*game, t, held, edges as nat, *rng));
        }
        next_state = t1.next_state;
        terminal = t1.terminal;
        match push_edge_events(&mut trace, t1.events, num_agents) {
            Ok(_) => {},
            Err(f) => return Err(f),
        }
        chance = !terminal && matches!(game.actor(&next_state), Actor::Chance);
    }
    Ok(Tick { next_state, trace, terminal })
}

/// The first decision state behind `state`, and the source after it.
pub open spec fn dealt<N: Scalar, G: Game<N>, R: Rng<N>>(
    game: G,
    state: G::State,
    edges: nat,
    rng: R,
) -> (Result<G::State, Fault>, R)
    decreases CHANCE_CHAIN_LIMIT + 1 - edges,
{
    if game.spec_actor(state) != Actor::Chance {
        (Ok(state), rng)
    } else if edges >= CHANCE_CHAIN_LIMIT {
        (Err(Fault::ChainLimit), rng)
    } else {
        let (drawn, after) = game.spec_chance_node(state).drawn(rng);
        match drawn {
            Err(f) => (Err(f), after),
            Ok(outcome) => {
                let t = game.spec_apply_chance_node(state, outcome);
                if t.terminal {
                    (Err(Fault::BirthTerminal), after)
                } else if t.events.len() != game.spec_num_agents() {
                    (Err(Fault::EventArity), after)
                } else if !silent_events(t.events) {
                    (Err(Fault::BirthEvents), after)
                } else {
                    dealt(game, t.next_state, edges + 1, after)
                }
            },
        }
    }
}

/// No slot holds an event.
pub open spec fn silent_events<E>(events: Seq<Option<E>>) -> bool {
    forall|i: int| 0 <= i < events.len() ==> (#[trigger] events[i]) is None
}

fn all_silent<E>(events: &[Option<E>]) -> (r: bool)
    ensures
        r == silent_events(events@),
{
    let mut i: usize = 0;
    while i < events.len()
        invariant
            i <= events@.len(),
            forall|k: int| 0 <= k < i ==> (#[trigger] events@[k]) is None,
        decreases events.len() - i,
    {
        if events[i].is_some() {
            return false;
        }
        i = i + 1;
    }
    true
}

/// Realizes root chance states until the first decision state.
pub fn realize_initial_state<N: Scalar, G: Game<N>, R: Rng<N>>(game: &G, rng: &mut R) -> (r: Result<
    G::State,
    Fault,
>)
    ensures
        (r, *final(rng)) == dealt(*game, game.spec_initial_state(), 0, *old(rng)),
{
    let mut state = game.initial_state();
    let num_agents = game.num_agents();
    let mut edges: usize = 0;
    let mut chance = matches!(game.actor(&state), Actor::Chance);
    while chance
        invariant
            num_agents == game.spec_num_agents(),
            chance == (game.spec_actor(state) == Actor::Chance),
            edges <= CHANCE_CHAIN_LIMIT,
            dealt(*game, state, edges as nat, *rng) == dealt(
                *game,
                game.spec_initial_state(),
                0,
                *old(rng),
            ),
        decreases CHANCE_CHAIN_LIMIT - edges,
    {
        if edges >= CHANCE_CHAIN_LIMIT {
            return Err(Fault::ChainLimit);
        }
        edges = edges + 1;
        let outcome = match game.chance_node(&state).draw(rng) {
            Ok(outcome) => outcome,
            Err(f) => return Err(f),
        };
        let t = game.apply_chance_node(&state, outcome);
        if t.terminal {
            return Err(Fault::BirthTerminal);
        }
        if t.events.len() != num_agents {
            return Err(Fault::EventArity);
        }
        if !all_silent(&t.events) {
            return Err(Fault::BirthEvents);
        }
        state = t.next_state;
        chance = matches!(game.actor(&state), Actor::Chance);
    }
    Ok(state)
}

/// A tick ends at a decision or at the end of the episode, never at a chance state; and every
/// event of its trace belongs to an agent of the game.
pub proof fn law_tick_settles<N: Scalar, G: Game<N>, R: Rng<N>>(
    game: G,
    state: G::State,
    actions: Seq<usize>,
    rng: R,
)
    ensures
        spec_step_env(game, state, actions, rng).0 matches Ok(tick) ==> {
            &&& tick.terminal || game.spec_actor(tick.next_state) != Actor::Chance
            &&& forall|i: int|
                0 <= i < tick.trace.len() ==> (#[trigger] tick.trace[i]).0 < game.spec_num_agents()
        },
{
    lemma_settled(game, game.spec_step(state, actions), Seq::empty(), 0, rng);
}

proof fn lemma_settled<N: Scalar, G: Game<N>, R: Rng<N>>(
    game: G,
    t: TransitionModel<G::State, G::Event>,
    trace: Seq<(usize, G::Event)>,
    edges: nat,
    rng: R,
)
    requires
        forall|i: int| 0 <= i < trace.len() ==> (#[trigger] trace[i]).0 < game.spec_num_agents(),
    ensures
        settled(game, t, trace, edges, rng).0 matches Ok(tick) ==> {
            &&& tick.terminal || game.spec_actor(tick.next_state) != Actor::Chance
            &&& forall|i: int|
                0 <= i < tick.trace.len() ==> (#[trigger] tick.trace[i]).0 < game.spec_num_agents()
        },
    decreases CHANCE_CHAIN_LIMIT + 1 - edges,
{
    if t.events.len() == game.spec_num_agents() {
        lemma_tagged(t.events);
        let longer = trace + tagged(t.events);
        if !(t.terminal || game.spec_actor(t.next_state) != Actor::Chance) && edges
            < CHANCE_CHAIN_LIMIT {
            let (drawn, after) = game.spec_chance_node(t.next_state).drawn(rng);
            if let Ok(outcome) = drawn {
                lemma_settled(
                    game,
                    game.spec_apply_chance_node(t.next_state, outcome),
                    longer,
                    edges + 1,
                    after,
                );
            }
        }
    }
}

/// A tagged event names a slot.
pub proof fn lemma_tagged<E>(events: Seq<Option<E>>)
    requires
        events.len() <= usize::MAX,
    ensures
        forall|i: int| 0 <= i < tagged(events).len() ==> (#[trigger] tagged(events)[i]).0
            < events.len(),
    decreases events.len(),
{
    if events.len() > 0 {
        let before = tagged(events.drop_last());
        lemma_tagged(events.drop_last());
        assert forall|i: int| 0 <= i < tagged(events).len() implies (#[trigger] tagged(events)[i]).0
            < events.len() by {
            if i < before.len() {
                assert(tagged(events)[i] == before[i]);
            }
        }
    }
}

/// A dealt state is a decision: no chance is left in it.
pub proof fn law_dealt_is_decision<N: Scalar, G: Game<N>, R: Rng<N>>(
    game: G,
    state: G::State,
    edges: nat,
    rng: R,
)
    ensures
        dealt(game, state, edges, rng).0 matches Ok(s) ==> game.spec_actor(s) != Actor::Chance,
    decreases CHANCE_CHAIN_LIMIT + 1 - edges,
{
    if game.spec_actor(state) == Actor::Chance && edges < CHANCE_CHAIN_LIMIT {
        let (drawn, after) = game.spec_chance_node(state).drawn(rng);
        if let Ok(outcome) = drawn {
            let t = game.spec_apply_chance_node(state, outcome);
            law_dealt_is_decision(game, t.next_state, edges + 1, after);
        }
    }
}

} // verus!
