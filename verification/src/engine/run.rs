//! The engine: many games of one kind, rolled forward together.

use vstd::prelude::*;

use super::decide::gather;
#[allow(unused_imports)]
use super::decide::{asked, requests_for};
#[allow(unused_imports)]
use super::flush::{all_live, fragments, no_steps, tails_wanted, Progress, ProgressOf};
use super::seat::{Parts, Seat};
#[allow(unused_imports)]
use super::seat::{seat_models, seated, traj_models, SeatModel};
use super::tick::{finish_fragments, take_tick};
#[allow(unused_imports)]
use super::tick::{tick, tick_fails};
use crate::encoder::StateEncoder;
use crate::episode::Episode;
use crate::fault::Fault;
use crate::game::{Actor, Game};
#[allow(unused_imports)]
use crate::game::dealt;
use crate::learner::{Learner, Step};
#[allow(unused_imports)]
use crate::learner::{record_models, step_models, StepModel};
use crate::num::Scalar;
#[allow(unused_imports)]
use crate::policies::modelfree::requests_served;
use crate::policies::planner::Planner;
use crate::policies::tree::expectimax::search::Infer;
use crate::policy::Policy;
use crate::reward::Reward;
use crate::rng::{SplitMix64, GOLDEN};
#[allow(unused_imports)]
use crate::rng::generator;
use crate::start::{AlwaysInitialState, StartDistribution};
use crate::stats::CollectStats;
#[allow(unused_imports)]
use crate::stats::StatsModel;

verus! {

/// How many games, and the seed of all their chance. How long an episode may be is the game's to
/// say.
pub struct EngineParams {
    pub n_games: usize,
    pub seed: u64,
}

/// Many games, each with its own episode, generator and acting state, one policy that acts in all of
/// them and one learner that makes training records of what happens. The generators of the search
/// and of the start distribution are streams of their own.
pub struct Engine<
    N: Scalar,
    G: Game<N>,
    E: StateEncoder<State = G::State>,
    W: Reward<N, Event = G::Event>,
    P: Policy<N>,
    L: Learner<N, E::Feature, P::Evaluation, E>,
    D: StartDistribution<G::State>,
> {
    pub(crate) parts: Parts<G, E, W, P, L>,
    pub(crate) seats: Vec<Seat<G::State, P::PolicyState, E::Feature, N, P::Evaluation>>,
    pub(crate) search_rng: SplitMix64,
    pub(crate) buffer_rng: SplitMix64,
    pub(crate) start: D,
}

/// What of an engine changes as it collects.
#[verifier::ext_equal]
pub struct EngineModel<S, A, F, N, V, D> {
    pub seats: Seq<SeatModel<S, A, F, N, V>>,
    pub search_rng: SplitMix64,
    pub buffer_rng: SplitMix64,
    pub start: D,
}

/// An engine of a composition.
pub type EngineOf<N, G, E, P, D> = EngineModel<
    <G as Game<N>>::State,
    <P as Policy<N>>::PolicyState,
    <E as StateEncoder>::Feature,
    N,
    <<P as Policy<N>>::Evaluation as View>::V,
    D,
>;

impl<
    N: Scalar,
    G: Game<N>,
    E: StateEncoder<State = G::State>,
    W: Reward<N, Event = G::Event>,
    P: Policy<N>,
    L: Learner<N, E::Feature, P::Evaluation, E>,
    D: StartDistribution<G::State>,
> View for Engine<N, G, E, W, P, L, D> {
    type V = EngineOf<N, G, E, P, D>;

    closed spec fn view(&self) -> EngineOf<N, G, E, P, D> {
        EngineModel {
            seats: seat_models(self.seats@),
            search_rng: self.search_rng,
            buffer_rng: self.buffer_rng,
            start: self.start,
        }
    }
}

/// What an engine shows of its fields.
pub(crate) proof fn lemma_inside<
    N: Scalar,
    G: Game<N>,
    E: StateEncoder<State = G::State>,
    W: Reward<N, Event = G::Event>,
    P: Policy<N>,
    L: Learner<N, E::Feature, P::Evaluation, E>,
    D: StartDistribution<G::State>,
>()
    ensures
        forall|e: Engine<N, G, E, W, P, L, D>| (#[trigger] e.composed()) == e.parts,
        forall|e: Engine<N, G, E, W, P, L, D>|
            (#[trigger] e@) == (EngineModel {
                seats: seat_models(e.seats@),
                search_rng: e.search_rng,
                buffer_rng: e.buffer_rng,
                start: e.start,
            }),
{
}

/// The seed of the `i`-th game.
pub open spec fn game_seed(seed: u64, i: nat) -> u64 {
    vstd::wrapping::u64_specs::wrapping_add(
        seed,
        vstd::wrapping::u64_specs::wrapping_mul(i as u64, GOLDEN),
    )
}

/// The first `k` games dealt, each with its generator then.
pub open spec fn dealt_games<N: Scalar, G: Game<N>>(game: G, seed: u64, k: nat) -> Result<
    Seq<(G::State, SplitMix64)>,
    Fault,
>
    decreases k,
{
    if k == 0 {
        Ok(Seq::empty())
    } else {
        match dealt_games(game, seed, (k - 1) as nat) {
            Err(f) => Err(f),
            Ok(before) => {
                let (state, rng) = dealt(
                    game,
                    game.spec_initial_state(),
                    0,
                    generator(game_seed(seed, (k - 1) as nat)),
                );
                match state {
                    Err(f) => Err(f),
                    Ok(state) => Ok(before.push((state, rng))),
                }
            },
        }
    }
}

/// Whether the first decision of the first game is one agent's.
pub open spec fn is_sequential<N: Scalar, G: Game<N>>(
    game: G,
    games: Seq<(G::State, SplitMix64)>,
) -> bool {
    games.len() > 0 && game.spec_actor(games[0].0) is Agent
}

/// A game's seat at the beginning.
pub open spec fn first_seat<N: Scalar, G: Game<N>, P: Policy<N>, F>(
    game: G,
    policy: P,
    dealt: (G::State, SplitMix64),
) -> SeatModel<G::State, P::PolicyState, F, N, <P::Evaluation as View>::V> {
    let (policy_state, rng) = policy.spec_begin_episode(dealt.1);
    SeatModel {
        state: dealt.0,
        rng,
        policy_state,
        tick: 0,
        seeded: false,
        traj: no_steps(game.spec_num_agents() as nat),
    }
}

proof fn lemma_dealt_fault<N: Scalar, G: Game<N>>(game: G, seed: u64, k: nat, n: nat, f: Fault)
    requires
        k <= n,
        dealt_games(game, seed, k) == Err::<Seq<(G::State, SplitMix64)>, _>(f),
    ensures
        dealt_games(game, seed, n) == Err::<Seq<(G::State, SplitMix64)>, _>(f),
    decreases n,
{
    if k < n {
        lemma_dealt_fault(game, seed, k, (n - 1) as nat, f);
    }
}

fn no_traj<F, N, V: View>(agents: usize) -> (r: Vec<Vec<Step<F, N, V>>>)
    ensures
        traj_models(r@) == no_steps::<StepModel<F, N, V::V>>(agents as nat),
{
    let mut out: Vec<Vec<Step<F, N, V>>> = Vec::new();
    let mut i: usize = 0;
    while i < agents
        invariant
            i <= agents,
            traj_models(out@) =~= no_steps::<StepModel<F, N, V::V>>(i as nat),
        decreases agents - i,
    {
        let ghost was = traj_models(out@);
        let row: Vec<Step<F, N, V>> = Vec::new();
        assert(step_models(row@) =~= Seq::empty());
        out.push(row);
        assert(traj_models(out@) =~= was.push(Seq::empty()));
        i = i + 1;
    }
    out
}

/// Deals every game.
#[verifier::loop_isolation(false)]
fn deal_games<N: Scalar, G: Game<N>>(game: &G, seed: u64, n: usize) -> (r: Result<
    Vec<Episode<G::State>>,
    Fault,
>)
    ensures
        match r {
            Ok(eps) => dealt_games(*game, seed, n as nat) == Ok::<_, Fault>(
                eps@.map_values(|e: Episode<G::State>| (e.state, e.rng)),
            ),
            Err(f) => dealt_games(*game, seed, n as nat) == Err::<
                Seq<(G::State, SplitMix64)>,
                _,
            >(f),
        },
{
    let ghost shown = |e: Episode<G::State>| (e.state, e.rng);
    let mut eps: Vec<Episode<G::State>> = Vec::new();
    assert(eps@.map_values(shown) =~= Seq::empty());
    let mut i: usize = 0;
    while i < n
        invariant
            i <= n,
            dealt_games(*game, seed, i as nat) == Ok::<_, Fault>(eps@.map_values(shown)),
        decreases n - i,
    {
        let at = seed.wrapping_add((i as u64).wrapping_mul(GOLDEN));
        match Episode::new(game, at) {
            Ok(ep) => {
                let ghost was = eps@.map_values(shown);
                let ghost one = shown(ep);
                eps.push(ep);
                assert(eps@.map_values(shown) =~= was.push(one));
            },
            Err(f) => {
                proof {
                    lemma_dealt_fault(*game, seed, (i + 1) as nat, n as nat, f);
                }
                return Err(f);
            },
        }
        i = i + 1;
    }
    Ok(eps)
}

/// Why an engine cannot be made: a game without agents, one that cannot be dealt, or more agents
/// than the policy supports.
pub open spec fn new_engine<N: Scalar, G: Game<N>, P: Policy<N>>(
    game: G,
    policy: P,
    params: EngineParams,
) -> Result<Seq<(G::State, SplitMix64)>, Fault> {
    if game.spec_num_agents() == 0 {
        Err(Fault::NoAgents)
    } else {
        match dealt_games(game, params.seed, params.n_games as nat) {
            Err(f) => Err(f),
            Ok(games) => match policy.spec_max_agents(is_sequential(game, games)) {
                Some(cap) if game.spec_num_agents() > cap => Err(Fault::TooManyAgents),
                _ => Ok(games),
            },
        }
    }
}

impl<
    N: Scalar,
    G: Game<N>,
    E: StateEncoder<State = G::State>,
    W: Reward<N, Event = G::Event>,
    P: Policy<N>,
    L: Learner<N, E::Feature, P::Evaluation, E>,
> Engine<N, G, E, W, P, L, AlwaysInitialState> {
    /// An engine with fresh episodes, each game with a stream of its own.
    pub fn new(
        game: G,
        encoder: E,
        reward: W,
        policy: P,
        learner: L,
        params: EngineParams,
    ) -> (r: Result<Self, Fault>)
        ensures
            match r {
                Ok(engine) => {
                    &&& new_engine(game, policy, params) is Ok
                    &&& engine.wf()
                    &&& engine.composed() == (Parts {
                        game,
                        encoder,
                        reward,
                        policy,
                        learner,
                        sequential: is_sequential(
                            game,
                            new_engine(game, policy, params)->Ok_0,
                        ),
                    })
                    &&& engine@.seats == Seq::new(
                        params.n_games as nat,
                        |i: int|
                            first_seat::<N, G, P, E::Feature>(
                                game,
                                policy,
                                new_engine(game, policy, params)->Ok_0[i],
                            ),
                    )
                    &&& engine@.search_rng == generator(params.seed ^ 0xD1B5_4A32_D192_ED03)
                    &&& engine@.buffer_rng == generator(params.seed ^ 0x2545_F491_4F6C_DD1D)
                    &&& engine@.start == AlwaysInitialState
                },
                Err(f) => new_engine(game, policy, params) == Err::<
                    Seq<(G::State, SplitMix64)>,
                    _,
                >(f),
            },
    {
        let n = game.num_agents();
        if n == 0 {
            return Err(Fault::NoAgents);
        }
        let eps = match deal_games(&game, params.seed, params.n_games) {
            Ok(eps) => eps,
            Err(f) => return Err(f),
        };
        let ghost games = dealt_games(game, params.seed, params.n_games as nat)->Ok_0;
        proof {
            lemma_dealt_len(game, params.seed, params.n_games as nat);
        }
        let ghost dealt_eps = eps@;
        assert(games =~= dealt_eps.map_values(|e: Episode<G::State>| (e.state, e.rng)));
        let sequential = if eps.len() == 0 {
            false
        } else {
            assert(games[0] == (dealt_eps[0].state, dealt_eps[0].rng));
            matches!(game.actor(&eps[0].state), Actor::Agent(_))
        };
        match policy.max_agents(sequential) {
            Some(cap) => {
                if n > cap {
                    return Err(Fault::TooManyAgents);
                }
            },
            None => {},
        }
        let mut seats: Vec<Seat<G::State, P::PolicyState, E::Feature, N, P::Evaluation>> = Vec::new();
        let ghost mut i: int = 0;
        for ep in it: eps
            invariant
                it.seq() == dealt_eps,
                i == it.index(),
                n == game.spec_num_agents(),
                games == dealt_eps.map_values(|e: Episode<G::State>| (e.state, e.rng)),
                seats@.len() == i,
                forall|j: int|
                    0 <= j < i ==> (#[trigger] seats@[j])@ == first_seat::<N, G, P, E::Feature>(
                        game,
                        policy,
                        games[j],
                    ),
        {
            assert(games[i] == (ep.state, ep.rng));
            let mut ep = ep;
            let policy_state = policy.begin_episode(&mut ep.rng);
            let seat = Seat {
                episode: ep,
                policy_state,
                tick: 0,
                seeded: false,
                traj: no_traj(n),
            };
            assert(seat@ =~= first_seat::<N, G, P, E::Feature>(game, policy, games[i]));
            seats.push(seat);
            proof {
                i = i + 1;
            }
        }
        let search_rng = SplitMix64::new(params.seed ^ 0xD1B5_4A32_D192_ED03);
        let buffer_rng = SplitMix64::new(params.seed ^ 0x2545_F491_4F6C_DD1D);
        let parts = Parts { game, encoder, reward, policy, learner, sequential };
        let engine = Engine { parts, seats, search_rng, buffer_rng, start: AlwaysInitialState };
        proof {
            assert(engine@.seats =~= Seq::new(
                params.n_games as nat,
                |j: int| first_seat::<N, G, P, E::Feature>(game, policy, games[j]),
            ));
            assert forall|g: int| 0 <= g < engine@.seats.len() implies (#[trigger] engine@.seats[g]).traj.len()
                == n by {}
        }
        Ok(engine)
    }
}

proof fn lemma_dealt_len<N: Scalar, G: Game<N>>(game: G, seed: u64, k: nat)
    ensures
        dealt_games(game, seed, k) matches Ok(games) ==> games.len() == k,
    decreases k,
{
    if k > 0 {
        lemma_dealt_len(game, seed, (k - 1) as nat);
    }
}

/// A collection at its beginning.
pub open spec fn at_start<
    N: Scalar,
    G: Game<N>,
    E: StateEncoder<State = G::State>,
    W: Reward<N, Event = G::Event>,
    P: Policy<N>,
    L: Learner<N, E::Feature, P::Evaluation, E>,
    D: StartDistribution<G::State>,
>(m: EngineOf<N, G, E, P, D>) -> ProgressOf<N, G, E, P, L, D> {
    Progress {
        seats: m.seats,
        search_rng: m.search_rng,
        buffer_rng: m.buffer_rng,
        start: m.start,
        records: Seq::empty(),
        stats: StatsModel::none(),
    }
}

/// How many decisions the trajectories of the first `n` agents hold.
pub open spec fn steps_of<T>(traj: Seq<Seq<T>>, n: nat) -> nat
    decreases n,
{
    if n == 0 {
        0
    } else {
        steps_of(traj, (n - 1) as nat) + traj[n - 1].len()
    }
}

/// How many decisions the trajectories of the first `k` games hold.
pub open spec fn steps_held<S, A, F, N, V>(seats: Seq<SeatModel<S, A, F, N, V>>, k: nat) -> nat
    decreases k,
{
    if k == 0 {
        0
    } else {
        steps_held(seats, (k - 1) as nat) + steps_of(seats[k - 1].traj, seats[k - 1].traj.len())
    }
}

/// Whether enough has been collected. Where fragments are emitted at the end their decisions count.
pub open spec fn enough<
    N: Scalar,
    G: Game<N>,
    E: StateEncoder<State = G::State>,
    W: Reward<N, Event = G::Event>,
    P: Policy<N>,
    L: Learner<N, E::Feature, P::Evaluation, E>,
    D: StartDistribution<G::State>,
>(parts: Parts<G, E, W, P, L>, p: ProgressOf<N, G, E, P, L, D>, n_records: nat) -> bool {
    if parts.learner.spec_bootstraps_fragments() {
        p.records.len() + steps_held(p.seats, p.seats.len()) >= n_records
    } else {
        p.records.len() >= n_records
    }
}

/// Whether a collection goes on: not enough has been collected, and some agent must act.
pub open spec fn goes_on<
    N: Scalar,
    G: Game<N>,
    E: StateEncoder<State = G::State>,
    W: Reward<N, Event = G::Event>,
    P: Policy<N>,
    L: Learner<N, E::Feature, P::Evaluation, E>,
    D: StartDistribution<G::State>,
>(parts: Parts<G, E, W, P, L>, p: ProgressOf<N, G, E, P, L, D>, n_records: nat) -> bool {
    !enough(parts, p, n_records) && asked(parts.game, p.seats, p.seats.len()).len() > 0
}

/// The `j`-th of a chain goes on, and leads to the next by a tick.
pub open spec fn ticked_at<
    N: Scalar,
    G: Game<N>,
    E: StateEncoder<State = G::State>,
    W: Reward<N, Event = G::Event>,
    P: Planner<N, G, E, W, B>,
    L: Learner<N, E::Feature, P::Evaluation, E>,
    B: Infer<E::Feature, N>,
    D: StartDistribution<G::State>,
>(
    parts: Parts<G, E, W, P, L>,
    n_records: nat,
    chain: Seq<ProgressOf<N, G, E, P, L, D>>,
    nets: Seq<B>,
    j: int,
) -> bool {
    goes_on(parts, chain[j], n_records) && tick::<N, G, E, W, P, L, B, D>(
        parts,
        chain[j],
        nets[j],
        nets[j + 1],
        chain[j + 1],
    )
}

/// A chain of ticks from `a`, each with the network that the one before handed on.
pub open spec fn ticking<
    N: Scalar,
    G: Game<N>,
    E: StateEncoder<State = G::State>,
    W: Reward<N, Event = G::Event>,
    P: Planner<N, G, E, W, B>,
    L: Learner<N, E::Feature, P::Evaluation, E>,
    B: Infer<E::Feature, N>,
    D: StartDistribution<G::State>,
>(
    parts: Parts<G, E, W, P, L>,
    n_records: nat,
    a: ProgressOf<N, G, E, P, L, D>,
    chain: Seq<ProgressOf<N, G, E, P, L, D>>,
    nets: Seq<B>,
) -> bool {
    &&& chain.len() >= 1
    &&& nets.len() == chain.len()
    &&& chain[0] == a
    &&& forall|j: int|
        0 <= j < chain.len() - 1 ==> #[trigger] ticked_at::<N, G, E, W, P, L, B, D>(
            parts,
            n_records,
            chain,
            nets,
            j,
        )
}

/// What a collection ends with after its last tick: as it stands, or with the live fragments made
/// into records.
pub open spec fn closed_off<
    N: Scalar,
    G: Game<N>,
    E: StateEncoder<State = G::State>,
    W: Reward<N, Event = G::Event>,
    P: Planner<N, G, E, W, B>,
    L: Learner<N, E::Feature, P::Evaluation, E>,
    B: Infer<E::Feature, N>,
    D: StartDistribution<G::State>,
>(
    parts: Parts<G, E, W, P, L>,
    p: ProgressOf<N, G, E, P, L, D>,
    nets: (B, B),
    end: Result<ProgressOf<N, G, E, P, L, D>, Fault>,
) -> bool {
    if parts.learner.spec_bootstraps_fragments() {
        exists|rows: Seq<Seq<N>>| #[trigger]
            requests_served::<N, G, E, B>(
                parts.encoder,
                requests_for(p.seats, tails_wanted(parts, p.seats, all_live(p.seats.len()))),
                nets,
                rows,
            ) && end == fragments(parts, p, rows)
    } else {
        end == Ok::<_, Fault>(p) && nets.1 == nets.0
    }
}

/// `b` is collected from `a` by the ticks of `chain`, as many as are needed, at most `max_ticks`. The
/// network was handed in as the first of `source`, from tick to tick as `nets`, and back as the
/// second.
pub open spec fn collection<
    N: Scalar,
    G: Game<N>,
    E: StateEncoder<State = G::State>,
    W: Reward<N, Event = G::Event>,
    P: Planner<N, G, E, W, B>,
    L: Learner<N, E::Feature, P::Evaluation, E>,
    B: Infer<E::Feature, N>,
    D: StartDistribution<G::State>,
>(
    parts: Parts<G, E, W, P, L>,
    n_records: nat,
    max_ticks: nat,
    a: ProgressOf<N, G, E, P, L, D>,
    source: (B, B),
    chain: Seq<ProgressOf<N, G, E, P, L, D>>,
    nets: Seq<B>,
    b: ProgressOf<N, G, E, P, L, D>,
) -> bool {
    &&& ticking::<N, G, E, W, P, L, B, D>(parts, n_records, a, chain, nets)
    &&& nets[0] == source.0
    &&& chain.len() <= max_ticks + 1
    &&& chain.len() == max_ticks + 1 || !goes_on(parts, chain.last(), n_records)
    &&& closed_off::<N, G, E, W, P, L, B, D>(
        parts,
        chain.last(),
        (nets.last(), source.1),
        Ok(b),
    )
}

/// `b` is collected from `a`, with the network handed in as the first of `source` and back as the
/// second.
pub open spec fn collected<
    N: Scalar,
    G: Game<N>,
    E: StateEncoder<State = G::State>,
    W: Reward<N, Event = G::Event>,
    P: Planner<N, G, E, W, B>,
    L: Learner<N, E::Feature, P::Evaluation, E>,
    B: Infer<E::Feature, N>,
    D: StartDistribution<G::State>,
>(
    parts: Parts<G, E, W, P, L>,
    n_records: nat,
    max_ticks: nat,
    a: ProgressOf<N, G, E, P, L, D>,
    source: (B, B),
    b: ProgressOf<N, G, E, P, L, D>,
) -> bool {
    exists|chain: Seq<ProgressOf<N, G, E, P, L, D>>, nets: Seq<B>| #[trigger]
        collection::<N, G, E, W, P, L, B, D>(
            parts,
            n_records,
            max_ticks,
            a,
            source,
            chain,
            nets,
            b,
        )
}

/// Why a collection from `a` with the network `source` cannot be completed: after some ticks the next
/// cannot be taken, or the fragments cannot be made into records.
pub open spec fn collect_fails<
    N: Scalar,
    G: Game<N>,
    E: StateEncoder<State = G::State>,
    W: Reward<N, Event = G::Event>,
    P: Planner<N, G, E, W, B>,
    L: Learner<N, E::Feature, P::Evaluation, E>,
    B: Infer<E::Feature, N>,
    D: StartDistribution<G::State>,
>(
    parts: Parts<G, E, W, P, L>,
    n_records: nat,
    max_ticks: nat,
    a: ProgressOf<N, G, E, P, L, D>,
    source: B,
    f: Fault,
) -> bool {
    exists|chain: Seq<ProgressOf<N, G, E, P, L, D>>, nets: Seq<B>| #[trigger]
        ticking::<N, G, E, W, P, L, B, D>(parts, n_records, a, chain, nets) && nets[0] == source
            && chain.len() <= max_ticks + 1 && {
            ||| chain.len() <= max_ticks && goes_on(parts, chain.last(), n_records) && tick_fails::<
                N,
                G,
                E,
                W,
                P,
                L,
                B,
                D,
            >(parts, chain.last(), nets.last(), f)
            ||| (chain.len() == max_ticks + 1 || !goes_on(parts, chain.last(), n_records)) && exists|
                after: B,
            | #[trigger]
                closed_off::<N, G, E, W, P, L, B, D>(
                    parts,
                    chain.last(),
                    (nets.last(), after),
                    Err(f),
                )
        }
}

/// Whether the trajectories of all games hold at least so many decisions.
fn holds_steps<S, A, F, N, V: View>(seats: &Vec<Seat<S, A, F, N, V>>, need: usize) -> (r: bool)
    ensures
        r == (steps_held(seat_models(seats@), seats@.len()) >= need),
{
    let ghost models = seat_models(seats@);
    let mut left = need;
    let mut k: usize = 0;
    let mut done = need == 0;
    while k < seats.len()
        invariant
            k <= seats@.len(),
            models == seat_models(seats@),
            done == (steps_held(models, k as nat) >= need),
            !done ==> left + steps_held(models, k as nat) == need,
        decreases seats@.len() - k,
    {
        assert(models[k as int] == seats@[k as int]@);
        let ghost traj = models[k as int].traj;
        let ghost before = steps_held(models, k as nat);
        let n = seats[k].traj.len();
        let mut si: usize = 0;
        while si < n
            invariant
                si <= n == seats@[k as int].traj@.len(),
                k < seats@.len(),
                traj == traj_models(seats@[k as int].traj@),
                done == (before + steps_of(traj, si as nat) >= need),
                !done ==> left + before + steps_of(traj, si as nat) == need,
            decreases n - si,
        {
            assert(traj[si as int] == step_models(seats@[k as int].traj@[si as int]@));
            let len = seats[k].traj[si].len();
            if !done {
                if len >= left {
                    done = true;
                } else {
                    left = left - len;
                }
            }
            si = si + 1;
        }
        k = k + 1;
    }
    done
}

impl<
    N: Scalar,
    G: Game<N>,
    E: StateEncoder<State = G::State>,
    W: Reward<N, Event = G::Event>,
    P: Policy<N>,
    L: Learner<N, E::Feature, P::Evaluation, E>,
    D: StartDistribution<G::State>,
> Engine<N, G, E, W, P, L, D> {
    /// What the engine is composed of.
    pub closed spec fn composed(self) -> Parts<G, E, W, P, L> {
        self.parts
    }

    /// Every game has a trajectory for each agent.
    pub open spec fn wf(self) -> bool {
        seated(self@.seats, self.composed().game.spec_num_agents() as nat)
    }

    /// The engine with another start distribution.
    pub fn with_start_distribution<D2: StartDistribution<G::State>>(self, start: D2) -> (r: Engine<
        N,
        G,
        E,
        W,
        P,
        L,
        D2,
    >)
        requires
            self.wf(),
        ensures
            r.wf(),
            r.composed() == self.composed(),
            r@ == (EngineModel {
                seats: self@.seats,
                search_rng: self@.search_rng,
                buffer_rng: self@.buffer_rng,
                start,
            }),
    {
        Engine {
            parts: self.parts,
            seats: self.seats,
            search_rng: self.search_rng,
            buffer_rng: self.buffer_rng,
            start,
        }
    }

    /// Rolls the games forward until at least `n_records` records are collected, no agent must act,
    /// or `max_ticks` ticks have been taken.
    #[verifier::loop_isolation(false)]
    pub fn collect<B: Infer<E::Feature, N>>(
        &mut self,
        n_records: usize,
        max_ticks: usize,
        source: B,
    ) -> (r: (Result<(Vec<L::Record>, CollectStats<N>), Fault>, B)) where
        P: Planner<N, G, E, W, B>,

        requires
            old(self).wf(),
        ensures
            final(self).composed() == old(self).composed(),
            // A network that nothing is wanted of is handed back as it came.
            !old(self).composed().learner.spec_bootstraps_fragments() && (max_ticks == 0 || !goes_on(
                old(self).composed(),
                at_start::<N, G, E, W, P, L, D>(old(self)@),
                n_records as nat,
            )) ==> r.1 == source,
            match r.0 {
                Ok((records, stats)) => {
                    &&& final(self).wf()
                    &&& final(self)@.seats.len() == old(self)@.seats.len()
                    &&& collected::<N, G, E, W, P, L, B, D>(
                        old(self).composed(),
                        n_records as nat,
                        max_ticks as nat,
                        at_start::<N, G, E, W, P, L, D>(old(self)@),
                        (source, r.1),
                        Progress {
                            seats: final(self)@.seats,
                            search_rng: final(self)@.search_rng,
                            buffer_rng: final(self)@.buffer_rng,
                            start: final(self)@.start,
                            records: record_models(records@, |x: L::Record| L::shown(x)),
                            stats: stats@,
                        },
                    )
                },
                Err(f) => collect_fails::<N, G, E, W, P, L, B, D>(
                    old(self).composed(),
                    n_records as nat,
                    max_ticks as nat,
                    at_start::<N, G, E, W, P, L, D>(old(self)@),
                    source,
                    f,
                ),
            },
    {
        let ghost parts = self.parts;
        let ghost a = at_start::<N, G, E, W, P, L, D>(self@);
        let ghost n = parts.game.spec_num_agents() as nat;
        let ghost games = self.seats@.len();
        let ghost given = source;
        let mut source = source;
        let mut records: Vec<L::Record> = Vec::new();
        let mut stats: CollectStats<N> = CollectStats::default();
        assert(record_models(records@, |x: L::Record| L::shown(x)) =~= Seq::empty());
        let fragmented = self.parts.learner.bootstraps_fragments();
        let ghost mut chain: Seq<ProgressOf<N, G, E, P, L, D>> = seq![a];
        let ghost mut nets: Seq<B> = seq![given];
        let mut ticks: usize = 0;
        let mut going = true;
        while going && ticks < max_ticks
            invariant
                ticks <= max_ticks,
                self.parts == parts,
                self.seats@.len() == games,
                seated(seat_models(self.seats@), n),
                chain.len() == ticks + 1,
                ticking::<N, G, E, W, P, L, B, D>(parts, n_records as nat, a, chain, nets),
                nets[0] == given,
                nets.last() == source,
                chain.last() == (Progress {
                    seats: seat_models(self.seats@),
                    search_rng: self.search_rng,
                    buffer_rng: self.buffer_rng,
                    start: self.start,
                    records: record_models(records@, |x: L::Record| L::shown(x)),
                    stats: stats@,
                }),
                !going ==> !goes_on(parts, chain.last(), n_records as nat),
                ticks == 0 ==> source == given,
                ticks > 0 ==> goes_on(parts, a, n_records as nat),
            decreases max_ticks - ticks + (if going {
                1int
            } else {
                0
            }),
        {
            let ghost now = chain.last();
            assert(now.records.len() == records@.len());
            let done = if fragmented {
                records.len() >= n_records || holds_steps(&self.seats, n_records - records.len())
            } else {
                records.len() >= n_records
            };
            assert(done == enough(parts, now, n_records as nat));
            if done {
                going = false;
            } else {
                let meta = gather(&self.parts.game, &self.seats);
                if meta.len() == 0 {
                    going = false;
                } else {
                    assert(goes_on(parts, now, n_records as nat));
                    let (r, after) = take_tick::<N, G, E, W, P, L, B, D>(
                        &self.parts,
                        &mut self.seats,
                        &mut self.search_rng,
                        &mut self.start,
                        &mut self.buffer_rng,
                        &mut records,
                        &mut stats,
                        &meta,
                        source,
                    );
                    source = after;
                    match r {
                        Ok(_) => {},
                        Err(f) => {
                            assert(collect_fails::<N, G, E, W, P, L, B, D>(
                                parts,
                                n_records as nat,
                                max_ticks as nat,
                                a,
                                given,
                                f,
                            ));
                            return (Err(f), source);
                        },
                    }
                    proof {
                        let b = Progress {
                            seats: seat_models(self.seats@),
                            search_rng: self.search_rng,
                            buffer_rng: self.buffer_rng,
                            start: self.start,
                            records: record_models(records@, |x: L::Record| L::shown(x)),
                            stats: stats@,
                        };
                        let longer = chain.push(b);
                        let more = nets.push(source);
                        assert forall|j: int| 0 <= j < longer.len() - 1 implies #[trigger] ticked_at::<
                            N,
                            G,
                            E,
                            W,
                            P,
                            L,
                            B,
                            D,
                        >(parts, n_records as nat, longer, more, j) by {
                            if j < ticks {
                                assert(ticked_at::<N, G, E, W, P, L, B, D>(
                                    parts,
                                    n_records as nat,
                                    chain,
                                    nets,
                                    j,
                                ));
                                assert(longer[j] == chain[j] && longer[j + 1] == chain[j + 1]);
                                assert(more[j] == nets[j] && more[j + 1] == nets[j + 1]);
                            } else {
                                assert(longer[j] == now && longer[j + 1] == b);
                                assert(more[j] == nets.last() && more[j + 1] == source);
                            }
                        }
                        chain = longer;
                        nets = more;
                    }
                    ticks = ticks + 1;
                }
            }
        }
        let ghost p = chain.last();
        if fragmented {
            let (r, after) = finish_fragments::<N, G, E, W, P, L, B, D>(
                &self.parts,
                &mut self.seats,
                &mut records,
                source,
                Ghost(p),
            );
            source = after;
            match r {
                Ok(_) => {},
                Err(f) => {
                    assert(closed_off::<N, G, E, W, P, L, B, D>(
                        parts,
                        p,
                        (nets.last(), source),
                        Err(f),
                    ));
                    return (Err(f), source);
                },
            }
        }
        proof {
            let b = Progress {
                seats: seat_models(self.seats@),
                search_rng: self.search_rng,
                buffer_rng: self.buffer_rng,
                start: self.start,
                records: record_models(records@, |x: L::Record| L::shown(x)),
                stats: stats@,
            };
            assert(closed_off::<N, G, E, W, P, L, B, D>(parts, p, (nets.last(), source), Ok(b)));
            assert(collection::<N, G, E, W, P, L, B, D>(
                parts,
                n_records as nat,
                max_ticks as nat,
                a,
                (given, source),
                chain,
                nets,
                b,
            ));
        }
        (Ok((records, stats)), source)
    }
}

} // verus!
