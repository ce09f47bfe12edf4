//! Exact resumption: what of an engine changes as it collects, as bytes.

use vstd::prelude::*;

use super::run::Engine;
#[allow(unused_imports)]
use super::run::{lemma_inside, EngineModel, EngineOf};
use super::seat::{Parts, Seat};
#[allow(unused_imports)]
use super::seat::{seat_models, seated, traj_models, SeatModel, SeatOf};
use crate::codec::StateCodec;
use crate::codec::bytes::{
    put_blob, put_num, put_sizes, put_u32, put_u64, put_u8, put_words, sizes, words, DecodeFault,
    Reader, Word,
};
#[allow(unused_imports)]
use crate::codec::bytes::{
    blob_bytes, faithful_words, joined, law_blob_round_trip, law_num_round_trip,
    law_sizes_round_trip, law_u32_round_trip, law_u64_round_trip, law_u8_round_trip,
    law_words_round_trip, lemma_read_fails, lemma_read_joined, num_bytes, read_blob, read_each,
    read_num, read_size, read_sizes, read_u32, read_u64, read_u8, read_words, reads, reads_view,
    sizes_bytes, words_bytes, Read,
};
use crate::encoder::StateEncoder;
use crate::episode::Episode;
use crate::game::Game;
use crate::learner::{Learner, Step};
#[allow(unused_imports)]
use crate::learner::{step_models, StepModel};
use crate::num::Scalar;
#[allow(unused_imports)]
use crate::num::faithful_bits;
use crate::policies::tree::evaluation::below;
#[allow(unused_imports)]
use crate::policies::tree::evaluation::all_below;
use crate::policy::Policy;
use crate::reward::Reward;
use crate::rng::SplitMix64;
#[allow(unused_imports)]
use crate::rng::generator;
use crate::start::{StartDistribution, StoredStart};
use vstd::bytes::{spec_u32_to_le_bytes, spec_u64_to_le_bytes};

verus! {

/// The layout's version.
pub const LAYOUT: u8 = 1;

/// The longest trajectory that is read.
pub const TRAJECTORY_LIMIT: u32 = 1_000_000;

/// The largest tick count that is read.
pub const TICK_LIMIT: u64 = 0x1_0000_0000_0000;

/// A truth value as a byte.
pub open spec fn bool_byte(b: bool) -> u8 {
    if b {
        1
    } else {
        0
    }
}

fn byte_of(b: bool) -> (r: u8)
    ensures
        r == bool_byte(b),
{
    if b {
        1
    } else {
        0
    }
}

/// A byte that is a truth value.
pub open spec fn read_bool(s: Seq<u8>) -> Read<bool> {
    match read_u8(s) {
        Err(f) => Err(f),
        Ok((b, rest)) => if b == 0 {
            Ok((false, rest))
        } else if b == 1 {
            Ok((true, rest))
        } else {
            Err(DecodeFault::NotBool)
        },
    }
}

fn take_bool(r: &mut Reader) -> (out: Result<bool, DecodeFault>)
    ensures
        reads(out, read_bool(old(r)@), final(r)@),
{
    match r.u8() {
        Ok(b) => if b == 0 {
            Ok(false)
        } else if b == 1 {
            Ok(true)
        } else {
            Err(DecodeFault::NotBool)
        },
        Err(f) => Err(f),
    }
}

/// The bytes of a buffered decision.
pub open spec fn step_bytes<N: Scalar, F: Word, P: Policy<N>>(
    policy: P,
    step: StepModel<F, N, <P::Evaluation as View>::V>,
) -> Seq<u8> {
    words_bytes(step.obs) + (policy.spec_encode_eval(step.evaluation) + (spec_u64_to_le_bytes(
        step.action as u64,
    ) + (num_bytes(step.reward) + (words_bytes(step.next_obs) + (sizes_bytes(step.next_legal)
        + seq![bool_byte(step.terminal)])))))
}

/// The bytes of a trajectory.
pub open spec fn trajectory_bytes<N: Scalar, F: Word, P: Policy<N>>(
    policy: P,
    steps: Seq<StepModel<F, N, <P::Evaluation as View>::V>>,
) -> Seq<u8> {
    spec_u32_to_le_bytes(steps.len() as u32) + joined(
        steps,
        |s: StepModel<F, N, <P::Evaluation as View>::V>| step_bytes(policy, s),
    )
}

/// The bytes of a game's seat.
pub open spec fn seat_bytes<N: Scalar, S, F: Word, P: Policy<N>, K: StateCodec<State = S>>(
    policy: P,
    codec: K,
    seat: SeatModel<S, P::PolicyState, F, N, <P::Evaluation as View>::V>,
) -> Seq<u8> {
    blob_bytes(codec.spec_encode(seat.state)) + (spec_u64_to_le_bytes(seat.rng@) + (
    spec_u64_to_le_bytes(seat.tick as u64) + (seq![bool_byte(seat.seeded)] + (spec_u64_to_le_bytes(
        policy.spec_policy_state_to_u64(seat.policy_state),
    ) + joined(
        seat.traj,
        |t: Seq<StepModel<F, N, <P::Evaluation as View>::V>>| trajectory_bytes(policy, t),
    )))))
}

/// The bytes of an engine.
pub open spec fn engine_bytes<
    N: Scalar,
    G: Game<N>,
    E: StateEncoder<State = G::State>,
    W: Reward<N, Event = G::Event>,
    P: Policy<N>,
    L: Learner<N, E::Feature, P::Evaluation, E>,
    K: StateCodec<State = G::State>,
    D: StoredStart<G::State, K>,
>(parts: Parts<G, E, W, P, L>, codec: K, m: EngineOf<N, G, E, P, D>) -> Seq<u8> where
    E::Feature: Word,
 {
    seq![LAYOUT] + (spec_u32_to_le_bytes(m.seats.len() as u32) + (spec_u32_to_le_bytes(
        parts.game.spec_num_agents() as u32,
    ) + (spec_u64_to_le_bytes(m.search_rng@) + (spec_u64_to_le_bytes(m.buffer_rng@) + (joined(
        m.seats,
        |s: SeatOf<N, G, E, P>| seat_bytes(parts.policy, codec, s),
    ) + blob_bytes(m.start.spec_snapshot(codec)))))))
}

/// What reading needs to know of the engine: how wide an observation is, how many actions and agents
/// there are, and how long an episode may be.
pub struct Shape {
    pub obs: nat,
    pub actions: usize,
    pub agents: usize,
    pub horizon: Option<usize>,
}

/// A buffered decision.
pub open spec fn read_step<N: Scalar, F: Word, P: Policy<N>>(policy: P, shape: Shape, s: Seq<u8>) -> Read<
    StepModel<F, N, <P::Evaluation as View>::V>,
> {
    match read_words::<F>(s) {
        Err(f) => Err(f),
        Ok((obs, s)) => if obs.len() != shape.obs {
            Err(DecodeFault::ObsWidth)
        } else {
            match policy.spec_decode_eval(s, shape.actions) {
                Err(f) => Err(f),
                Ok((evaluation, s)) => match read_size(s) {
                    Err(f) => Err(f),
                    Ok((action, s)) => if action >= shape.actions {
                        Err(DecodeFault::ActionRange)
                    } else {
                        match read_num::<N>(s) {
                            Err(f) => Err(f),
                            Ok((reward, s)) => if !reward.spec_is_finite() {
                                Err(DecodeFault::NotFinite)
                            } else {
                                match read_words::<F>(s) {
                                    Err(f) => Err(f),
                                    Ok((next_obs, s)) => if next_obs.len() != 0 && next_obs.len()
                                        != shape.obs {
                                        Err(DecodeFault::ObsWidth)
                                    } else {
                                        match read_sizes(s) {
                                            Err(f) => Err(f),
                                            Ok((next_legal, s)) => if !all_below(
                                                next_legal,
                                                shape.actions,
                                            ) {
                                                Err(DecodeFault::ActionRange)
                                            } else {
                                                match read_bool(s) {
                                                    Err(f) => Err(f),
                                                    Ok((terminal, s)) => if terminal {
                                                        Err(DecodeFault::Terminal)
                                                    } else {
                                                        Ok(
                                                            (
                                                                StepModel {
                                                                    obs,
                                                                    evaluation,
                                                                    action,
                                                                    reward,
                                                                    next_obs,
                                                                    next_legal,
                                                                    terminal,
                                                                },
                                                                s,
                                                            ),
                                                        )
                                                    },
                                                }
                                            },
                                        }
                                    },
                                }
                            },
                        }
                    },
                },
            }
        },
    }
}

/// A trajectory of an episode that is so many ticks old.
pub open spec fn read_trajectory<N: Scalar, F: Word, P: Policy<N>>(
    policy: P,
    shape: Shape,
    tick: usize,
    s: Seq<u8>,
) -> Read<Seq<StepModel<F, N, <P::Evaluation as View>::V>>> {
    match read_u32(s) {
        Err(f) => Err(f),
        Ok((n, s)) => if n > TRAJECTORY_LIMIT {
            Err(DecodeFault::Trajectory)
        } else if n > tick {
            Err(DecodeFault::Decisions)
        } else {
            read_each(s, n as nat, |s: Seq<u8>| read_step::<N, F, P>(policy, shape, s))
        },
    }
}

/// A game's seat. Its state must be valid, and the episode live.
pub open spec fn read_seat<N: Scalar, S, F: Word, P: Policy<N>, K: StateCodec<State = S>>(
    policy: P,
    codec: K,
    shape: Shape,
    s: Seq<u8>,
) -> Read<SeatModel<S, P::PolicyState, F, N, <P::Evaluation as View>::V>> {
    match read_blob(s) {
        Err(f) => Err(f),
        Ok((blob, s)) => match codec.spec_decode(blob) {
            None => Err(DecodeFault::State),
            Some(state) => if !codec.spec_validate_state(state, false) {
                Err(DecodeFault::InvalidState)
            } else {
                match read_u64(s) {
                    Err(f) => Err(f),
                    Ok((rng, s)) => match read_size(s) {
                        Err(f) => Err(f),
                        Ok((tick, s)) => if shape.horizon is Some && tick >= shape.horizon->Some_0 {
                            Err(DecodeFault::Horizon)
                        } else if tick > TICK_LIMIT {
                            Err(DecodeFault::Ticks)
                        } else {
                            match read_bool(s) {
                                Err(f) => Err(f),
                                Ok((seeded, s)) => match read_u64(s) {
                                    Err(f) => Err(f),
                                    Ok((word, s)) => match policy.spec_policy_state_from_u64(word) {
                                        Err(f) => Err(f),
                                        Ok(policy_state) => match read_each(
                                            s,
                                            shape.agents as nat,
                                            |s: Seq<u8>|
                                                read_trajectory::<N, F, P>(policy, shape, tick, s),
                                        ) {
                                            Err(f) => Err(f),
                                            Ok((traj, s)) => Ok(
                                                (
                                                    SeatModel {
                                                        state,
                                                        rng: generator(rng),
                                                        policy_state,
                                                        tick,
                                                        seeded,
                                                        traj,
                                                    },
                                                    s,
                                                ),
                                            ),
                                        },
                                    },
                                },
                            }
                        },
                    },
                }
            },
        },
    }
}

/// What reading needs to know of an engine's parts.
pub open spec fn shape_of<
    N: Scalar,
    G: Game<N>,
    E: StateEncoder<State = G::State>,
    W: Reward<N, Event = G::Event>,
    P: Policy<N>,
    L: Learner<N, E::Feature, P::Evaluation, E>,
>(parts: Parts<G, E, W, P, L>) -> Shape {
    let (c, h, w) = parts.encoder.spec_obs_shape();
    Shape {
        obs: c as nat * h as nat * w as nat,
        actions: parts.game.spec_action_count(),
        agents: parts.game.spec_num_agents(),
        horizon: parts.game.spec_truncation_horizon(),
    }
}

/// What bytes hold of an engine of so many games, but for the start distribution, whose bytes come
/// along.
pub open spec fn read_engine<
    N: Scalar,
    G: Game<N>,
    E: StateEncoder<State = G::State>,
    W: Reward<N, Event = G::Event>,
    P: Policy<N>,
    L: Learner<N, E::Feature, P::Evaluation, E>,
    K: StateCodec<State = G::State>,
>(parts: Parts<G, E, W, P, L>, codec: K, games: nat, s: Seq<u8>) -> Result<
    (Seq<SeatOf<N, G, E, P>>, SplitMix64, SplitMix64, Seq<u8>),
    DecodeFault,
> where E::Feature: Word {
    match read_u8(s) {
        Err(f) => Err(f),
        Ok((version, s)) => if version != LAYOUT {
            Err(DecodeFault::Version)
        } else {
            match read_u32(s) {
                Err(f) => Err(f),
                Ok((n, s)) => match read_u32(s) {
                    Err(f) => Err(f),
                    Ok((agents, s)) => if n != games || agents != parts.game.spec_num_agents() {
                        Err(DecodeFault::Shape)
                    } else {
                        match read_u64(s) {
                            Err(f) => Err(f),
                            Ok((search, s)) => match read_u64(s) {
                                Err(f) => Err(f),
                                Ok((buffer, s)) => match read_each(
                                    s,
                                    games,
                                    |s: Seq<u8>|
                                        read_seat::<N, G::State, E::Feature, P, K>(
                                            parts.policy,
                                            codec,
                                            shape_of(parts),
                                            s,
                                        ),
                                ) {
                                    Err(f) => Err(f),
                                    Ok((seats, s)) => match read_blob(s) {
                                        Err(f) => Err(f),
                                        Ok((start, s)) => if s.len() > 0 {
                                            Err(DecodeFault::Trailing)
                                        } else {
                                            Ok((seats, generator(search), generator(buffer), start))
                                        },
                                    },
                                },
                            },
                        }
                    },
                },
            }
        },
    }
}

/// The engine that bytes restore.
pub open spec fn restored<
    N: Scalar,
    G: Game<N>,
    E: StateEncoder<State = G::State>,
    W: Reward<N, Event = G::Event>,
    P: Policy<N>,
    L: Learner<N, E::Feature, P::Evaluation, E>,
    K: StateCodec<State = G::State>,
    D: StoredStart<G::State, K>,
>(parts: Parts<G, E, W, P, L>, codec: K, m: EngineOf<N, G, E, P, D>, s: Seq<u8>) -> Result<
    EngineOf<N, G, E, P, D>,
    DecodeFault,
> where E::Feature: Word {
    match read_engine::<N, G, E, W, P, L, K>(parts, codec, m.seats.len(), s) {
        Err(f) => Err(f),
        Ok((seats, search_rng, buffer_rng, blob)) => match m.start.spec_restored(codec, blob) {
            Err(f) => Err(f),
            Ok(start) => Ok(EngineModel { seats, search_rng, buffer_rng, start }),
        },
    }
}

/// A buffered decision that is read back: its observations are as wide as the encoder's, its actions
/// are the game's, its reward is finite, it did not end its episode, and its evaluation is read back.
pub open spec fn storable_step<N: Scalar, F: Word, P: Policy<N>>(
    policy: P,
    shape: Shape,
    step: StepModel<F, N, <P::Evaluation as View>::V>,
) -> bool {
    &&& step.obs.len() == shape.obs <= u32::MAX
    &&& step.action < shape.actions
    &&& step.reward.spec_is_finite()
    &&& step.next_obs.len() == 0 || step.next_obs.len() == shape.obs
    &&& step.next_legal.len() <= u32::MAX
    &&& all_below(step.next_legal, shape.actions)
    &&& !step.terminal
    &&& forall|rest: Seq<u8>|
        policy.spec_decode_eval(
            #[trigger] (policy.spec_encode_eval(step.evaluation) + rest),
            shape.actions,
        ) == Ok::<_, DecodeFault>((step.evaluation, rest))
}

/// A seat that is read back: its state and its acting state are, its ticks are below the horizon, and
/// it buffers no more decisions than ticks.
pub open spec fn storable_seat<N: Scalar, S, F: Word, P: Policy<N>, K: StateCodec<State = S>>(
    policy: P,
    codec: K,
    shape: Shape,
    seat: SeatModel<S, P::PolicyState, F, N, <P::Evaluation as View>::V>,
) -> bool {
    &&& codec.spec_encode(seat.state).len() <= u32::MAX
    &&& codec.spec_decode(codec.spec_encode(seat.state)) == Some(seat.state)
    &&& codec.spec_validate_state(seat.state, false)
    &&& shape.horizon is Some ==> seat.tick < shape.horizon->Some_0
    &&& seat.tick <= TICK_LIMIT
    &&& policy.spec_policy_state_from_u64(policy.spec_policy_state_to_u64(seat.policy_state))
        == Ok::<_, DecodeFault>(seat.policy_state)
    &&& seat.traj.len() == shape.agents
    &&& forall|si: int|
        0 <= si < seat.traj.len() ==> (#[trigger] seat.traj[si]).len() <= TRAJECTORY_LIMIT
            && seat.traj[si].len() <= seat.tick
    &&& forall|si: int, i: int|
        0 <= si < seat.traj.len() && 0 <= i < seat.traj[si].len() ==> storable_step::<N, F, P>(
            policy,
            shape,
            #[trigger] seat.traj[si][i],
        )
}

proof fn lemma_bool_round_trip(b: bool, rest: Seq<u8>)
    ensures
        read_bool(seq![bool_byte(b)] + rest) == Ok::<_, DecodeFault>((b, rest)),
{
    law_u8_round_trip(bool_byte(b), rest);
}

proof fn lemma_step_round_trip<N: Scalar, F: Word, P: Policy<N>>(
    policy: P,
    shape: Shape,
    step: StepModel<F, N, <P::Evaluation as View>::V>,
    rest: Seq<u8>,
)
    requires
        faithful_bits::<N>(),
        faithful_words::<F>(),
        storable_step::<N, F, P>(policy, shape, step),
    ensures
        read_step::<N, F, P>(policy, shape, step_bytes(policy, step) + rest) == Ok::<
            _,
            DecodeFault,
        >((step, rest)),
{
    let s6 = seq![bool_byte(step.terminal)] + rest;
    let s5 = sizes_bytes(step.next_legal) + s6;
    let s4 = words_bytes(step.next_obs) + s5;
    let s3 = num_bytes(step.reward) + s4;
    let s2 = spec_u64_to_le_bytes(step.action as u64) + s3;
    let s1 = policy.spec_encode_eval(step.evaluation) + s2;
    assert(step_bytes(policy, step) + rest =~= words_bytes(step.obs) + s1);
    law_words_round_trip(step.obs, s1);
    law_u64_round_trip(step.action as u64, s3);
    law_num_round_trip(step.reward, s4);
    law_words_round_trip(step.next_obs, s5);
    law_sizes_round_trip(step.next_legal, s6);
    lemma_bool_round_trip(step.terminal, rest);
    let read = read_step::<N, F, P>(policy, shape, step_bytes(policy, step) + rest)->Ok_0.0;
    assert(read =~= step);
}

proof fn lemma_trajectory_round_trip<N: Scalar, F: Word, P: Policy<N>>(
    policy: P,
    shape: Shape,
    tick: usize,
    steps: Seq<StepModel<F, N, <P::Evaluation as View>::V>>,
    rest: Seq<u8>,
)
    requires
        faithful_bits::<N>(),
        faithful_words::<F>(),
        steps.len() <= TRAJECTORY_LIMIT,
        steps.len() <= tick,
        forall|i: int|
            0 <= i < steps.len() ==> storable_step::<N, F, P>(
                policy,
                shape,
                #[trigger] steps[i],
            ),
    ensures
        read_trajectory::<N, F, P>(policy, shape, tick, trajectory_bytes(policy, steps) + rest)
            == Ok::<_, DecodeFault>((steps, rest)),
{
    let each = |s: StepModel<F, N, <P::Evaluation as View>::V>| step_bytes(policy, s);
    let one = |s: Seq<u8>| read_step::<N, F, P>(policy, shape, s);
    assert(trajectory_bytes(policy, steps) + rest =~= spec_u32_to_le_bytes(steps.len() as u32) + (
    joined(steps, each) + rest));
    law_u32_round_trip(steps.len() as u32, joined(steps, each) + rest);
    assert forall|i: int, after: Seq<u8>| 0 <= i < steps.len() implies one(
        #[trigger] (each(steps[i]) + after),
    ) == Ok::<_, DecodeFault>((steps[i], after)) by {
        lemma_step_round_trip::<N, F, P>(policy, shape, steps[i], after);
    }
    lemma_read_joined(steps, each, one, rest);
}

proof fn lemma_seat_round_trip<N: Scalar, S, F: Word, P: Policy<N>, K: StateCodec<State = S>>(
    policy: P,
    codec: K,
    shape: Shape,
    seat: SeatModel<S, P::PolicyState, F, N, <P::Evaluation as View>::V>,
    rest: Seq<u8>,
)
    requires
        faithful_bits::<N>(),
        faithful_words::<F>(),
        storable_seat::<N, S, F, P, K>(policy, codec, shape, seat),
    ensures
        read_seat::<N, S, F, P, K>(policy, codec, shape, seat_bytes(policy, codec, seat) + rest)
            == Ok::<_, DecodeFault>((seat, rest)),
{
    let each = |t: Seq<StepModel<F, N, <P::Evaluation as View>::V>>| trajectory_bytes(policy, t);
    let one = |s: Seq<u8>| read_trajectory::<N, F, P>(policy, shape, seat.tick, s);
    let word = policy.spec_policy_state_to_u64(seat.policy_state);
    let s5 = joined(seat.traj, each) + rest;
    let s4 = spec_u64_to_le_bytes(word) + s5;
    let s3 = seq![bool_byte(seat.seeded)] + s4;
    let s2 = spec_u64_to_le_bytes(seat.tick as u64) + s3;
    let s1 = spec_u64_to_le_bytes(seat.rng@) + s2;
    let blob = codec.spec_encode(seat.state);
    assert(seat_bytes(policy, codec, seat) + rest =~= blob_bytes(blob) + s1);
    law_blob_round_trip(blob, s1);
    law_u64_round_trip(seat.rng@, s2);
    law_u64_round_trip(seat.tick as u64, s3);
    lemma_bool_round_trip(seat.seeded, s4);
    law_u64_round_trip(word, s5);
    assert forall|i: int, after: Seq<u8>| 0 <= i < seat.traj.len() implies one(
        #[trigger] (each(seat.traj[i]) + after),
    ) == Ok::<_, DecodeFault>((seat.traj[i], after)) by {
        assert forall|j: int| 0 <= j < seat.traj[i].len() implies storable_step::<N, F, P>(
            policy,
            shape,
            #[trigger] seat.traj[i][j],
        ) by {}
        lemma_trajectory_round_trip::<N, F, P>(policy, shape, seat.tick, seat.traj[i], after);
    }
    lemma_read_joined(seat.traj, each, one, rest);
    crate::rng::law_generator(seat.rng, seat.rng@);
}

/// An engine of the same parts and with as many games is restored exactly to what was stored,
/// wherever every seat can be stored and the start distribution is read back.
pub proof fn law_snapshot_restores<
    N: Scalar,
    G: Game<N>,
    E: StateEncoder<State = G::State>,
    W: Reward<N, Event = G::Event>,
    P: Policy<N>,
    L: Learner<N, E::Feature, P::Evaluation, E>,
    K: StateCodec<State = G::State>,
    D: StoredStart<G::State, K>,
>(
    parts: Parts<G, E, W, P, L>,
    codec: K,
    stored: EngineOf<N, G, E, P, D>,
    other: EngineOf<N, G, E, P, D>,
) where E::Feature: Word
    requires
        faithful_bits::<N>(),
        faithful_words::<E::Feature>(),
        stored.seats.len() == other.seats.len() <= u32::MAX,
        parts.game.spec_num_agents() <= u32::MAX,
        forall|g: int|
            0 <= g < stored.seats.len() ==> storable_seat::<N, G::State, E::Feature, P, K>(
                parts.policy,
                codec,
                shape_of(parts),
                #[trigger] stored.seats[g],
            ),
        stored.start.spec_snapshot(codec).len() <= u32::MAX,
        other.start.spec_restored(codec, stored.start.spec_snapshot(codec)) == Ok::<_, DecodeFault>(
            stored.start,
        ),
    ensures
        restored::<N, G, E, W, P, L, K, D>(
            parts,
            codec,
            other,
            engine_bytes::<N, G, E, W, P, L, K, D>(parts, codec, stored),
        ) == Ok::<_, DecodeFault>(stored),
{
    let bytes = engine_bytes::<N, G, E, W, P, L, K, D>(parts, codec, stored);
    let each = |s: SeatOf<N, G, E, P>| seat_bytes(parts.policy, codec, s);
    let one = |s: Seq<u8>|
        read_seat::<N, G::State, E::Feature, P, K>(parts.policy, codec, shape_of(parts), s);
    let blob = stored.start.spec_snapshot(codec);
    let s6 = blob_bytes(blob);
    let s5 = joined(stored.seats, each) + s6;
    let s4 = spec_u64_to_le_bytes(stored.buffer_rng@) + s5;
    let s3 = spec_u64_to_le_bytes(stored.search_rng@) + s4;
    let s2 = spec_u32_to_le_bytes(parts.game.spec_num_agents() as u32) + s3;
    let s1 = spec_u32_to_le_bytes(stored.seats.len() as u32) + s2;
    assert(bytes =~= seq![LAYOUT] + s1);
    law_u8_round_trip(LAYOUT, s1);
    law_u32_round_trip(stored.seats.len() as u32, s2);
    law_u32_round_trip(parts.game.spec_num_agents() as u32, s3);
    law_u64_round_trip(stored.search_rng@, s4);
    law_u64_round_trip(stored.buffer_rng@, s5);
    assert forall|i: int, after: Seq<u8>| 0 <= i < stored.seats.len() implies one(
        #[trigger] (each(stored.seats[i]) + after),
    ) == Ok::<_, DecodeFault>((stored.seats[i], after)) by {
        lemma_seat_round_trip::<N, G::State, E::Feature, P, K>(
            parts.policy,
            codec,
            shape_of(parts),
            stored.seats[i],
            after,
        );
    }
    lemma_read_joined(stored.seats, each, one, s6);
    let nothing = Seq::<u8>::empty();
    assert(s6 =~= blob_bytes(blob) + nothing);
    law_blob_round_trip(blob, nothing);
    crate::rng::law_generator(stored.search_rng, stored.search_rng@);
    crate::rng::law_generator(stored.buffer_rng, stored.buffer_rng@);
}

fn put_step<N: Scalar, F: Word, P: Policy<N>>(
    policy: &P,
    step: &Step<F, N, P::Evaluation>,
    out: &mut Vec<u8>,
)
    ensures
        final(out)@ == old(out)@ + step_bytes(*policy, step@),
{
    put_words(out, &step.obs);
    policy.encode_eval(&step.evaluation, out);
    put_u64(out, step.action as u64);
    put_num(out, step.reward);
    put_words(out, &step.next_obs);
    put_sizes(out, &step.next_legal);
    put_u8(out, byte_of(step.terminal));
    assert(out@ =~= old(out)@ + step_bytes(*policy, step@));
}

fn put_trajectory<N: Scalar, F: Word, P: Policy<N>>(
    policy: &P,
    steps: &Vec<Step<F, N, P::Evaluation>>,
    out: &mut Vec<u8>,
)
    ensures
        final(out)@ == old(out)@ + trajectory_bytes(*policy, step_models(steps@)),
{
    let ghost each = |s: StepModel<F, N, <P::Evaluation as View>::V>| step_bytes(*policy, s);
    let ghost models = step_models(steps@);
    put_u32(out, steps.len() as u32);
    let ghost start = out@;
    let mut i: usize = 0;
    assert(models.take(0) =~= Seq::empty());
    assert(out@ =~= start + joined(models.take(0), each));
    while i < steps.len()
        invariant
            i <= steps@.len(),
            each == |s: StepModel<F, N, <P::Evaluation as View>::V>| step_bytes(*policy, s),
            models == step_models(steps@),
            out@ == start + joined(models.take(i as int), each),
        decreases steps@.len() - i,
    {
        assert(models[i as int] == steps@[i as int]@);
        put_step(policy, &steps[i], out);
        i = i + 1;
        assert(models.take(i as int).drop_last() =~= models.take(i - 1));
        assert(models.take(i as int).last() == models[i - 1]);
        assert(out@ =~= start + joined(models.take(i as int), each));
    }
    assert(models.take(i as int) =~= models);
    assert(out@ =~= old(out)@ + trajectory_bytes(*policy, models));
}

fn put_seat<N: Scalar, S, F: Word, P: Policy<N>, K: StateCodec<State = S>>(
    policy: &P,
    codec: &K,
    seat: &Seat<S, P::PolicyState, F, N, P::Evaluation>,
    out: &mut Vec<u8>,
)
    ensures
        final(out)@ == old(out)@ + seat_bytes(*policy, *codec, seat@),
{
    let ghost each = |t: Seq<StepModel<F, N, <P::Evaluation as View>::V>>|
        trajectory_bytes(*policy, t);
    let ghost models = traj_models(seat.traj@);
    put_blob(out, &codec.encode(&seat.episode.state));
    put_u64(out, seat.episode.rng.state());
    put_u64(out, seat.tick as u64);
    put_u8(out, byte_of(seat.seeded));
    put_u64(out, policy.policy_state_to_u64(seat.policy_state));
    let ghost start = out@;
    let mut i: usize = 0;
    assert(models.take(0) =~= Seq::empty());
    assert(out@ =~= start + joined(models.take(0), each));
    while i < seat.traj.len()
        invariant
            i <= seat.traj@.len(),
            each == |t: Seq<StepModel<F, N, <P::Evaluation as View>::V>>|
                trajectory_bytes(*policy, t),
            models == traj_models(seat.traj@),
            out@ == start + joined(models.take(i as int), each),
        decreases seat.traj@.len() - i,
    {
        assert(models[i as int] == step_models(seat.traj@[i as int]@));
        put_trajectory(policy, &seat.traj[i], out);
        i = i + 1;
        assert(models.take(i as int).drop_last() =~= models.take(i - 1));
        assert(models.take(i as int).last() == models[i - 1]);
        assert(out@ =~= start + joined(models.take(i as int), each));
    }
    assert(models.take(i as int) =~= models);
    assert(out@ =~= old(out)@ + seat_bytes(*policy, *codec, seat@));
}

/// Whether so many entries are as many as an observation has.
fn fits(len: usize, obs: Option<usize>, Ghost(want): Ghost<nat>) -> (r: bool)
    requires
        match obs {
            Some(d) => d == want,
            None => want > usize::MAX,
        },
    ensures
        r == (len == want),
{
    match obs {
        Some(d) => len == d,
        None => false,
    }
}

#[verifier::rlimit(40)]
fn take_step<N: Scalar, F: Word, P: Policy<N>>(
    policy: &P,
    r: &mut Reader,
    obs_dim: Option<usize>,
    action_count: usize,
    Ghost(shape): Ghost<Shape>,
) -> (out: Result<Step<F, N, P::Evaluation>, DecodeFault>)
    requires
        shape.actions == action_count,
        match obs_dim {
            Some(d) => d == shape.obs,
            None => shape.obs > usize::MAX,
        },
    ensures
        reads_view(out, read_step::<N, F, P>(*policy, shape, old(r)@), final(r)@),
{
    let obs = match words::<F>(r) {
        Ok(obs) => obs,
        Err(f) => return Err(f),
    };
    if !fits(obs.len(), obs_dim, Ghost(shape.obs)) {
        return Err(DecodeFault::ObsWidth);
    }
    let evaluation = match policy.decode_eval(r, action_count) {
        Ok(e) => e,
        Err(f) => return Err(f),
    };
    let action = match r.size() {
        Ok(a) => a,
        Err(f) => return Err(f),
    };
    if action >= action_count {
        return Err(DecodeFault::ActionRange);
    }
    let reward = match r.num::<N>() {
        Ok(x) => x,
        Err(f) => return Err(f),
    };
    if !reward.is_finite() {
        return Err(DecodeFault::NotFinite);
    }
    let next_obs = match words::<F>(r) {
        Ok(obs) => obs,
        Err(f) => return Err(f),
    };
    if next_obs.len() != 0 && !fits(next_obs.len(), obs_dim, Ghost(shape.obs)) {
        return Err(DecodeFault::ObsWidth);
    }
    let next_legal = match sizes(r) {
        Ok(ids) => ids,
        Err(f) => return Err(f),
    };
    if !below(&next_legal, action_count) {
        return Err(DecodeFault::ActionRange);
    }
    let terminal = match take_bool(r) {
        Ok(b) => b,
        Err(f) => return Err(f),
    };
    if terminal {
        return Err(DecodeFault::Terminal);
    }
    Ok(Step { obs, evaluation, action, reward, next_obs, next_legal, terminal })
}

#[verifier::loop_isolation(false)]
fn take_trajectory<N: Scalar, F: Word, P: Policy<N>>(
    policy: &P,
    r: &mut Reader,
    obs_dim: Option<usize>,
    action_count: usize,
    tick: usize,
    Ghost(shape): Ghost<Shape>,
) -> (out: Result<Vec<Step<F, N, P::Evaluation>>, DecodeFault>)
    requires
        shape.actions == action_count,
        match obs_dim {
            Some(d) => d == shape.obs,
            None => shape.obs > usize::MAX,
        },
    ensures
        match out {
            Ok(steps) => read_trajectory::<N, F, P>(*policy, shape, tick, old(r)@) == Ok::<
                _,
                DecodeFault,
            >((step_models(steps@), final(r)@)),
            Err(f) => read_trajectory::<N, F, P>(*policy, shape, tick, old(r)@) == Err::<
                (Seq<StepModel<F, N, <P::Evaluation as View>::V>>, Seq<u8>),
                _,
            >(f),
        },
{
    let ghost one = |s: Seq<u8>| read_step::<N, F, P>(*policy, shape, s);
    let n = match r.u32() {
        Ok(n) => n,
        Err(f) => return Err(f),
    };
    if n > TRAJECTORY_LIMIT {
        return Err(DecodeFault::Trajectory);
    }
    if n as usize > tick {
        return Err(DecodeFault::Decisions);
    }
    let ghost start = r@;
    let mut out: Vec<Step<F, N, P::Evaluation>> = Vec::new();
    assert(step_models(out@) =~= Seq::empty());
    let mut i: u32 = 0;
    while i < n
        invariant
            i <= n,
            read_each(start, i as nat, one) == Ok::<_, DecodeFault>((step_models(out@), r@)),
        decreases n - i,
    {
        match take_step::<N, F, P>(policy, r, obs_dim, action_count, Ghost(shape)) {
            Ok(step) => {
                let ghost was = step_models(out@);
                let ghost shown = step@;
                out.push(step);
                assert(step_models(out@) =~= was.push(shown));
            },
            Err(f) => {
                proof {
                    lemma_read_fails(start, (i + 1) as nat, n as nat, one, f);
                }
                return Err(f);
            },
        }
        i = i + 1;
    }
    Ok(out)
}

#[verifier::loop_isolation(false)]
#[verifier::rlimit(40)]
fn take_seat<N: Scalar, S, F: Word, P: Policy<N>, K: StateCodec<State = S>>(
    policy: &P,
    codec: &K,
    r: &mut Reader,
    obs_dim: Option<usize>,
    action_count: usize,
    agents: usize,
    horizon: Option<usize>,
    Ghost(shape): Ghost<Shape>,
) -> (out: Result<Seat<S, P::PolicyState, F, N, P::Evaluation>, DecodeFault>)
    requires
        shape.actions == action_count,
        shape.agents == agents,
        shape.horizon == horizon,
        match obs_dim {
            Some(d) => d == shape.obs,
            None => shape.obs > usize::MAX,
        },
    ensures
        reads_view(out, read_seat::<N, S, F, P, K>(*policy, *codec, shape, old(r)@), final(r)@),
{
    let blob = match r.blob() {
        Ok(b) => b,
        Err(f) => return Err(f),
    };
    let state = match codec.decode(blob) {
        Ok(s) => s,
        Err(_) => return Err(DecodeFault::State),
    };
    if codec.validate_state(&state, false).is_err() {
        return Err(DecodeFault::InvalidState);
    }
    let rng = match r.u64() {
        Ok(x) => x,
        Err(f) => return Err(f),
    };
    let tick = match r.size() {
        Ok(x) => x,
        Err(f) => return Err(f),
    };
    match horizon {
        Some(h) => {
            if tick >= h {
                return Err(DecodeFault::Horizon);
            }
        },
        None => {},
    }
    if tick as u64 > TICK_LIMIT {
        return Err(DecodeFault::Ticks);
    }
    let seeded = match take_bool(r) {
        Ok(b) => b,
        Err(f) => return Err(f),
    };
    let word = match r.u64() {
        Ok(x) => x,
        Err(f) => return Err(f),
    };
    let policy_state = match policy.policy_state_from_u64(word) {
        Ok(s) => s,
        Err(f) => return Err(f),
    };
    let ghost one = |s: Seq<u8>| read_trajectory::<N, F, P>(*policy, shape, tick, s);
    let ghost start = r@;
    let mut traj: Vec<Vec<Step<F, N, P::Evaluation>>> = Vec::new();
    assert(traj_models(traj@) =~= Seq::empty());
    let mut i: usize = 0;
    while i < agents
        invariant
            i <= agents,
            read_each(start, i as nat, one) == Ok::<_, DecodeFault>((traj_models(traj@), r@)),
        decreases agents - i,
    {
        match take_trajectory::<N, F, P>(policy, r, obs_dim, action_count, tick, Ghost(shape)) {
            Ok(steps) => {
                let ghost was = traj_models(traj@);
                let ghost shown = step_models(steps@);
                traj.push(steps);
                assert(traj_models(traj@) =~= was.push(shown));
            },
            Err(f) => {
                proof {
                    lemma_read_fails(start, (i + 1) as nat, agents as nat, one, f);
                }
                return Err(f);
            },
        }
        i = i + 1;
    }
    Ok(
        Seat {
            episode: Episode { state, rng: SplitMix64::from_state(rng) },
            policy_state,
            tick,
            seeded,
            traj,
        },
    )
}

/// The product of an observation's extents; none where it does not fit.
fn obs_width(shape: (usize, usize, usize)) -> (r: Option<usize>)
    ensures
        match r {
            Some(d) => d == shape.0 as nat * shape.1 as nat * shape.2 as nat,
            None => shape.0 as nat * shape.1 as nat * shape.2 as nat > usize::MAX,
        },
{
    let (c, h, w) = shape;
    match c.checked_mul(h) {
        Some(ch) => ch.checked_mul(w),
        None => {
            if w == 0 {
                assert(c as nat * h as nat * w as nat == 0) by (nonlinear_arith)
                    requires
                        w == 0,
                ;
                return Some(0);
            }
            assert(c as nat * h as nat * w as nat >= c as nat * h as nat) by (nonlinear_arith)
                requires
                    w >= 1,
            ;
            None
        },
    }
}

proof fn lemma_read_len<T>(s: Seq<u8>, n: nat, one: spec_fn(Seq<u8>) -> Read<T>)
    ensures
        read_each(s, n, one) matches Ok((xs, _)) ==> xs.len() == n,
    decreases n,
{
    if n > 0 {
        lemma_read_len(s, (n - 1) as nat, one);
    }
}

proof fn lemma_seats_len<N: Scalar, S, F: Word, P: Policy<N>, K: StateCodec<State = S>>(
    policy: P,
    codec: K,
    shape: Shape,
    s: Seq<u8>,
    n: nat,
)
    ensures
        read_each(s, n, |s: Seq<u8>| read_seat::<N, S, F, P, K>(policy, codec, shape, s)) matches Ok(
            (xs, _),
        ) ==> xs.len() == n && seated(xs, shape.agents as nat),
    decreases n,
{
    let one = |s: Seq<u8>| read_seat::<N, S, F, P, K>(policy, codec, shape, s);
    if n > 0 {
        lemma_seats_len::<N, S, F, P, K>(policy, codec, shape, s, (n - 1) as nat);
        if let Ok((xs, rest)) = read_each(s, (n - 1) as nat, one) {
            if let Ok((x, after)) = one(rest) {
                let blob = read_blob(rest)->Ok_0;
                let rng = read_u64(blob.1)->Ok_0;
                let tick = read_size(rng.1)->Ok_0;
                let seeded = read_bool(tick.1)->Ok_0;
                let word = read_u64(seeded.1)->Ok_0;
                lemma_read_len(
                    word.1,
                    shape.agents as nat,
                    |s: Seq<u8>| read_trajectory::<N, F, P>(policy, shape, tick.0, s),
                );
                assert(x.traj.len() == shape.agents);
                let all = xs.push(x);
                assert forall|g: int| 0 <= g < all.len() implies (#[trigger] all[g]).traj.len()
                    == shape.agents by {
                    if g < xs.len() {
                        assert(xs[g].traj.len() == shape.agents);
                    }
                }
            }
        }
    }
}

impl<
    N: Scalar,
    G: Game<N>,
    E: StateEncoder<State = G::State>,
    W: Reward<N, Event = G::Event>,
    P: Policy<N>,
    L: Learner<N, E::Feature, P::Evaluation, E>,
    D: StartDistribution<G::State>,
> Engine<N, G, E, W, P, L, D> {
    /// Stores what changes as the engine collects.
    #[verifier::loop_isolation(false)]
    pub fn snapshot_bytes<K: StateCodec<State = G::State>>(&self, codec: &K) -> (r: Vec<u8>) where
        E::Feature: Word,
        D: StoredStart<G::State, K>,

        ensures
            r@ == engine_bytes::<N, G, E, W, P, L, K, D>(self.composed(), *codec, self@),
    {
        proof {
            lemma_inside::<N, G, E, W, P, L, D>();
        }
        let ghost each = |s: SeatOf<N, G, E, P>| seat_bytes(self.parts.policy, *codec, s);
        let ghost models = seat_models(self.seats@);
        let mut out: Vec<u8> = Vec::new();
        put_u8(&mut out, LAYOUT);
        put_u32(&mut out, self.seats.len() as u32);
        put_u32(&mut out, self.parts.game.num_agents() as u32);
        put_u64(&mut out, self.search_rng.state());
        put_u64(&mut out, self.buffer_rng.state());
        let ghost start = out@;
        let mut i: usize = 0;
        assert(models.take(0) =~= Seq::empty());
        assert(out@ =~= start + joined(models.take(0), each));
        while i < self.seats.len()
            invariant
                i <= self.seats@.len(),
                out@ == start + joined(models.take(i as int), each),
            decreases self.seats@.len() - i,
        {
            assert(models[i as int] == self.seats@[i as int]@);
            put_seat(&self.parts.policy, codec, &self.seats[i], &mut out);
            i = i + 1;
            assert(models.take(i as int).drop_last() =~= models.take(i - 1));
            assert(models.take(i as int).last() == models[i - 1]);
            assert(out@ =~= start + joined(models.take(i as int), each));
        }
        assert(models.take(i as int) =~= models);
        let blob = self.start.snapshot_bytes(codec);
        put_blob(&mut out, &blob);
        assert(out@ =~= engine_bytes::<N, G, E, W, P, L, K, D>(self.composed(), *codec, self@));
        out
    }

    /// Restores what changes as the engine collects. Everything is read before anything changes:
    /// bytes that are refused leave the engine as it was.
    #[verifier::loop_isolation(false)]
    #[verifier::rlimit(40)]
    pub fn restore_bytes<K: StateCodec<State = G::State>>(&mut self, codec: &K, bytes: &[u8]) -> (r:
        Result<(), DecodeFault>) where E::Feature: Word, D: StoredStart<G::State, K>
        requires
            old(self).wf(),
        ensures
            final(self).composed() == old(self).composed(),
            final(self).wf(),
            match r {
                Ok(_) => restored::<N, G, E, W, P, L, K, D>(
                    old(self).composed(),
                    *codec,
                    old(self)@,
                    bytes@,
                ) == Ok::<_, DecodeFault>(final(self)@),
                Err(f) => {
                    &&& restored::<N, G, E, W, P, L, K, D>(
                        old(self).composed(),
                        *codec,
                        old(self)@,
                        bytes@,
                    ) == Err::<EngineOf<N, G, E, P, D>, _>(f)
                    &&& final(self)@ == old(self)@
                },
            },
    {
        proof {
            lemma_inside::<N, G, E, W, P, L, D>();
        }
        let ghost parts = self.parts;
        let ghost shape = shape_of(parts);
        let ghost one = |s: Seq<u8>|
            read_seat::<N, G::State, E::Feature, P, K>(parts.policy, *codec, shape, s);
        let mut r = Reader::new(bytes);
        let version = match r.u8() {
            Ok(x) => x,
            Err(f) => return Err(f),
        };
        if version != LAYOUT {
            return Err(DecodeFault::Version);
        }
        let n_games = match r.u32() {
            Ok(x) => x,
            Err(f) => return Err(f),
        };
        let num_agents = match r.u32() {
            Ok(x) => x,
            Err(f) => return Err(f),
        };
        let games = self.seats.len();
        let agents = self.parts.game.num_agents();
        if n_games as usize != games || num_agents as usize != agents {
            return Err(DecodeFault::Shape);
        }
        let search = match r.u64() {
            Ok(x) => x,
            Err(f) => return Err(f),
        };
        let buffer = match r.u64() {
            Ok(x) => x,
            Err(f) => return Err(f),
        };
        let obs_dim = obs_width(self.parts.encoder.obs_shape());
        let action_count = self.parts.game.action_count();
        let horizon = self.parts.game.truncation_horizon();
        let ghost start = r@;
        let mut seats: Vec<Seat<G::State, P::PolicyState, E::Feature, N, P::Evaluation>> = Vec::new();
        assert(seat_models(seats@) =~= Seq::empty());
        let mut i: usize = 0;
        while i < games
            invariant
                i <= games,
                read_each(start, i as nat, one) == Ok::<_, DecodeFault>((seat_models(seats@), r@)),
            decreases games - i,
        {
            match take_seat::<N, G::State, E::Feature, P, K>(
                &self.parts.policy,
                codec,
                &mut r,
                obs_dim,
                action_count,
                agents,
                horizon,
                Ghost(shape),
            ) {
                Ok(seat) => {
                    let ghost was = seat_models(seats@);
                    let ghost shown = seat@;
                    seats.push(seat);
                    assert(seat_models(seats@) =~= was.push(shown));
                },
                Err(f) => {
                    proof {
                        lemma_read_fails(start, (i + 1) as nat, games as nat, one, f);
                    }
                    return Err(f);
                },
            }
            i = i + 1;
        }
        let blob = match r.blob() {
            Ok(b) => b,
            Err(f) => return Err(f),
        };
        match r.done() {
            Ok(_) => {},
            Err(f) => return Err(f),
        }
        match self.start.restore_bytes(codec, blob) {
            Ok(_) => {},
            Err(f) => return Err(f),
        }
        proof {
            lemma_seats_len::<N, G::State, E::Feature, P, K>(
                parts.policy,
                *codec,
                shape,
                start,
                games as nat,
            );
        }
        self.search_rng = SplitMix64::from_state(search);
        self.buffer_rng = SplitMix64::from_state(buffer);
        self.seats = seats;
        Ok(())
    }
}

} // verus!
