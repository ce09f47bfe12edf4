//! Where an episode begins.

use vstd::prelude::*;

use crate::codec::bytes::DecodeFault;
use crate::codec::StateCodec;
use crate::rng::SplitMix64;

verus! {

/// How the next episode begins: afresh, or at a state reached before.
pub enum Start<S> {
    Fresh,
    Restore(S),
}

/// Chooses where episodes begin. Its draws come from a stream of its own, so that what it draws
/// never moves a game's chance.
pub trait StartDistribution<S>: Sized {
    open spec fn spec_observe(self, state: S, rng: SplitMix64) -> (Self, SplitMix64) {
        arbitrary()
    }

    /// Takes note of a reached state that is not an end.
    fn observe(&mut self, state: &S, rng: &mut SplitMix64)
        ensures
            (*final(self), *final(rng)) == old(self).spec_observe(*state, *old(rng)),
    ;

    open spec fn spec_next_start(self, rng: SplitMix64) -> (Start<S>, Self, SplitMix64) {
        arbitrary()
    }

    /// Chooses where the next episode begins.
    fn next_start(&mut self, rng: &mut SplitMix64) -> (r: Start<S>)
        ensures
            (r, *final(self), *final(rng)) == old(self).spec_next_start(*old(rng)),
    ;
}

/// A start distribution that can be stored, its states by a codec.
pub trait StoredStart<S, K: StateCodec<State = S>>: StartDistribution<S> {
    open spec fn spec_snapshot(self, codec: K) -> Seq<u8> {
        arbitrary()
    }

    fn snapshot_bytes(&self, codec: &K) -> (r: Vec<u8>)
        ensures
            r@ == self.spec_snapshot(*codec),
    ;

    open spec fn spec_restored(self, codec: K, bytes: Seq<u8>) -> Result<Self, DecodeFault> {
        arbitrary()
    }

    /// Restores from bytes, every state decoded and validated as live first. Bytes that are refused
    /// change nothing.
    fn restore_bytes(&mut self, codec: &K, bytes: &[u8]) -> (r: Result<(), DecodeFault>)
        ensures
            match r {
                Ok(_) => old(self).spec_restored(*codec, bytes@) == Ok::<_, DecodeFault>(
                    *final(self),
                ),
                Err(f) => old(self).spec_restored(*codec, bytes@) == Err::<Self, _>(f)
                    && *final(self) == *old(self),
            },
    ;
}

/// Every episode begins afresh; nothing is drawn.
pub struct AlwaysInitialState;

impl<S> StartDistribution<S> for AlwaysInitialState {
    open spec fn spec_observe(self, state: S, rng: SplitMix64) -> (Self, SplitMix64) {
        (self, rng)
    }

    fn observe(&mut self, state: &S, rng: &mut SplitMix64) {
    }

    open spec fn spec_next_start(self, rng: SplitMix64) -> (Start<S>, Self, SplitMix64) {
        (Start::Fresh, self, rng)
    }

    fn next_start(&mut self, rng: &mut SplitMix64) -> (r: Start<S>) {
        Start::Fresh
    }
}

impl<S, K: StateCodec<State = S>> StoredStart<S, K> for AlwaysInitialState {
    open spec fn spec_snapshot(self, codec: K) -> Seq<u8> {
        Seq::empty()
    }

    fn snapshot_bytes(&self, codec: &K) -> (r: Vec<u8>) {
        Vec::new()
    }

    open spec fn spec_restored(self, codec: K, bytes: Seq<u8>) -> Result<Self, DecodeFault> {
        if bytes.len() == 0 {
            Ok(self)
        } else {
            Err(DecodeFault::Start)
        }
    }

    fn restore_bytes(&mut self, codec: &K, bytes: &[u8]) -> (r: Result<(), DecodeFault>) {
        if bytes.len() == 0 {
            Ok(())
        } else {
            Err(DecodeFault::Start)
        }
    }
}

} // verus!
