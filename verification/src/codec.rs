//! The persistence seam: a codec turns a game's state into opaque bytes and back.

use vstd::prelude::*;

pub mod bytes;

verus! {

/// Encodes and decodes one game's state. Encoding is infallible; decoding answers every
/// malformed input with an error. Decoding is structural:
/// [`validate_state`](StateCodec::validate_state) is the boundary where untrusted input becomes
/// trusted state, and whoever installs a decoded state runs it first.
pub trait StateCodec {
    type State;

    open spec fn spec_encode(&self, state: Self::State) -> Seq<u8> {
        arbitrary()
    }

    fn encode(&self, state: &Self::State) -> (r: Vec<u8>)
        ensures
            r@ == self.spec_encode(*state),
    ;

    open spec fn spec_decode(&self, bytes: Seq<u8>) -> Option<Self::State> {
        arbitrary()
    }

    fn decode(&self, bytes: &[u8]) -> (r: Result<Self::State, String>)
        ensures
            match r {
                Ok(s) => self.spec_decode(bytes@) == Some(s),
                Err(_) => self.spec_decode(bytes@) is None,
            },
    ;

    open spec fn spec_validate_state(&self, state: Self::State, done: bool) -> bool {
        arbitrary()
    }

    /// Validates a decoded state against the game's invariants and the separately transported
    /// `done` flag.
    fn validate_state(&self, state: &Self::State, done: bool) -> (r: Result<(), String>)
        ensures
            r is Ok <==> self.spec_validate_state(*state, done),
    ;
}

} // verus!
