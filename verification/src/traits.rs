//! How the data wrapped in messages is handled.

use bytes::Bytes;
use vstd::prelude::*;

verus! {

/// A trait used to determine how message-wrapped data is handled.
///
/// Kadmium uses this trait to determine if wrapped data in a [`Chunk`](crate::message::Chunk)
/// message should be propagated further during a broadcast. Valid data will get propagated,
/// invalid data will not.
///
/// Kadmium also uses [`Bytes`] to handle the data in its encoded state.
pub trait ProcessData<S>: TryFrom<Bytes> {
    /// Returns whether the data is valid or not; the provided implementation returns `true`.
    fn verify_data(&self, _state: S) -> (valid: bool)
        default_ensures
            valid,
    {
        true
    }

    /// Processes the data; the provided implementation is a no-op.
    ///
    /// Kadmium doesn't make any assumptions about how this function should be implemented.
    fn process_data(&self, _state: S) {
    }
}

} // verus!
