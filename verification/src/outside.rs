//! The items of outside crates that the library uses, with the contracts that the library relies
//! on. None of these contracts is proved here.

use bytes::Bytes;
use rand::seq::{IteratorRandom, SliceRandom};
use rand::{thread_rng, Fill};
use vstd::prelude::*;

use crate::addr::PeerAddr;
use crate::id::Id;

verus! {

/// `time::OffsetDateTime`, a date and time with an offset; the library only carries it.
#[verifier::external_type_specification]
#[verifier::external_body]
pub struct ExOffsetDateTime(time::OffsetDateTime);

/// `bytes::Bytes`, a cheaply clonable buffer of bytes; the library only carries it.
#[verifier::external_type_specification]
#[verifier::external_body]
pub struct ExBytes(Bytes);

/// `<bytes::Bytes as Clone>::clone`: the clone shares the buffer of the value it was cloned from, so it holds the
/// same bytes; the contract claims that the clone is the same value.
pub assume_specification[ <Bytes as Clone>::clone ](b: &Bytes) -> (r: Bytes)
    ensures
        r == *b,
;

/// Calls `time::OffsetDateTime::now_utc`, the current time in UTC. Nothing is claimed of the
/// result: it depends on the clock.
#[verifier::external_body]
pub(crate) fn now_utc() -> time::OffsetDateTime {
    time::OffsetDateTime::now_utc()
}

/// Calls `rand::Fill::try_fill` on 32 bytes with the thread-local generator. Nothing is claimed
/// of the bytes: they are random. The thread-local generator's `try_fill_bytes` always returns
/// `Ok` (its block generator fills and returns `Ok(())`), so the result is not inspected.
#[verifier::external_body]
pub(crate) fn random_id_bytes() -> [u8; 32] {
    let mut bytes = [0u8; 32];
    let _ = bytes.try_fill(&mut thread_rng());
    bytes
}

/// Calls `rand::seq::IteratorRandom::choose` on the identifiers of a bucket with the
/// thread-local generator. Its documentation: it returns `None` if and only if the iterator is
/// empty; otherwise it returns one of the iterator's items, picked at random. The contract claims
/// exactly that; which item is picked is left open.
#[verifier::external_body]
pub(crate) fn choose_id(bucket: &Vec<Id>) -> (chosen: Option<Id>)
    ensures
        chosen is None <==> bucket@.len() == 0,
        chosen matches Some(id) ==> bucket@.contains(id),
{
    bucket.iter().choose(&mut thread_rng()).copied()
}

/// Calls `rand::seq::SliceRandom::choose_multiple` on a list of addresses with the
/// thread-local generator. Its source picks `min(amount, len)` distinct indices of the slice at
/// random (`index::sample`) and yields the items at those indices. The contract claims the length
/// and that no item is taken more often than it occurs; which items, and their order, are left
/// open.
#[verifier::external_body]
pub(crate) fn choose_addrs(addrs: &Vec<PeerAddr>, amount: usize) -> (chosen: Vec<PeerAddr>)
    ensures
        chosen@.len() == if amount < addrs@.len() { amount as int } else { addrs@.len() as int },
        chosen@.to_multiset().subset_of(addrs@.to_multiset()),
{
    addrs.choose_multiple(&mut thread_rng(), amount).copied().collect()
}

} // verus!
