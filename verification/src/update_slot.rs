//! Single-slot channels that carry live updates to a running generator or
//! executor.
//!
//! A slot holds one update at most: the newest. Its sender waits while an
//! earlier update has not been taken, so no update is overwritten or
//! dropped; its receiver takes an update without waiting.

use vstd::prelude::*;

verus! {

/// `flume::Sender`, the sending end of a channel. It is carried through and
/// never looked into.
#[verifier::external_type_specification]
#[verifier::external_body]
#[verifier::reject_recursive_types(T)]
pub struct ExSender<T>(flume::Sender<T>);

/// `flume::Receiver`, the receiving end of a channel. It is carried through
/// and never looked into.
#[verifier::external_type_specification]
#[verifier::external_body]
#[verifier::reject_recursive_types(T)]
pub struct ExReceiver<T>(flume::Receiver<T>);

/// The number of updates that a slot holds.
pub const SLOT_CAPACITY: usize = 1;

/// Opens a fresh channel with `flume::bounded` and gives its two ends.
/// Nothing is claimed of them here: what a channel holds depends on every
/// thread that has one of its ends.
#[verifier::external_body]
pub(crate) fn bounded_channel<T>(capacity: usize) -> (ends: (
    flume::Sender<T>,
    flume::Receiver<T>,
)) {
    flume::bounded(capacity)
}

/// Takes the message that waits in a channel, if there is one, with
/// `flume::Receiver::try_recv`, which does not wait. An empty channel gives
/// `None`, whether its senders are still there or not. Nothing is claimed of
/// the result: whether a message waits depends on the threads that send.
#[verifier::external_body]
pub(crate) fn take_update<T>(receiver: &flume::Receiver<T>) -> (update: Option<T>) {
    receiver.try_recv().ok()
}

/// Opens a fresh slot and gives its two ends.
pub(crate) fn open_slot<T>() -> (ends: (flume::Sender<T>, flume::Receiver<T>)) {
    bounded_channel(SLOT_CAPACITY)
}

} // verus!
