//! What this library takes on trust about tokio's channels: the broadcast
//! channel over which events reach the sessions, and the queue from which
//! the runner takes its commands. Nothing here is proved.
//!
//! The broadcast channel keeps a bounded number of values. A receiver that
//! falls behind by more than that loses the oldest ones and is told so: the
//! sender is never held up. A value sent while nobody is subscribed is
//! dropped.

use crate::status_updater::OrderPublish;
use tokio::sync::broadcast::{Receiver, Sender};
use vstd::prelude::*;

verus! {

/// `tokio::sync::broadcast::Sender`: the sending half of a broadcast
/// channel. What is in the channel is shared with other handles, so nothing
/// is said of it.
#[verifier::external_type_specification]
#[verifier::external_body]
#[verifier::reject_recursive_types(T)]
pub struct ExBroadcastSender<T>(tokio::sync::broadcast::Sender<T>);

/// `tokio::sync::broadcast::Receiver`: one subscription to a broadcast
/// channel.
#[verifier::external_type_specification]
#[verifier::external_body]
#[verifier::reject_recursive_types(T)]
pub struct ExBroadcastReceiver<T>(tokio::sync::broadcast::Receiver<T>);

/// `tokio::sync::broadcast::SendError`: the value that could not be sent.
#[verifier::external_type_specification]
#[verifier::external_body]
#[verifier::reject_recursive_types(T)]
pub struct ExBroadcastSendError<T>(tokio::sync::broadcast::SendError<T>);

/// `tokio::sync::mpsc::Receiver`: the receiving half of the bounded command
/// queue.
#[verifier::external_type_specification]
#[verifier::external_body]
#[verifier::reject_recursive_types(T)]
pub struct ExQueueReceiver<T>(tokio::sync::mpsc::Receiver<T>);

/// `tokio::sync::broadcast::channel`: makes a channel that keeps up to
/// `capacity` values, rounded up to a power of two. It panics on a capacity
/// of zero or of more than half of `usize::MAX`, so those are left out.
pub assume_specification<T>[ tokio::sync::broadcast::channel::<T> ](capacity: usize) -> (halves: (
    tokio::sync::broadcast::Sender<T>,
    tokio::sync::broadcast::Receiver<T>,
))
    requires
        0 < capacity <= usize::MAX / 2,
;

/// `tokio::sync::broadcast::Sender::send`: hands `value` to every receiver
/// that is subscribed now. It fails exactly when there is none; on success
/// it returns how many there are, which is then at least one.
pub assume_specification<T>[ tokio::sync::broadcast::Sender::<T>::send ](
    sender: &tokio::sync::broadcast::Sender<T>,
    value: T,
) -> (sent: Result<usize, tokio::sync::broadcast::SendError<T>>)
    ensures
        sent matches Ok(receivers) ==> receivers >= 1,
;

/// The channel that a sending handle belongs to, as a number that stands
/// for it. Nothing is said of the number itself: it only tells handles of
/// one channel from handles of another.
pub uninterp spec fn hub_of(sender: Sender<OrderPublish>) -> int;

/// The channel that a subscription listens to, as the number that stands
/// for it.
pub uninterp spec fn source_of(receiver: Receiver<OrderPublish>) -> int;

/// `tokio::sync::broadcast::Sender::subscribe`: a new receiver on the
/// channel of `sender`, which gets the values sent on it after this call.
/// The source builds the receiver on the shared state of the sender, which
/// is all that the clause claims. It panics once a quarter of `usize::MAX`
/// receivers exist at the same time, which no machine can hold.
#[verifier::external_body]
pub(crate) fn subscribe_to(sender: &Sender<OrderPublish>) -> (receiver: Receiver<OrderPublish>)
    ensures
        source_of(receiver) == hub_of(*sender),
{
    sender.subscribe()
}

/// `Clone` for `tokio::sync::broadcast::Sender`: another handle to the
/// channel of `sender`. The source builds the new handle on the same shared
/// state, which is all that the clause claims.
#[verifier::external_body]
pub(crate) fn another_handle(sender: &Sender<OrderPublish>) -> (handle: Sender<OrderPublish>)
    ensures
        hub_of(handle) == hub_of(*sender),
{
    sender.clone()
}

} // verus!
