use crate::request::Request;
use vstd::prelude::*;

verus! {

#[verifier::external_type_specification]
#[verifier::external_body]
#[verifier::reject_recursive_types(T)]
pub struct ExSender<T>(tokio::sync::broadcast::Sender<T>);

#[verifier::external_type_specification]
#[verifier::external_body]
#[verifier::reject_recursive_types(T)]
pub struct ExReceiver<T>(tokio::sync::broadcast::Receiver<T>);

/// Relies on tokio::sync::broadcast::channel: makes a fresh broadcast
/// channel with room for `capacity` values per receiver (rounded up to the
/// next power of two) and keeps only the sending half. tokio panics on a
/// capacity of zero or above
/// `usize::MAX / 2`, so those are excluded here. Nothing is promised of the
/// returned sender: it is opaque to the verified code.
#[verifier::external_body]
pub(crate) fn new_sender(capacity: usize) -> tokio::sync::broadcast::Sender<Request>
    requires
        1 <= capacity <= usize::MAX / 2,
{
    tokio::sync::broadcast::channel(capacity).0
}

/// Relies on tokio::sync::broadcast::Sender::send: offers the value to every
/// attached receiver's buffer, best effort. The result — the receiver count,
/// or the value back when no receiver is attached — is deliberately dropped:
/// publication cannot fail from the inserting caller's perspective, and a
/// slow receiver sees lag on its own side instead of blocking this one.
#[verifier::external_body]
pub(crate) fn broadcast_send(
    sender: &tokio::sync::broadcast::Sender<Request>,
    request: Request,
) {
    let _ = sender.send(request);
}

/// Relies on tokio::sync::broadcast::Sender::subscribe: attaches a fresh
/// receiver that will see every value sent after this call. What the
/// receiver yields later depends on concurrent sends, so nothing is promised
/// of it here.
#[verifier::external_body]
pub(crate) fn broadcast_subscribe(
    sender: &tokio::sync::broadcast::Sender<Request>,
) -> tokio::sync::broadcast::Receiver<Request> {
    sender.subscribe()
}

} // verus!
