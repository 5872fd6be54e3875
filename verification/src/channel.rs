//! The channel that carries changes of reference counts from the handles,
//! on whatever thread they live, to the tracker.

use crossbeam::channel::Receiver;
use crossbeam::channel::Sender;
use vstd::prelude::*;

use crate::tracking::RefOp;

verus! {

/// The sending side of a crossbeam channel. Verus does not look into it.
#[verifier::external_type_specification]
#[verifier::external_body]
#[verifier::reject_recursive_types(Msg)]
pub struct ExSender<Msg>(Sender<Msg>);

/// The receiving side of a crossbeam channel. Verus does not look into it.
#[verifier::external_type_specification]
#[verifier::external_body]
#[verifier::reject_recursive_types(Msg)]
pub struct ExReceiver<Msg>(Receiver<Msg>);

/// A new channel without bound on the messages it holds.
///
/// Wraps `crossbeam::channel::unbounded`. What a channel holds is shared
/// between threads and changes under the hands of whoever looks at it, so no
/// contract speaks of it.
#[verifier::external_body]
pub(crate) fn ref_channel() -> (ends: (Sender<RefOp>, Receiver<RefOp>)) {
    crossbeam::channel::unbounded()
}

/// Sends one change of a reference count; says whether the channel took it.
///
/// Wraps `Sender::send`, which on a channel without bound does not block and
/// fails only when every receiver is gone.
#[verifier::external_body]
pub(crate) fn send_ref_op(sender: &Sender<RefOp>, op: RefOp) -> (sent: bool) {
    sender.send(op).is_ok()
}

/// Another sender for the same channel. Wraps `Sender::clone`.
#[verifier::external_body]
pub(crate) fn clone_sender(sender: &Sender<RefOp>) -> (other: Sender<RefOp>) {
    sender.clone()
}

/// Takes out the changes that have arrived, in the order of their arrival,
/// without waiting for more.
///
/// Wraps `Receiver::try_iter`, collected into a vector. Which changes have
/// arrived depends on the other threads, so nothing is promised of them.
#[verifier::external_body]
pub(crate) fn pending_ref_ops(receiver: &Receiver<RefOp>) -> (ops: Vec<RefOp>) {
    receiver.try_iter().collect()
}

} // verus!
