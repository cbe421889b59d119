//! The typed duplex channel: a pair of linked endpoints, each able to
//! send one message type and non-blockingly receive the other. It is the
//! one inter-thread primitive the system uses.
//!
//! What a send or receive returns depends on the thread at the other
//! end, so nothing more than the shape of the results can be promised
//! here; the routing decisions built on top are specified and proved in
//! the router.

use std::sync::mpsc::Receiver;
use std::sync::mpsc::SendError;
use std::sync::mpsc::Sender;
use std::sync::mpsc::TryRecvError;
use vstd::prelude::*;

verus! {

/// Declares std's mpsc sending half so that it can stand in fields; its
/// values are opaque here.
#[verifier::external_type_specification]
#[verifier::external_body]
#[verifier::reject_recursive_types(T)]
pub struct ExSender<T>(Sender<T>);

/// Declares std's mpsc receiving half so that it can stand in fields;
/// its values are opaque here.
#[verifier::external_type_specification]
#[verifier::external_body]
#[verifier::reject_recursive_types(T)]
pub struct ExReceiver<T>(Receiver<T>);

/// Declares std's send-failure value, which carries the unsent message.
#[verifier::external_type_specification]
#[verifier::external_body]
#[verifier::reject_recursive_types(T)]
pub struct ExSendError<T>(SendError<T>);

/// Declares std's non-blocking-receive failure value: the queue was
/// empty, or the sending half is gone.
#[verifier::external_type_specification]
#[verifier::external_body]
pub struct ExTryRecvError(TryRecvError);

/// Relies on std's mpsc channel constructor: it returns the two linked
/// halves of a queue.
pub assume_specification<T>[ std::sync::mpsc::channel::<T> ]() -> (r: (Sender<T>, Receiver<T>));

/// Relies on Sender::send: it queues the message for the receiving half
/// and fails only when that half is gone; which of the two happens
/// depends on the other thread.
pub assume_specification<T>[ Sender::<T>::send ](s: &Sender<T>, t: T) -> (r: Result<
    (),
    SendError<T>,
>);

/// Relies on Receiver::try_recv: it takes the oldest queued message
/// without blocking; what arrives depends on the sending thread.
pub assume_specification<T>[ Receiver::<T>::try_recv ](s: &Receiver<T>) -> (r: Result<
    T,
    TryRecvError,
>);

/// One half of a duplex channel: it sends `TOut` values to its partner
/// and receives the `TIn` values its partner sends.
#[verifier::reject_recursive_types(TOut)]
#[verifier::reject_recursive_types(TIn)]
pub struct Endpoint<TOut, TIn> {
    link_out: Sender<TOut>,
    link_in: Receiver<TIn>,
}

impl<TOut, TIn> Endpoint<TOut, TIn> {
    fn new(sender: Sender<TOut>, receiver: Receiver<TIn>) -> Endpoint<TOut, TIn> {
        Endpoint { link_out: sender, link_in: receiver }
    }

    /// Queues a message for the partner endpoint; fails only when the
    /// partner is gone.
    pub fn send(&self, message: TOut) -> Result<(), SendError<TOut>> {
        self.link_out.send(message)
    }

    /// Takes the oldest message the partner sent, without blocking.
    pub fn try_recv(&self) -> Result<TIn, TryRecvError> {
        self.link_in.try_recv()
    }
}

/// Builds a linked pair of endpoints: whatever one sends, the other can
/// receive, in order.
pub fn channel<T1, T2>() -> (Endpoint<T1, T2>, Endpoint<T2, T1>) {
    let (sender_t1, receiver_t1) = std::sync::mpsc::channel::<T1>();
    let (sender_t2, receiver_t2) = std::sync::mpsc::channel::<T2>();
    (Endpoint::new(sender_t1, receiver_t2), Endpoint::new(sender_t2, receiver_t1))
}

} // verus!
