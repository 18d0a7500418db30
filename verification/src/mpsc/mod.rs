//! A bounded channel with many senders and one receiver.
//!
//! [`bounded`] makes one ring and two handles on it. A handle never waits:
//! each call is one pass over the ring and says how it ended, so that the
//! caller decides how to wait (spin, yield, park) before the next pass.
//! Which end is still alive is read off the number of handles that share the
//! ring: a handle that finds itself the only one left has lost its peer.

pub mod cursor;
pub mod error;
pub mod laws;
pub mod protocol;
pub mod ring_buf;
pub mod safety;

pub use error::{RecvError, SendError, TryRecvError};

use cursor::is_power_of_two;
use ring_buf::{Push, RingBuf};
use std::sync::Arc;
use vstd::prelude::*;

verus! {

/// The sending side of a channel. Clone it to send from several threads.
pub struct Sender<T> {
    channel: Arc<RingBuf<T>>,
}

/// The receiving side of a channel. There is one, and one thread uses it.
pub struct Receiver<T> {
    channel: Arc<RingBuf<T>>,
}

/// How one step of a send ended, and with it what the sender does next.
pub enum SendStep<T> {
    /// The send is over, with this result: `Ok` if the value is in the ring,
    /// and if the receiver is gone the error that carries the value back.
    Over(Result<(), SendError<T>>),
    /// The ring was full. Yield the thread, then start again with
    /// [`Sender::start_send`].
    Full(T),
    /// Another thread was in the way. Spin, then go on with
    /// [`Sender::resume_send`].
    Contended(T),
}

impl<T> SendStep<T> {
    /// The value that the step hands back, if it did not enqueue it.
    pub open spec fn returned(self) -> Option<T> {
        match self {
            SendStep::Over(Ok(_)) => None,
            SendStep::Over(Err(e)) => Some(e.0),
            SendStep::Full(v) => Some(v),
            SendStep::Contended(v) => Some(v),
        }
    }

    /// What a pass over the ring means for the send that made it.
    pub open spec fn of_push(pass: Push<T>) -> SendStep<T> {
        match pass {
            Push::Done => SendStep::Over(Ok(())),
            Push::Full(v) => SendStep::Full(v),
            Push::Contended(v) => SendStep::Contended(v),
        }
    }

    /// Turns the outcome of a pass over the ring into the step of the send.
    pub fn after_push(pass: Push<T>) -> (step: SendStep<T>)
        ensures
            step == Self::of_push(pass),
    {
        match pass {
            Push::Done => SendStep::Over(Ok(())),
            Push::Full(v) => SendStep::Full(v),
            Push::Contended(v) => SendStep::Contended(v),
        }
    }
}

/// A handle that counts `holders` handles on its ring, itself included, has
/// no peer left when it counts one.
pub open spec fn is_alone(holders: nat) -> bool {
    holders == 1
}

/// What a receive reports when it found the ring empty and then counted
/// `holders` handles on it.
pub open spec fn empty_reason(holders: nat) -> TryRecvError {
    if is_alone(holders) {
        TryRecvError::Disconnected
    } else {
        TryRecvError::Empty
    }
}

/// Tells whether a handle that counted `holders` handles is the last one.
pub fn alone(holders: usize) -> (yes: bool)
    ensures
        yes == is_alone(holders as nat),
{
    holders == 1
}

/// Tells an empty channel from a dead one by the number of handles left.
pub fn why_empty(holders: usize) -> (reason: TryRecvError)
    ensures
        reason == empty_reason(holders as nat),
{
    if alone(holders) {
        TryRecvError::Disconnected
    } else {
        TryRecvError::Empty
    }
}

/// What an attempt means for a receive that waits: `Some` ends the receive
/// with that result, `None` tells it to yield and try again.
pub open spec fn recv_verdict<T>(attempt: Result<T, TryRecvError>) -> Option<Result<T, RecvError>> {
    match attempt {
        Ok(value) => Some(Ok(value)),
        Err(TryRecvError::Disconnected) => Some(Err(RecvError::Disconnected)),
        Err(TryRecvError::Empty) => None,
    }
}

/// Decides from one attempt whether a waiting receive is over.
pub fn settle<T>(attempt: Result<T, TryRecvError>) -> (verdict: Option<Result<T, RecvError>>)
    ensures
        verdict == recv_verdict(attempt),
{
    match attempt {
        Ok(value) => Some(Ok(value)),
        Err(TryRecvError::Disconnected) => Some(Err(RecvError::Disconnected)),
        Err(TryRecvError::Empty) => None,
    }
}

/// Counts the handles, senders and receiver together, that share the ring
/// right now, with `Arc::strong_count`. Handles come and go on other threads
/// while this runs, so nothing is promised of the number.
#[verifier::external_body]
fn holders<T>(channel: &Arc<RingBuf<T>>) -> (count: usize) {
    Arc::strong_count(channel)
}

/// Makes one more handle on the same ring, with `Arc::clone`: the new pointer
/// leads to the very allocation that `channel` leads to.
#[verifier::external_body]
fn share<T>(channel: &Arc<RingBuf<T>>) -> (other: Arc<RingBuf<T>>)
    ensures
        other == *channel,
{
    Arc::clone(channel)
}

/// Creates a channel that holds at most `cap` values in flight, and returns
/// its two ends. `cap` is a power of two; test it with
/// [`cursor::power_of_two`] where that is not known.
pub fn bounded<T>(cap: usize) -> (ends: (Sender<T>, Receiver<T>))
    requires
        is_power_of_two(cap as int),
    ensures
        ends.0.capacity() == cap,
        ends.1.capacity() == cap,
        ends.0.ring() == ends.1.ring(),
{
    let channel = Arc::new(RingBuf::new(cap));
    let sender = Sender { channel: share(&channel) };
    let receiver = Receiver { channel };
    (sender, receiver)
}

impl<T> Sender<T> {
    /// The ring that this handle sends into.
    pub closed spec fn ring(&self) -> RingBuf<T> {
        *self.channel
    }

    /// The number of values that the channel can hold.
    pub open spec fn capacity(&self) -> nat {
        self.ring().capacity()
    }

    /// First step of a send, and the step after a yield: fail if the receiver
    /// is gone, else make one pass over the ring. A value that got into the
    /// ring counts as sent even if the receiver goes away right after.
    ///
    /// The receiver's leaving shows to the last sender only: while another
    /// sender lives, each of them counts more than one handle.
    pub fn start_send(&self, value: T) -> (step: SendStep<T>)
        ensures
            step.returned() matches Some(v) ==> v == value,
    {
        // The count is a hint about the peer and orders no memory: what moves
        // the values safely is the ring's own protocol.
        if alone(holders(&self.channel)) {
            return SendStep::Over(Err(SendError(value)));
        }
        SendStep::after_push(self.channel.push(value))
    }

    /// The step after a spin: one more pass over the ring, without looking
    /// for the receiver again.
    pub fn resume_send(&self, value: T) -> (step: SendStep<T>)
        ensures
            step.returned() matches Some(v) ==> v == value,
            !(step matches SendStep::Over(Err(_))),
    {
        SendStep::after_push(self.channel.push(value))
    }
}

impl<T> Clone for Sender<T> {
    /// One more sender on the same channel.
    fn clone(&self) -> (other: Self)
        ensures
            other.ring() == self.ring(),
    {
        Sender { channel: share(&self.channel) }
    }
}

impl<T> Receiver<T> {
    /// The ring that this handle receives from.
    pub closed spec fn ring(&self) -> RingBuf<T> {
        *self.channel
    }

    /// The number of values that the channel can hold.
    pub open spec fn capacity(&self) -> nat {
        self.ring().capacity()
    }

    /// Attempts to receive a value without waiting: one look at the ring,
    /// and only if that found nothing, one count of the handles. In that
    /// order a value that was in the ring at the look is handed out even if
    /// the last sender has left by then. A value that a sender pushes between
    /// the look and the count, before it leaves, stays in the ring for the
    /// next attempt, whatever this one reports.
    pub fn try_recv(&self) -> (received: Result<T, TryRecvError>) {
        match self.channel.pop() {
            Some(value) => Ok(value),
            None => Err(why_empty(holders(&self.channel))),
        }
    }

    /// One step of a receive that waits: an attempt, and the verdict on it.
    /// On `None`, yield the thread and take the next step.
    pub fn recv_step(&self) -> (verdict: Option<Result<T, RecvError>>) {
        settle(self.try_recv())
    }
}

} // verus!
