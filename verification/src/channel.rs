//! The bounded channels between the codec and the raw side.
//!
//! The channels are those of the crate `async_channel`. Nothing in this
//! module is proved: it says what this library takes for granted of that
//! crate. Whether a message can be sent, and whether one is waiting, depends
//! on what the other end of the channel has done, so the results of
//! [`try_send`] and [`try_recv`] are promised nothing: the code that calls
//! them is verified for every answer.
use crate::error::Error;
use async_channel::{Receiver, Sender, TryRecvError, TrySendError};
use vstd::prelude::*;

verus! {

/// `async_channel::Sender`, the sending end of a channel.
#[verifier::external_type_specification]
#[verifier::external_body]
#[verifier::reject_recursive_types(T)]
pub struct ExSender<T>(Sender<T>);

/// `async_channel::Receiver`, the receiving end of a channel.
#[verifier::external_type_specification]
#[verifier::external_body]
#[verifier::reject_recursive_types(T)]
pub struct ExReceiver<T>(Receiver<T>);

/// The number of messages that each channel of a codec can hold.
pub const CHANNEL_CAPACITY: usize = 64;

/// What became of a message that was offered to a channel.
#[derive(Debug, PartialEq, Eq, Clone, Copy, Structural)]
pub enum Sent {
    /// The channel took the message.
    Done,
    /// The channel holds as many messages as it can; the message is lost.
    Full,
    /// The channel is closed; the message is lost.
    Closed,
}

/// What a channel had to give.
pub enum Received {
    /// The oldest message that was waiting.
    Chunk(Vec<u8>),
    /// No message is waiting.
    Empty,
    /// No message is waiting and the channel is closed.
    Closed,
}

/// How a read goes on after an answer of the channel.
#[derive(Debug, PartialEq, Eq, Clone, Copy, Structural)]
pub enum Flow {
    /// The channel may hold more, and there is use for it: ask again.
    More,
    /// The read is over, and hands out what it has.
    Done,
    /// The read is over, and fails.
    Failed(Error),
}

/// `async_channel::bounded`: a channel that holds at most `cap` messages.
/// The call panics for a capacity of zero, which the precondition excludes.
#[verifier::external_body]
pub(crate) fn bounded(cap: usize) -> (ends: (Sender<Vec<u8>>, Receiver<Vec<u8>>))
    requires
        cap > 0,
{
    async_channel::bounded(cap)
}

/// `async_channel::Sender::try_send`: offers a message to the channel
/// without waiting. The answer tells the three cases of the call apart.
#[verifier::external_body]
pub(crate) fn try_send(tx: &Sender<Vec<u8>>, msg: Vec<u8>) -> (r: Sent) {
    match tx.try_send(msg) {
        Ok(()) => Sent::Done,
        Err(TrySendError::Full(_)) => Sent::Full,
        Err(TrySendError::Closed(_)) => Sent::Closed,
    }
}

/// `async_channel::Receiver::try_recv`: takes the oldest waiting message
/// from the channel without waiting. The answer tells the three cases of the
/// call apart.
#[verifier::external_body]
pub(crate) fn try_recv(rx: &Receiver<Vec<u8>>) -> (r: Received) {
    match rx.try_recv() {
        Ok(chunk) => Received::Chunk(chunk),
        Err(TryRecvError::Empty) => Received::Empty,
        Err(TryRecvError::Closed) => Received::Closed,
    }
}

} // verus!
