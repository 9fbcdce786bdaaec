//! Queues of messages that wait for somebody to take them.
use vstd::prelude::*;

use async_std::channel::{Receiver, Sender};

use crate::rustbus_core::message_builder::{MarshalledMessage, MessageView};

verus! {

/// The sending side of a channel of `async_channel`, which `async_std` exports.
#[verifier::external_type_specification]
#[verifier::external_body]
#[verifier::reject_recursive_types(T)]
pub struct ExSender<T>(async_std::channel::Sender<T>);

/// The receiving side of a channel of `async_channel`, which `async_std` exports.
#[verifier::external_type_specification]
#[verifier::external_body]
#[verifier::reject_recursive_types(T)]
pub struct ExReceiver<T>(async_std::channel::Receiver<T>);

/// Which channel a sender puts messages into.
pub uninterp spec fn sender_channel(sender: Sender<MarshalledMessage>) -> int;

/// Which channel a receiver takes messages from.
pub uninterp spec fn receiver_channel(receiver: Receiver<MarshalledMessage>) -> int;

/// Whether, at any time, `Sender::try_send` was called with the message on the channel, and the
/// channel took it, or gave it back, as `taken` says.
pub uninterp spec fn offered(channel: int, msg: MessageView, taken: bool) -> bool;

/// How many messages a channel was made to hold at most. `None` where there is no limit.
pub uninterp spec fn limit(channel: int) -> Option<nat>;

/// Calls `async_channel::unbounded`: both sides belong to one channel, which was made without a
/// limit.
#[verifier::external_body]
fn new_channel() -> (sides: (Sender<MarshalledMessage>, Receiver<MarshalledMessage>))
    ensures
        sender_channel(sides.0) == receiver_channel(sides.1),
        limit(sender_channel(sides.0)) is None,
{
    async_std::channel::unbounded()
}

/// Calls `Sender::try_send`: puts the message into the channel, or gives it back where the
/// channel takes no more messages. Which of the two depends on the receivers, and other tasks
/// take messages out at any time, so nothing is stated of when the channel takes a message, nor
/// of what it holds afterwards.
#[verifier::external_body]
fn try_send(sender: &Sender<MarshalledMessage>, msg: MarshalledMessage) -> (result: Result<
    (),
    MarshalledMessage,
>)
    ensures
        offered(sender_channel(*sender), msg@, result is Ok),
        result matches Err(back) ==> back == msg,
{
    sender.try_send(msg).map_err(|e| e.into_inner())
}

/// Calls `Receiver::clone`: another receiver of the same channel.
#[verifier::external_body]
fn clone_receiver(receiver: &Receiver<MarshalledMessage>) -> (another: Receiver<MarshalledMessage>)
    ensures
        receiver_channel(another) == receiver_channel(*receiver),
{
    receiver.clone()
}

/// A queue of messages.
#[derive(Debug)]
pub struct MsgQueue {
    sender: Sender<MarshalledMessage>,
    recv: Receiver<MarshalledMessage>,
}

impl MsgQueue {
    #[verifier::type_invariant]
    spec fn inv(self) -> bool {
        sender_channel(self.sender) == receiver_channel(self.recv)
    }

    /// The channel behind the queue.
    pub closed spec fn channel(self) -> int {
        sender_channel(self.sender)
    }

    /// A queue without messages. It takes any number of them.
    pub fn new() -> (queue: Self)
        ensures
            limit(queue.channel()) is None,
    {
        let (sender, recv) = new_channel();
        MsgQueue { sender, recv }
    }

    /// A receiver that takes messages from the queue.
    pub fn get_receiver(&self) -> (receiver: Receiver<MarshalledMessage>)
        ensures
            receiver_channel(receiver) == self.channel(),
    {
        proof {
            use_type_invariant(self);
        }
        clone_receiver(&self.recv)
    }

    /// Puts a message into the queue. Where a receiver closed the queue, the message comes
    /// back.
    pub fn send(&self, msg: MarshalledMessage) -> (result: Result<(), MarshalledMessage>)
        ensures
            offered(self.channel(), msg@, result is Ok),
            result matches Err(back) ==> back == msg,
    {
        try_send(&self.sender, msg)
    }
}

} // verus!
