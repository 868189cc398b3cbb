//! # Streams
//!
//! `ShellStream` and `UserStream`: the two ends of the channels between the shell and its
//! "user". What arrives on a channel depends on the other end, so the receiving functions
//! are verified for every sequence of arrivals.

use crate::{ShellStreamMessage, UserStreamMessage};
use std::sync::mpsc::{Receiver, Sender};
use vstd::prelude::*;

verus! {

#[verifier::external_type_specification]
#[verifier::external_body]
#[verifier::reject_recursive_types(T)]
pub struct ExSender<T>(Sender<T>);

#[verifier::external_type_specification]
#[verifier::external_body]
#[verifier::reject_recursive_types(T)]
pub struct ExReceiver<T>(Receiver<T>);

/// What one attempt to receive from a channel gives.
pub enum Received<T> {
    Message(T),
    Empty,
    Disconnected,
}

/// Creates a channel (`std::sync::mpsc::channel`). Nothing is stated of the result.
#[verifier::external_body]
pub(crate) fn channel<T>() -> (Sender<T>, Receiver<T>) {
    std::sync::mpsc::channel()
}

/// Receives one message without blocking (`Receiver::try_recv`): a message, nothing
/// pending, or a channel whose sending end is gone. What comes back depends on the other
/// end, so nothing is stated of it.
#[verifier::external_body]
pub(crate) fn try_receive<T>(receiver: &Receiver<T>) -> Received<T> {
    match receiver.try_recv() {
        Ok(m) => Received::Message(m),
        Err(std::sync::mpsc::TryRecvError::Empty) => Received::Empty,
        Err(std::sync::mpsc::TryRecvError::Disconnected) => Received::Disconnected,
    }
}

/// Waits for one message (`Receiver::recv`): the message, or nothing when the sending end
/// is gone. What comes back depends on the other end, so nothing is stated of it.
#[verifier::external_body]
pub(crate) fn receive_one<T>(receiver: &Receiver<T>) -> Option<T> {
    match receiver.recv() {
        Ok(m) => Some(m),
        Err(_) => None,
    }
}

/// Sends a message (`Sender::send`): `true` when it was queued, `false` when the receiving
/// end is gone. Which of the two happens depends on the other end, so nothing is stated.
#[verifier::external_body]
pub(crate) fn send_on<T>(sender: &Sender<T>, message: T) -> bool {
    sender.send(message).is_ok()
}

/// Receives every message waiting on `receiver`, in arrival order: `Ok` with the messages
/// once nothing more is pending, `Err` when the sending end is gone. An empty inbox is no
/// error. At most `usize::MAX` messages are taken in one call, the most a vector holds.
pub fn drain<T>(receiver: &Receiver<T>) -> (r: Result<Vec<T>, ()>)
    ensures
        r matches Ok(inbox) ==> inbox@.len() <= usize::MAX,
{
    let mut inbox: Vec<T> = Vec::new();
    while inbox.len() < usize::MAX
        decreases usize::MAX - inbox@.len(),
    {
        match try_receive(receiver) {
            Received::Message(m) => inbox.push(m),
            Received::Empty => {
                return Ok(inbox);
            },
            Received::Disconnected => {
                return Err(());
            },
        }
    }
    Ok(inbox)
}

/// ## ShellStream
///
/// The shell's end: receives the user's messages, sends the shell's.
pub struct ShellStream {
    receiver: Receiver<UserStreamMessage>,
    sender: Sender<ShellStreamMessage>,
}

/// ## UserStream
///
/// The user's end: receives the shell's messages, sends the user's.
pub struct UserStream {
    receiver: Receiver<ShellStreamMessage>,
    sender: Sender<UserStreamMessage>,
}

/// ## new_streams
///
/// A new pair of connected streams.
pub fn new_streams() -> (ShellStream, UserStream) {
    let (sstream_sender, sstream_receiver) = channel::<ShellStreamMessage>();
    let (ustream_sender, ustream_receiver) = channel::<UserStreamMessage>();
    let sstream = ShellStream::new(ustream_receiver, sstream_sender);
    let ustream = UserStream::new(sstream_receiver, ustream_sender);
    (sstream, ustream)
}

impl ShellStream {
    /// The end this stream receives on.
    pub closed spec fn receiver_end(&self) -> Receiver<UserStreamMessage> {
        self.receiver
    }

    /// The end this stream sends on.
    pub closed spec fn sender_end(&self) -> Sender<ShellStreamMessage> {
        self.sender
    }

    /// ### new
    pub(crate) fn new(receiver: Receiver<UserStreamMessage>, sender: Sender<ShellStreamMessage>) -> (s: ShellStream)
        ensures
            s.receiver_end() == receiver,
            s.sender_end() == sender,
    {
        ShellStream { receiver, sender }
    }

    /// ### receive
    ///
    /// Receives the user's pending messages; an empty inbox is no error, a hung-up user
    /// stream is.
    pub fn receive(&self) -> (r: Result<Vec<UserStreamMessage>, ()>) {
        drain(&self.receiver)
    }

    /// Waits until the user sends something, then receives every pending message: at least
    /// one, in arrival order. `Err` when the user stream hung up.
    pub fn receive_blocking(&self) -> (r: Result<Vec<UserStreamMessage>, ()>)
        ensures
            r matches Ok(inbox) ==> inbox@.len() >= 1,
    {
        match receive_one(&self.receiver) {
            None => Err(()),
            Some(first) => {
                let mut inbox: Vec<UserStreamMessage> = Vec::new();
                inbox.push(first);
                match drain(&self.receiver) {
                    Ok(rest) => {
                        let mut rest = rest;
                        inbox.append(&mut rest);
                        Ok(inbox)
                    },
                    Err(()) => Ok(inbox),
                }
            },
        }
    }

    /// ### send
    ///
    /// Sends a message to the user stream; `false` when it hung up.
    pub fn send(&self, message: ShellStreamMessage) -> (r: bool) {
        send_on(&self.sender, message)
    }
}

impl UserStream {
    /// The end this stream receives on.
    pub closed spec fn receiver_end(&self) -> Receiver<ShellStreamMessage> {
        self.receiver
    }

    /// The end this stream sends on.
    pub closed spec fn sender_end(&self) -> Sender<UserStreamMessage> {
        self.sender
    }

    /// ### new
    pub(crate) fn new(receiver: Receiver<ShellStreamMessage>, sender: Sender<UserStreamMessage>) -> (s: UserStream)
        ensures
            s.receiver_end() == receiver,
            s.sender_end() == sender,
    {
        UserStream { receiver, sender }
    }

    /// ### receive
    ///
    /// Receives the shell's pending messages; an empty inbox is no error, a hung-up shell
    /// stream is.
    pub fn receive(&self) -> (r: Result<Vec<ShellStreamMessage>, ()>) {
        drain(&self.receiver)
    }

    /// ### send
    ///
    /// Sends a message to the shell stream; `false` when it hung up.
    pub fn send(&self, message: UserStreamMessage) -> (r: bool) {
        send_on(&self.sender, message)
    }
}

} // verus!
