//! In-process duplex channels between the roles, and the record of the
//! effects a role has had on the world.
use crate::message::{MessageView, ProtocolMessage};
use std::sync::mpsc::{Receiver, Sender};
use vstd::prelude::*;

verus! {

/// The sending half of a `std::sync::mpsc` channel, carried as is.
#[verifier::external_type_specification]
#[verifier::external_body]
#[verifier::reject_recursive_types(T)]
pub struct ExSender<T>(Sender<T>);

/// The receiving half of a `std::sync::mpsc` channel, carried as is.
#[verifier::external_type_specification]
#[verifier::external_body]
#[verifier::reject_recursive_types(T)]
pub struct ExReceiver<T>(Receiver<T>);

/// Something a role did that others can observe: a message written to its
/// log (or one the log refused), a message handed to the channel towards a peer (and whether the
/// channel took it), or a reply taken from a peer's channel (`None` when the
/// channel was found closed).
pub enum Effect {
    Logged { message: MessageView },
    LogRefused { message: MessageView },
    Sent { to: Seq<char>, message: MessageView, delivered: bool },
    Received { from: Seq<char>, message: Option<MessageView> },
}

pub open spec fn logged(message: MessageView) -> Effect {
    Effect::Logged { message }
}

pub open spec fn refused(message: MessageView) -> Effect {
    Effect::LogRefused { message }
}

pub open spec fn sent(to: Seq<char>, message: MessageView, delivered: bool) -> Effect {
    Effect::Sent { to, message, delivered }
}

pub open spec fn received(from: Seq<char>, message: Option<MessageView>) -> Effect {
    Effect::Received { from, message }
}

/// Relies on `std::sync::mpsc::channel`: a connected sender and receiver.
#[verifier::external_body]
pub(crate) fn channel_pair() -> (Sender<ProtocolMessage>, Receiver<ProtocolMessage>) {
    std::sync::mpsc::channel()
}

/// Relies on `Sender::send`, which fails only when the receiving end is gone.
#[verifier::external_body]
pub(crate) fn send_message(tx: &Sender<ProtocolMessage>, pm: ProtocolMessage) -> bool {
    tx.send(pm).is_ok()
}

/// Relies on `Receiver::recv`: blocks for the next message, `None` once the
/// sending end is gone.
#[verifier::external_body]
pub(crate) fn recv_message(rx: &Receiver<ProtocolMessage>) -> Option<ProtocolMessage> {
    rx.recv().ok()
}

/// Relies on `Receiver::try_recv`: the next message if one is waiting.
#[verifier::external_body]
pub(crate) fn try_recv_message(rx: &Receiver<ProtocolMessage>) -> Option<ProtocolMessage> {
    rx.try_recv().ok()
}

} // verus!
