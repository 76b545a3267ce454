//! The dispatch loop's decisions: what each message that a registered
//! connection delivers calls for.

use vstd::prelude::*;
use crate::message::{Message, MessageView};
use crate::registry::{ActivePeer, OpenConnections, PeerAddress, RegistryError};

verus! {

/// How many delivered messages may wait for the dispatch loop before the
/// connection handlers have to wait.
pub const INBOUND_QUEUE_BOUND: usize = 1024;

/// What a delivered message calls for.
#[derive(Debug, Clone, Copy, PartialEq, Eq, Structural)]
pub enum Reaction {
    /// A greeting outside the handshake: a protocol violation, to be
    /// reported and otherwise ignored.
    ProtocolViolation,
    /// A probe: answer `Pong` to the sender.
    ReplyPong,
    /// A reply to a probe: nothing to do but take note.
    Noted,
    /// A close request: remove the sender's entry and close the connection.
    CloseConnection,
}

/// The reaction that each message calls for.
pub open spec fn reaction_to(m: MessageView) -> Reaction {
    match m {
        MessageView::Hello { msg } => Reaction::ProtocolViolation,
        MessageView::Ping => Reaction::ReplyPong,
        MessageView::Pong => Reaction::Noted,
        MessageView::Terminate => Reaction::CloseConnection,
    }
}

/// Decides the reaction to one delivered message.
pub fn react(msg: &Message) -> (reaction: Reaction)
    ensures
        reaction == reaction_to(msg@),
{
    match msg {
        Message::Hello { msg } => Reaction::ProtocolViolation,
        Message::Ping => Reaction::ReplyPong,
        Message::Pong => Reaction::Noted,
        Message::Terminate => Reaction::CloseConnection,
    }
}

/// What the dispatch loop is to do after one message, with what it needs
/// from the registry to do it.
pub enum Dispatched<'a, W, T> {
    /// Report a greeting that came outside the handshake.
    Violation,
    /// Write the reply through the sender's write half.
    Reply(&'a mut W, Message),
    /// The sender is gone; report that the reply could not be sent.
    ReplyFailed(RegistryError),
    /// Take note of the reply to a probe.
    Noted,
    /// Fire the terminator with the write half, so that the connection's
    /// handler writes the final `Terminate` and shuts the socket down.
    Close(T, W),
    /// The sender asked to close, and its entry was already gone.
    AlreadyClosed,
}

/// Handles one message that `peer`'s connection delivered.
///
/// A greeting and a reply to a probe leave the registry alone. A probe
/// borrows the sender's write half for the reply `Pong`, or fails with
/// `NotAvailable` where the sender is not registered. A close request
/// removes the sender's entry and hands out its terminator and write half,
/// or finds the entry gone.
pub fn dispatch<'a, W, T>(
    registry: &'a mut OpenConnections<W, T>,
    msg: Message,
    peer: PeerAddress,
) -> (done: Dispatched<'a, W, T>)
    requires
        old(registry).well_formed(),
    ensures
        final(registry).well_formed(),
        match reaction_to(msg@) {
            Reaction::ProtocolViolation => done is Violation && final(registry)@ == old(registry)@,
            Reaction::Noted => done is Noted && final(registry)@ == old(registry)@,
            Reaction::ReplyPong => if old(registry).can_send(peer) {
                &&& done matches Dispatched::Reply(writer, reply)
                &&& reply == Message::Pong
                &&& *writer == old(registry)@[peer].writer
                &&& final(registry)@ == old(registry)@.insert(
                    peer,
                    ActivePeer {
                        adr: peer,
                        terminator: old(registry)@[peer].terminator,
                        writer: *final(writer),
                    },
                )
            } else {
                &&& done matches Dispatched::ReplyFailed(e)
                &&& e == RegistryError::NotAvailable(peer)
                &&& final(registry)@ == old(registry)@
            },
            Reaction::CloseConnection => {
                &&& final(registry)@ == old(registry)@.remove(peer)
                &&& if old(registry).can_send(peer) {
                    &&& done matches Dispatched::Close(terminator, writer)
                    &&& terminator == old(registry)@[peer].terminator
                    &&& writer == old(registry)@[peer].writer
                } else {
                    done is AlreadyClosed
                }
            },
        },
{
    match react(&msg) {
        Reaction::ProtocolViolation => Dispatched::Violation,
        Reaction::Noted => Dispatched::Noted,
        Reaction::ReplyPong => match registry.send(peer, Message::Pong) {
            Ok((writer, reply)) => Dispatched::Reply(writer, reply),
            Err(e) => Dispatched::ReplyFailed(e),
        },
        Reaction::CloseConnection => match registry.remove(&peer) {
            Some(entry) => {
                let (terminator, writer) = entry.close();
                Dispatched::Close(terminator, writer)
            },
            None => Dispatched::AlreadyClosed,
        },
    }
}

} // verus!
