//! The connection handler's decisions.
//!
//! A handler owns the read half of one connection. Whoever drives it performs
//! the socket work and reports each outcome as an event; the table here
//! answers with the next state and with what to do next.

use vstd::prelude::*;
use crate::message::{Message, MessageView};

verus! {

/// The greeting that a handler sends when a connection opens.
pub fn greeting() -> (hello: Message)
    ensures
        hello@ == (MessageView::Hello { msg: "Hello from me"@ }),
{
    Message::Hello { msg: "Hello from me".to_owned() }
}

/// The message that a handler writes last, before it shuts the socket down.
pub fn farewell() -> (last: Message)
    ensures
        last == Message::Terminate,
{
    Message::Terminate
}

/// Where a connection stands in its life.
#[derive(Debug, Clone, Copy, PartialEq, Eq, Structural)]
pub enum ConnectionState {
    /// A raw socket, not yet wrapped by the codec.
    Connecting,
    /// Waiting for the peer's greeting.
    AwaitingHandshake,
    /// In the registry; the read half races the terminator.
    Registered,
    /// On the way out; the registry entry may still exist.
    Closing,
    /// Done.
    Closed,
}

/// What the driver reports.
#[derive(Debug)]
pub enum ConnectionEvent {
    /// The socket has been wrapped and split into its two halves.
    Opened,
    /// The handler's own greeting has been written.
    HelloSent,
    /// Writing the handler's own greeting failed.
    HelloFailed,
    /// The read half gave a message.
    Received(Message),
    /// The read half gave a transport error or a frame that spells no
    /// message.
    ReadFailed,
    /// The read half came to its end.
    EndOfStream,
    /// The terminator fired: the write half is back with the handler.
    TerminatorFired,
    /// The terminator was dropped without firing.
    TerminatorLost,
    /// The final write and the shutdown have been attempted.
    ShutDown,
    /// The registry entry has been removed, or was found gone.
    Unregistered,
}

/// What the driver is to do next.
#[derive(Debug)]
pub enum ConnectionAction {
    /// Write the handler's own greeting, [`greeting`], on the write half.
    SendHello,
    /// Wait for the first message on the read half.
    AwaitHello,
    /// Put the write half and a fresh terminator into the registry, then
    /// wait for the read half or the terminator, whichever comes first.
    Register,
    /// Hand the message to the dispatch loop, then wait again.
    Forward(Message),
    /// Write one final message, [`farewell`], on the write half that came
    /// back, reunite the halves and shut the socket down in both directions.
    FinalWriteAndShutdown,
    /// Remove the connection's registry entry if it is still there.
    Unregister,
    /// Report a failed handshake and drop the connection.
    Abandon,
    /// Nothing more; the handler ends.
    Stop,
    /// The event does not belong to the state; do nothing.
    Ignore,
}

/// The handler's table: the state after `event` in `state`, and the action.
pub open spec fn transition(state: ConnectionState, event: ConnectionEvent) -> (
    ConnectionState,
    ConnectionAction,
) {
    match state {
        ConnectionState::Connecting => match event {
            ConnectionEvent::Opened => (
                ConnectionState::AwaitingHandshake,
                ConnectionAction::SendHello,
            ),
            _ => (ConnectionState::Connecting, ConnectionAction::Ignore),
        },
        ConnectionState::AwaitingHandshake => match event {
            ConnectionEvent::HelloSent => (
                ConnectionState::AwaitingHandshake,
                ConnectionAction::AwaitHello,
            ),
            ConnectionEvent::Received(Message::Hello { msg }) => (
                ConnectionState::Registered,
                ConnectionAction::Register,
            ),
            ConnectionEvent::HelloFailed
            | ConnectionEvent::Received(_)
            | ConnectionEvent::ReadFailed
            | ConnectionEvent::EndOfStream => (ConnectionState::Closed, ConnectionAction::Abandon),
            _ => (ConnectionState::AwaitingHandshake, ConnectionAction::Ignore),
        },
        ConnectionState::Registered => match event {
            ConnectionEvent::Received(m) => (
                ConnectionState::Registered,
                ConnectionAction::Forward(m),
            ),
            ConnectionEvent::TerminatorFired => (
                ConnectionState::Closing,
                ConnectionAction::FinalWriteAndShutdown,
            ),
            ConnectionEvent::ReadFailed
            | ConnectionEvent::EndOfStream
            | ConnectionEvent::TerminatorLost => (
                ConnectionState::Closing,
                ConnectionAction::Unregister,
            ),
            _ => (ConnectionState::Registered, ConnectionAction::Ignore),
        },
        ConnectionState::Closing => match event {
            ConnectionEvent::Unregistered => (ConnectionState::Closed, ConnectionAction::Stop),
            _ => (ConnectionState::Closing, ConnectionAction::Unregister),
        },
        ConnectionState::Closed => (ConnectionState::Closed, ConnectionAction::Stop),
    }
}

/// Whether an action writes to the connection's socket.
pub open spec fn writes(action: ConnectionAction) -> bool {
    action is SendHello || action is FinalWriteAndShutdown
}

/// Whether an action shuts the connection's socket down.
pub open spec fn shuts_down(action: ConnectionAction) -> bool {
    action is FinalWriteAndShutdown
}

/// The state after a run of events.
pub open spec fn state_after(state: ConnectionState, events: Seq<ConnectionEvent>)
    -> ConnectionState
    decreases events.len(),
{
    if events.len() == 0 {
        state
    } else {
        transition(state_after(state, events.drop_last()), events.last()).0
    }
}

/// The actions that a run of events draws, one per event.
pub open spec fn actions_of(state: ConnectionState, events: Seq<ConnectionEvent>) -> Seq<
    ConnectionAction,
>
    decreases events.len(),
{
    if events.len() == 0 {
        Seq::empty()
    } else {
        actions_of(state, events.drop_last()).push(
            transition(state_after(state, events.drop_last()), events.last()).1,
        )
    }
}

/// The handler's decision on one event.
pub fn on_event(state: ConnectionState, event: ConnectionEvent) -> (next: (
    ConnectionState,
    ConnectionAction,
))
    ensures
        next == transition(state, event),
{
    match state {
        ConnectionState::Connecting => match event {
            ConnectionEvent::Opened => (
                ConnectionState::AwaitingHandshake,
                ConnectionAction::SendHello,
            ),
            _ => (ConnectionState::Connecting, ConnectionAction::Ignore),
        },
        ConnectionState::AwaitingHandshake => match event {
            ConnectionEvent::HelloSent => (
                ConnectionState::AwaitingHandshake,
                ConnectionAction::AwaitHello,
            ),
            ConnectionEvent::Received(m) => match m {
                Message::Hello { msg } => (ConnectionState::Registered, ConnectionAction::Register),
                _ => (ConnectionState::Closed, ConnectionAction::Abandon),
            },
            ConnectionEvent::HelloFailed
            | ConnectionEvent::ReadFailed
            | ConnectionEvent::EndOfStream => (ConnectionState::Closed, ConnectionAction::Abandon),
            _ => (ConnectionState::AwaitingHandshake, ConnectionAction::Ignore),
        },
        ConnectionState::Registered => match event {
            ConnectionEvent::Received(m) => (
                ConnectionState::Registered,
                ConnectionAction::Forward(m),
            ),
            ConnectionEvent::TerminatorFired => (
                ConnectionState::Closing,
                ConnectionAction::FinalWriteAndShutdown,
            ),
            ConnectionEvent::ReadFailed
            | ConnectionEvent::EndOfStream
            | ConnectionEvent::TerminatorLost => (
                ConnectionState::Closing,
                ConnectionAction::Unregister,
            ),
            _ => (ConnectionState::Registered, ConnectionAction::Ignore),
        },
        ConnectionState::Closing => match event {
            ConnectionEvent::Unregistered => (ConnectionState::Closed, ConnectionAction::Stop),
            _ => (ConnectionState::Closing, ConnectionAction::Unregister),
        },
        ConnectionState::Closed => (ConnectionState::Closed, ConnectionAction::Stop),
    }
}

/// Whether a state lies behind the registered phase.
pub open spec fn is_leaving(state: ConnectionState) -> bool {
    state is Closing || state is Closed
}

/// A handler that is leaving stays leaving, and writes nothing.
pub proof fn lemma_leaving_is_silent(state: ConnectionState, events: Seq<ConnectionEvent>)
    requires
        is_leaving(state),
    ensures
        is_leaving(state_after(state, events)),
        forall|i: int|
            0 <= i < events.len() ==> !writes(#[trigger] actions_of(state, events)[i]),
        actions_of(state, events).len() == events.len(),
    decreases events.len(),
{
    if events.len() > 0 {
        lemma_leaving_is_silent(state, events.drop_last());
    }
}

/// The actions of a run go on from the actions of any shorter run.
pub proof fn lemma_actions_extend(state: ConnectionState, events: Seq<ConnectionEvent>, n: int)
    requires
        0 <= n <= events.len(),
    ensures
        actions_of(state, events).len() == events.len(),
        actions_of(state, events.take(n)) == actions_of(state, events).take(n),
        n < events.len() ==> actions_of(state, events)[n] == transition(
            state_after(state, events.take(n)),
            events[n],
        ).1,
    decreases events.len(),
{
    if events.len() == 0 {
        assert(events.take(n) =~= events);
        assert(actions_of(state, events).take(n) =~= actions_of(state, events));
    } else if n == events.len() {
        lemma_actions_extend(state, events.drop_last(), n - 1);
        assert(events.take(n) =~= events);
        assert(actions_of(state, events).take(n) =~= actions_of(state, events));
    } else {
        lemma_actions_extend(state, events.drop_last(), n);
        assert(events.drop_last().take(n) =~= events.take(n));
        assert(actions_of(state, events).take(n) =~= actions_of(state, events.drop_last()).take(
            n,
        ));
        if n == events.len() - 1 {
            assert(events.take(n) =~= events.drop_last());
        }
    }
}

/// The states of a run go on from the state of any shorter run.
pub proof fn lemma_state_splits(state: ConnectionState, events: Seq<ConnectionEvent>, n: int)
    requires
        0 <= n <= events.len(),
    ensures
        state_after(state, events) == state_after(
            state_after(state, events.take(n)),
            events.skip(n),
        ),
        forall|j: int|
            n <= j < events.len() ==> actions_of(state, events)[j] == actions_of(
                state_after(state, events.take(n)),
                events.skip(n),
            )[j - n],
        actions_of(state, events).len() == events.len(),
        actions_of(state_after(state, events.take(n)), events.skip(n)).len() == events.len() - n,
    decreases events.len(),
{
    let mid = state_after(state, events.take(n));
    if n == events.len() {
        assert(events.take(n) =~= events);
        assert(events.skip(n) =~= Seq::<ConnectionEvent>::empty());
        lemma_actions_extend(state, events, n);
    } else {
        let front = events.drop_last();
        lemma_state_splits(state, front, n);
        assert(front.take(n) =~= events.take(n));
        assert(front.skip(n) =~= events.skip(n).drop_last());
        assert(events.skip(n).last() == events.last());
    }
}

/// The termination race. Whatever events a handler meets from whatever
/// state: once it has answered the terminator with the final write and the
/// shutdown, no later action writes to the socket, and none shuts it down
/// again.
pub proof fn lemma_nothing_after_final_write(
    state: ConnectionState,
    events: Seq<ConnectionEvent>,
    i: int,
    j: int,
)
    requires
        0 <= i < j < events.len(),
        shuts_down(actions_of(state, events)[i]),
    ensures
        !writes(actions_of(state, events)[j]),
        !shuts_down(actions_of(state, events)[j]),
{
    lemma_actions_extend(state, events, i);
    lemma_state_splits(state, events, i + 1);
    let before = state_after(state, events.take(i));
    assert(events.take(i + 1).drop_last() =~= events.take(i));
    assert(events.take(i + 1).last() == events[i]);
    let mid = state_after(state, events.take(i + 1));
    assert(mid == transition(before, events[i]).0);
    assert(is_leaving(mid));
    lemma_leaving_is_silent(mid, events.skip(i + 1));
}

/// Registration needs the greeting. A handler that starts with a new
/// socket asks for registration only in answer to the peer's greeting,
/// received while it awaits the handshake.
pub proof fn lemma_register_needs_hello(state: ConnectionState, event: ConnectionEvent)
    ensures
        transition(state, event).1 is Register <==> state is AwaitingHandshake
            && event is Received && event->Received_0 is Hello,
        transition(state, event).0 is Registered ==> state is Registered
            || transition(state, event).1 is Register,
{
}

} // verus!
