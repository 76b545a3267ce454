use p2pmsg_lib::connection::{on_event, ConnectionAction, ConnectionEvent, ConnectionState};
use p2pmsg_lib::dispatch::{dispatch, react, Dispatched, Reaction};
use p2pmsg_lib::message::Message;
use p2pmsg_lib::registry::{OpenConnections, PeerAddress, RegistryError};

fn hello() -> Message {
    Message::Hello { msg: "Hello from me".to_string() }
}

fn peer(port: u16) -> PeerAddress {
    PeerAddress { v6: false, host: 0x7f00_0001, port }
}

fn run(events: Vec<ConnectionEvent>) -> (ConnectionState, Vec<ConnectionAction>) {
    let mut state = ConnectionState::Connecting;
    let mut actions = Vec::new();
    for e in events {
        let (next, action) = on_event(state, e);
        state = next;
        actions.push(action);
    }
    (state, actions)
}

#[test]
fn handshake_leads_to_registration() {
    let (state, actions) = run(vec![
        ConnectionEvent::Opened,
        ConnectionEvent::HelloSent,
        ConnectionEvent::Received(hello()),
    ]);
    assert_eq!(state, ConnectionState::Registered);
    assert!(matches!(
        actions.as_slice(),
        [ConnectionAction::SendHello, ConnectionAction::AwaitHello, ConnectionAction::Register]
    ));
}

#[test]
fn handshake_failures_abandon_the_connection() {
    let failures = vec![
        ConnectionEvent::Received(Message::Ping),
        ConnectionEvent::Received(Message::Pong),
        ConnectionEvent::Received(Message::Terminate),
        ConnectionEvent::ReadFailed,
        ConnectionEvent::EndOfStream,
        ConnectionEvent::HelloFailed,
    ];
    for e in failures {
        let (state, action) = on_event(ConnectionState::AwaitingHandshake, e);
        assert_eq!(state, ConnectionState::Closed);
        assert!(matches!(action, ConnectionAction::Abandon));
    }
}

#[test]
fn registered_forwards_messages() {
    for m in [Message::Ping, Message::Pong, Message::Terminate, hello()] {
        let (state, action) = on_event(ConnectionState::Registered, ConnectionEvent::Received(m.clone()));
        assert_eq!(state, ConnectionState::Registered);
        match action {
            ConnectionAction::Forward(got) => assert_eq!(got, m),
            _ => panic!("a message is forwarded"),
        }
    }
}

#[test]
fn read_end_and_errors_close_without_a_write() {
    for e in [ConnectionEvent::EndOfStream, ConnectionEvent::ReadFailed, ConnectionEvent::TerminatorLost] {
        let (state, action) = on_event(ConnectionState::Registered, e);
        assert_eq!(state, ConnectionState::Closing);
        assert!(matches!(action, ConnectionAction::Unregister));
    }
}

#[test]
fn terminator_draws_one_final_write() {
    let (state, actions) = run(vec![
        ConnectionEvent::Opened,
        ConnectionEvent::HelloSent,
        ConnectionEvent::Received(hello()),
        ConnectionEvent::Received(Message::Ping),
        ConnectionEvent::TerminatorFired,
        ConnectionEvent::Received(Message::Ping),
        ConnectionEvent::TerminatorFired,
        ConnectionEvent::ShutDown,
        ConnectionEvent::Unregistered,
        ConnectionEvent::TerminatorFired,
        ConnectionEvent::Opened,
    ]);
    assert_eq!(state, ConnectionState::Closed);
    let finals = actions
        .iter()
        .filter(|a| matches!(a, ConnectionAction::FinalWriteAndShutdown))
        .count();
    assert_eq!(finals, 1);
    assert!(matches!(actions[4], ConnectionAction::FinalWriteAndShutdown));
    for a in &actions[5..] {
        assert!(matches!(a, ConnectionAction::Unregister | ConnectionAction::Stop));
    }
}

#[test]
fn events_out_of_place_are_ignored() {
    let (state, action) = on_event(ConnectionState::Connecting, ConnectionEvent::Received(hello()));
    assert_eq!(state, ConnectionState::Connecting);
    assert!(matches!(action, ConnectionAction::Ignore));
    let (state, action) = on_event(ConnectionState::AwaitingHandshake, ConnectionEvent::TerminatorFired);
    assert_eq!(state, ConnectionState::AwaitingHandshake);
    assert!(matches!(action, ConnectionAction::Ignore));
    let (state, action) = on_event(ConnectionState::Registered, ConnectionEvent::Opened);
    assert_eq!(state, ConnectionState::Registered);
    assert!(matches!(action, ConnectionAction::Ignore));
    let (state, action) = on_event(ConnectionState::Closed, ConnectionEvent::Opened);
    assert_eq!(state, ConnectionState::Closed);
    assert!(matches!(action, ConnectionAction::Stop));
}

#[test]
fn reactions_by_message() {
    assert_eq!(react(&hello()), Reaction::ProtocolViolation);
    assert_eq!(react(&Message::Ping), Reaction::ReplyPong);
    assert_eq!(react(&Message::Pong), Reaction::Noted);
    assert_eq!(react(&Message::Terminate), Reaction::CloseConnection);
}

#[test]
fn both_sides_register_after_hello() {
    // Two handlers, one per side of a connection, each with its own registry.
    let a = peer(4000);
    let b = peer(4001);
    let mut registry_a: OpenConnections<Vec<Message>, u8> = OpenConnections::new();
    let mut registry_b: OpenConnections<Vec<Message>, u8> = OpenConnections::new();
    let mut state_a = ConnectionState::Connecting;
    let mut state_b = ConnectionState::Connecting;
    for e in [ConnectionEvent::Opened, ConnectionEvent::HelloSent] {
        state_a = on_event(state_a, e).0;
    }
    for e in [ConnectionEvent::Opened, ConnectionEvent::HelloSent] {
        state_b = on_event(state_b, e).0;
    }
    let (next_a, action_a) = on_event(state_a, ConnectionEvent::Received(hello()));
    let (next_b, action_b) = on_event(state_b, ConnectionEvent::Received(hello()));
    assert!(matches!(action_a, ConnectionAction::Register));
    assert!(matches!(action_b, ConnectionAction::Register));
    registry_a.add_new(b, Vec::new(), 0);
    registry_b.add_new(a, Vec::new(), 0);
    assert_eq!((next_a, next_b), (ConnectionState::Registered, ConnectionState::Registered));
    assert_eq!((registry_a.len(), registry_b.len()), (1, 1));
    assert!(registry_a.contains(b) && registry_b.contains(a));
}

#[test]
fn ping_is_answered_with_pong() {
    let a = peer(4000);
    let mut registry_b: OpenConnections<Vec<Message>, u8> = OpenConnections::new();
    registry_b.add_new(a, Vec::new(), 0);
    match dispatch(&mut registry_b, Message::Ping, a) {
        Dispatched::Reply(writer, reply) => writer.push(reply),
        _ => panic!("a probe from a registered peer is answered"),
    }
    let sent_to_a = registry_b.remove(&a).unwrap().writer;
    assert_eq!(sent_to_a, vec![Message::Pong]);
    // A's dispatch loop takes note of the reply and leaves its registry alone.
    let b = peer(4001);
    let mut registry_a: OpenConnections<Vec<Message>, u8> = OpenConnections::new();
    registry_a.add_new(b, Vec::new(), 0);
    assert!(matches!(dispatch(&mut registry_a, Message::Pong, b), Dispatched::Noted));
    assert!(registry_a.contains(b));
}

#[test]
fn ping_from_a_peer_that_is_gone() {
    let mut registry: OpenConnections<Vec<Message>, u8> = OpenConnections::new();
    match dispatch(&mut registry, Message::Ping, peer(1)) {
        Dispatched::ReplyFailed(e) => assert_eq!(e, RegistryError::NotAvailable(peer(1))),
        _ => panic!("nobody to answer"),
    }
}

#[test]
fn terminate_removes_the_entry_and_closes() {
    let a = peer(4000);
    let mut registry_b: OpenConnections<&str, &str> = OpenConnections::new();
    registry_b.add_new(a, "writer", "terminator");
    match dispatch(&mut registry_b, Message::Terminate, a) {
        Dispatched::Close(terminator, writer) => {
            assert_eq!((terminator, writer), ("terminator", "writer"));
        }
        _ => panic!("the entry is handed out"),
    }
    // The handler gets its write half back and closes.
    let (state, action) = on_event(ConnectionState::Registered, ConnectionEvent::TerminatorFired);
    assert_eq!(state, ConnectionState::Closing);
    assert!(matches!(action, ConnectionAction::FinalWriteAndShutdown));
    assert!(matches!(
        registry_b.send(a, Message::Ping),
        Err(RegistryError::NotAvailable(p)) if p == a
    ));
    assert!(matches!(dispatch(&mut registry_b, Message::Terminate, a), Dispatched::AlreadyClosed));
}

#[test]
fn hello_outside_the_handshake_is_a_violation() {
    let mut registry: OpenConnections<u8, u8> = OpenConnections::new();
    registry.add_new(peer(1), 1, 1);
    assert!(matches!(dispatch(&mut registry, hello(), peer(1)), Dispatched::Violation));
    assert!(registry.contains(peer(1)));
}

#[test]
fn greeting_and_farewell() {
    assert_eq!(
        p2pmsg_lib::connection::greeting(),
        Message::Hello { msg: "Hello from me".to_string() }
    );
    assert_eq!(p2pmsg_lib::connection::farewell(), Message::Terminate);
    assert_eq!(p2pmsg_lib::dispatch::INBOUND_QUEUE_BOUND, 1024);
}
