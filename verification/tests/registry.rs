use p2pmsg_lib::message::Message;
use p2pmsg_lib::registry::{ActivePeer, OpenConnections, PeerAddress, RegistryError};

fn peer(port: u16) -> PeerAddress {
    PeerAddress { v6: false, host: 0x7f00_0001, port }
}

#[test]
fn new_registry_is_empty() {
    let registry: OpenConnections<String, u32> = OpenConnections::new();
    assert_eq!(registry.len(), 0);
    assert!(!registry.contains(peer(1)));
}

#[test]
fn add_then_send_lends_the_writer() {
    let mut registry: OpenConnections<Vec<Message>, u32> = OpenConnections::new();
    registry.add_new(peer(1), Vec::new(), 7);
    registry.add_new(peer(2), Vec::new(), 8);
    assert_eq!(registry.len(), 2);
    match registry.send(peer(2), Message::Pong) {
        Ok((writer, m)) => writer.push(m),
        Err(_) => panic!("peer 2 is registered"),
    }
    let first = registry.remove(&peer(1)).unwrap();
    assert_eq!(first.writer, Vec::<Message>::new());
    assert_eq!(first.terminator, 7);
    assert_eq!(first.adr, peer(1));
    let second = registry.remove(&peer(2)).unwrap();
    assert_eq!(second.writer, vec![Message::Pong]);
    assert_eq!(second.terminator, 8);
}

#[test]
fn send_to_unknown_peer_is_not_available() {
    let mut registry: OpenConnections<u8, u8> = OpenConnections::new();
    registry.add_new(peer(1), 0, 0);
    match registry.send(peer(9), Message::Ping) {
        Ok(_) => panic!("peer 9 is not registered"),
        Err(e) => assert_eq!(e, RegistryError::NotAvailable(peer(9))),
    }
    assert_eq!(registry.len(), 1);
}

#[test]
fn remove_returns_the_entry_once() {
    let mut registry: OpenConnections<u8, u8> = OpenConnections::new();
    registry.add_new(peer(1), 10, 20);
    let entry = registry.remove(&peer(1));
    assert!(matches!(entry, Some(ActivePeer { writer: 10, terminator: 20, .. })));
    assert!(registry.remove(&peer(1)).is_none());
    assert!(registry.remove(&peer(2)).is_none());
    assert_eq!(registry.len(), 0);
}

#[test]
fn no_send_after_remove() {
    let mut registry: OpenConnections<u8, u8> = OpenConnections::new();
    registry.add_new(peer(1), 1, 1);
    registry.add_new(peer(2), 2, 2);
    assert!(registry.send(peer(1), Message::Ping).is_ok());
    assert!(registry.remove(&peer(1)).is_some());
    assert!(registry.send(peer(1), Message::Ping).is_err());
    assert!(registry.send(peer(2), Message::Ping).is_ok());
}

#[test]
fn one_entry_per_address() {
    let mut registry: OpenConnections<u8, u8> = OpenConnections::new();
    registry.add_new(peer(1), 1, 1);
    registry.add_new(peer(2), 2, 2);
    registry.add_new(peer(1), 3, 3);
    assert_eq!(registry.len(), 2);
    let entry = registry.remove(&peer(1)).unwrap();
    assert_eq!((entry.writer, entry.terminator), (3, 3));
    assert!(!registry.contains(peer(1)));
    assert!(registry.contains(peer(2)));
    assert_eq!(registry.len(), 1);
}

#[test]
fn addresses_differ_by_family_host_and_port() {
    let mut registry: OpenConnections<u8, u8> = OpenConnections::new();
    registry.add_new(PeerAddress { v6: false, host: 1, port: 80 }, 1, 1);
    registry.add_new(PeerAddress { v6: true, host: 1, port: 80 }, 2, 2);
    registry.add_new(PeerAddress { v6: false, host: 2, port: 80 }, 3, 3);
    registry.add_new(PeerAddress { v6: false, host: 1, port: 81 }, 4, 4);
    assert_eq!(registry.len(), 4);
}

#[test]
fn close_hands_out_terminator_and_writer() {
    let entry = ActivePeer { adr: peer(5), terminator: "t", writer: "w" };
    assert_eq!(entry.close(), ("t", "w"));
}
