use game_server::connection::{client_connected, client_disconnected, entities_of, ClientRecord};
use game_server::quic::{ClientAuthenticate, Inbound, Payload};

fn connect(id: usize) -> Inbound {
    Inbound { connection_id: id, payload: Payload::ClientConnected }
}

fn disconnect(id: usize) -> Inbound {
    Inbound { connection_id: id, payload: Payload::ClientDisconnected }
}

fn record(entity: u64, connection_id: usize) -> ClientRecord {
    ClientRecord { entity, connection_id }
}

#[test]
fn connections_become_clients_in_order() {
    let events = vec![connect(3), disconnect(1), connect(5), connect(4)];
    assert_eq!(client_connected(&events), vec![3, 5, 4]);
}

#[test]
fn non_connection_events_are_skipped() {
    let events = vec![
        disconnect(2),
        Inbound {
            connection_id: 9,
            payload: Payload::ClientAuthenticate(ClientAuthenticate {
                username: "foo".to_string(),
                password: "bar".to_string(),
            }),
        },
        Inbound { connection_id: 9, payload: Payload::ClientAuthenticated { username: "foo".to_string() } },
    ];
    assert!(client_connected(&events).is_empty());
    assert!(client_connected(&Vec::new()).is_empty());
}

#[test]
fn entities_on_a_connection() {
    let clients = vec![record(10, 1), record(11, 2), record(12, 1)];
    assert_eq!(entities_of(&clients, 1), vec![10, 12]);
    assert_eq!(entities_of(&clients, 2), vec![11]);
    assert!(entities_of(&clients, 3).is_empty());
}

#[test]
fn disconnect_removes_the_clients_on_that_connection() {
    let clients = vec![record(10, 1), record(11, 2), record(12, 3)];
    let events = vec![connect(4), disconnect(2)];
    assert_eq!(client_disconnected(&events, &clients), vec![11]);
}

#[test]
fn disconnects_are_handled_in_event_order() {
    let clients = vec![record(10, 1), record(11, 2), record(12, 1)];
    let events = vec![disconnect(2), disconnect(1), disconnect(7)];
    assert_eq!(client_disconnected(&events, &clients), vec![11, 10, 12]);
}

#[test]
fn connect_events_remove_nothing() {
    let clients = vec![record(10, 1)];
    assert!(client_disconnected(&vec![connect(1)], &clients).is_empty());
    assert!(client_disconnected(&Vec::new(), &clients).is_empty());
}

#[test]
fn a_client_goes_exactly_when_its_connection_is_named() {
    let clients = vec![record(20, 1), record(21, 2), record(22, 3), record(23, 4)];
    let events = vec![disconnect(3), connect(5), disconnect(1)];
    let gone = client_disconnected(&events, &clients);
    for c in &clients {
        let named = c.connection_id == 3 || c.connection_id == 1;
        assert_eq!(gone.contains(&c.entity), named);
    }
}
