use game_server::quic::{ConnectionSchedule, Inbound, Payload};

fn is_connect(e: &Inbound, id: usize) -> bool {
    e.connection_id == id && matches!(e.payload, Payload::ClientConnected)
}

fn is_disconnect(e: &Inbound, id: usize) -> bool {
    e.connection_id == id && matches!(e.payload, Payload::ClientDisconnected)
}

#[test]
fn new_schedule_is_empty() {
    let s = ConnectionSchedule::new();
    assert_eq!(s.connected_count(), 0);
    assert_eq!(s.disconnected_count(), 0);
}

#[test]
fn first_tick_connects_client_one() {
    let mut s = ConnectionSchedule::new();
    let events = s.tick();
    assert_eq!(events.len(), 1);
    assert!(is_connect(&events[0], 1));
    assert_eq!(s.connected_count(), 1);
    assert_eq!(s.disconnected_count(), 0);
}

#[test]
fn second_tick_connects_two_and_disconnects_one() {
    let mut s = ConnectionSchedule::new();
    s.tick();
    let events = s.tick();
    assert_eq!(events.len(), 2);
    assert!(is_connect(&events[0], 2));
    assert!(is_disconnect(&events[1], 1));
}

#[test]
fn six_ticks_follow_the_schedule() {
    let mut s = ConnectionSchedule::new();
    let mut all = Vec::new();
    for _ in 0..6 {
        all.extend(s.tick());
    }
    let expected: Vec<(usize, bool)> = vec![
        (1, true),
        (2, true),
        (1, false),
        (3, true),
        (4, true),
        (2, false),
        (5, true),
        (6, true),
        (3, false),
    ];
    assert_eq!(all.len(), expected.len());
    for (e, (id, connect)) in all.iter().zip(expected) {
        if connect {
            assert!(is_connect(e, id));
        } else {
            assert!(is_disconnect(e, id));
        }
    }
    assert_eq!(s.connected_count(), 6);
    assert_eq!(s.disconnected_count(), 3);
}

#[test]
fn half_of_the_clients_have_left_after_every_tick() {
    let mut s = ConnectionSchedule::new();
    for n in 1..=101usize {
        let events = s.tick();
        assert_eq!(s.connected_count(), n);
        assert_eq!(s.disconnected_count(), n / 2);
        if events.len() == 2 {
            assert!(events[1].connection_id < events[0].connection_id);
        }
    }
}

#[test]
fn stream_positions_follow_the_schedule() {
    let mut s = ConnectionSchedule::new();
    let mut all = Vec::new();
    for _ in 0..20 {
        all.extend(s.tick());
    }
    assert_eq!(all.len(), 20 + 10);
    for k in 1..=20usize {
        assert!(is_connect(&all[(k - 1) + (k - 1) / 2], k));
    }
    for k in 1..=10usize {
        assert!(is_disconnect(&all[3 * k - 1], k));
        assert!(is_connect(&all[3 * k - 2], 2 * k));
    }
}
