//! The network front end: what arrives from clients, and the schedule on
//! which the front end reports clients connecting and leaving.

use vstd::prelude::*;
use crate::connection::connected_ids;

verus! {

/// Credentials a client sends to log in.
#[derive(Clone, Debug)]
pub struct ClientAuthenticate {
    pub username: String,
    pub password: String,
}

/// A message to or from a client.
///
/// A newly connected client comes with a channel for messages to it; that
/// channel is held by the caller beside the event, not here.
#[derive(Clone, Debug)]
pub enum Payload {
    ClientConnected,
    ClientDisconnected,
    ClientAuthenticate(ClientAuthenticate),
    ClientAuthenticated { username: String },
}

/// A connection event from the network layer.
#[derive(Clone, Debug)]
pub struct Inbound {
    pub connection_id: usize,
    pub payload: Payload,
}

/// A message exchanged with the client of a connection.
#[derive(Clone, Debug)]
pub struct Data {
    pub connection_id: usize,
    pub payload: Payload,
}

/// The event announcing that client `id` connected.
pub open spec fn connect_event(id: nat) -> Inbound {
    Inbound { connection_id: id as usize, payload: Payload::ClientConnected }
}

/// The event announcing that client `id` left.
pub open spec fn disconnect_event(id: nat) -> Inbound {
    Inbound { connection_id: id as usize, payload: Payload::ClientDisconnected }
}

/// The events of the tick on which client `n` connects: its connection,
/// then, when `n` is even, the departure of client `n / 2`.
pub open spec fn tick_events(n: nat) -> Seq<Inbound> {
    if n % 2 == 0 {
        seq![connect_event(n), disconnect_event(n / 2)]
    } else {
        seq![connect_event(n)]
    }
}

/// The events of the first `n` ticks, in order.
pub open spec fn schedule_events(n: nat) -> Seq<Inbound>
    decreases n,
{
    if n == 0 {
        Seq::empty()
    } else {
        schedule_events((n - 1) as nat) + tick_events(n)
    }
}

/// The connections, in order, that the disconnect events among `events` name.
pub open spec fn disconnected_ids(events: Seq<Inbound>) -> Seq<usize>
    decreases events.len(),
{
    if events.len() == 0 {
        Seq::empty()
    } else {
        let rest = disconnected_ids(events.drop_last());
        if events.last().payload is ClientDisconnected {
            rest.push(events.last().connection_id)
        } else {
            rest
        }
    }
}

/// Where in the stream client `k` connects.
pub open spec fn connect_position(k: int) -> int {
    (k - 1) + (k - 1) / 2
}

/// Where in the stream client `k` leaves.
pub open spec fn disconnect_position(k: int) -> int {
    3 * k - 1
}

/// The ids `1, 2, ..., n` in order.
pub open spec fn ids_up_to(n: nat) -> Seq<usize> {
    Seq::new(n, |i: int| (i + 1) as usize)
}

/// The connections named by a stream of events are those of its parts.
pub proof fn lemma_ids_concat(a: Seq<Inbound>, b: Seq<Inbound>)
    ensures
        connected_ids(a + b) == connected_ids(a) + connected_ids(b),
        disconnected_ids(a + b) == disconnected_ids(a) + disconnected_ids(b),
    decreases b.len(),
{
    if b.len() == 0 {
        assert(a + b =~= a);
        assert(connected_ids(a) + connected_ids(b) =~= connected_ids(a));
        assert(disconnected_ids(a) + disconnected_ids(b) =~= disconnected_ids(a));
    } else {
        lemma_ids_concat(a, b.drop_last());
        assert((a + b).drop_last() =~= a + b.drop_last());
        assert((a + b).last() == b.last());
        assert(connected_ids(a) + connected_ids(b.drop_last()).push(b.last().connection_id)
            =~= (connected_ids(a) + connected_ids(b.drop_last())).push(b.last().connection_id));
        assert(disconnected_ids(a) + disconnected_ids(b.drop_last()).push(b.last().connection_id)
            =~= (disconnected_ids(a) + disconnected_ids(b.drop_last())).push(
            b.last().connection_id,
        ));
    }
}

/// The front end's stream of events: after `n` ticks it holds `n + n / 2`
/// events; clients `1, 2, ..., n` connect in that order and clients
/// `1, 2, ..., n / 2` leave in that order; client `k` leaves directly after
/// client `2 * k` connects; so every client that leaves connected earlier,
/// and none leaves twice.
pub proof fn lemma_schedule_stream(n: nat)
    requires
        n <= usize::MAX,
    ensures
        schedule_events(n).len() == n + n / 2,
        connected_ids(schedule_events(n)) == ids_up_to(n),
        disconnected_ids(schedule_events(n)) == ids_up_to(n / 2),
        forall|k: int|
            1 <= k <= n ==> schedule_events(n)[#[trigger] connect_position(k)] == connect_event(
                k as nat,
            ),
        forall|k: int|
            1 <= k <= n / 2 ==> schedule_events(n)[#[trigger] disconnect_position(k)]
                == disconnect_event(k as nat) && schedule_events(n)[disconnect_position(k) - 1]
                == connect_event((2 * k) as nat) && connect_position(k) < disconnect_position(k),
    decreases n,
{
    if n == 0 {
        assert(connected_ids(schedule_events(0)) =~= ids_up_to(0));
        assert(disconnected_ids(schedule_events(0)) =~= ids_up_to(0));
    } else {
        let m = (n - 1) as nat;
        lemma_schedule_stream(m);
        let s = schedule_events(m);
        let t = tick_events(n);
        let all = schedule_events(n);
        assert(all == s + t);
        lemma_ids_concat(s, t);
        let c = connect_event(n);
        let single = seq![c];
        assert(single.drop_last() =~= Seq::<Inbound>::empty());
        assert(single.last() == c);
        assert(connected_ids(Seq::<Inbound>::empty()) == Seq::<usize>::empty());
        assert(disconnected_ids(Seq::<Inbound>::empty()) == Seq::<usize>::empty());
        assert(connected_ids(single) =~= seq![n as usize]);
        assert(disconnected_ids(single) =~= Seq::<usize>::empty());
        if n % 2 == 0 {
            let d = disconnect_event(n / 2);
            assert(t.drop_last() =~= single);
            assert(t.last() == d);
            assert(connected_ids(t) =~= seq![n as usize]);
            assert(disconnected_ids(t) =~= seq![(n / 2) as usize]);
        } else {
            assert(connected_ids(t) =~= seq![n as usize]);
            assert(disconnected_ids(t) =~= Seq::<usize>::empty());
        }
        assert(connected_ids(all) =~= ids_up_to(n));
        assert(disconnected_ids(all) =~= ids_up_to(n / 2));
        assert forall|k: int| 1 <= k <= n implies all[#[trigger] connect_position(k)]
            == connect_event(k as nat) by {
            if k < n {
                assert(connect_position(k) < s.len());
                assert(s[connect_position(k)] == connect_event(k as nat));
            } else {
                assert(connect_position(k) == s.len());
            }
        }
        assert forall|k: int| 1 <= k <= n / 2 implies all[#[trigger] disconnect_position(k)]
            == disconnect_event(k as nat) && all[disconnect_position(k) - 1] == connect_event(
            (2 * k) as nat,
        ) && connect_position(k) < disconnect_position(k) by {
            if k <= m / 2 {
                assert(disconnect_position(k) < s.len());
                assert(s[disconnect_position(k)] == disconnect_event(k as nat));
                assert(s[disconnect_position(k) - 1] == connect_event((2 * k) as nat));
            } else {
                assert(n % 2 == 0 && k == n / 2);
                assert(disconnect_position(k) == s.len() + 1);
            }
        }
    }
}

/// The front end's schedule of connections: on every tick a new client
/// connects, numbered from 1, and on every second tick the oldest client
/// still connected leaves.
pub struct ConnectionSchedule {
    connect: usize,
    disconnect: usize,
}

impl ConnectionSchedule {
    /// The number of clients that have connected so far (the last id given).
    pub closed spec fn connected(self) -> nat {
        self.connect as nat
    }

    /// The number of clients that have left so far (the last id that left).
    pub closed spec fn disconnected(self) -> nat {
        self.disconnect as nat
    }

    /// Every second connection is followed by a departure.
    #[verifier::type_invariant]
    spec fn inv(self) -> bool {
        self.disconnect == self.connect / 2
    }

    /// A schedule on which nothing has happened yet.
    pub fn new() -> (s: Self)
        ensures
            s.connected() == 0,
            s.disconnected() == 0,
    {
        ConnectionSchedule { connect: 0, disconnect: 0 }
    }

    /// The number of clients that have connected so far.
    pub fn connected_count(&self) -> (n: usize)
        ensures
            n == self.connected(),
            self.disconnected() == self.connected() / 2,
    {
        proof {
            use_type_invariant(self);
        }
        self.connect
    }

    /// The number of clients that have left so far.
    pub fn disconnected_count(&self) -> (n: usize)
        ensures
            n == self.disconnected(),
            self.disconnected() == self.connected() / 2,
    {
        proof {
            use_type_invariant(self);
        }
        self.disconnect
    }

    /// One tick of the schedule: the next client connects, and when its id
    /// is even, the client with the next id to leave disconnects. Returns the
    /// events in that order.
    pub fn tick(&mut self) -> (events: Vec<Inbound>)
        requires
            old(self).connected() < usize::MAX,
        ensures
            final(self).connected() == old(self).connected() + 1,
            final(self).disconnected() == final(self).connected() / 2,
            final(self).disconnected() == if final(self).connected() % 2 == 0 {
                old(self).disconnected() + 1
            } else {
                old(self).disconnected() + 0
            },
            events.len() == if final(self).connected() % 2 == 0 { 2int } else { 1int },
            events[0].connection_id == final(self).connected(),
            events[0].payload is ClientConnected,
            events.len() == 2 ==> events[1].connection_id == final(self).disconnected(),
            events.len() == 2 ==> events[1].payload is ClientDisconnected,
            events.len() == 2 ==> 1 <= events[1].connection_id < events[0].connection_id,
            events@ == tick_events(final(self).connected()),
            schedule_events(final(self).connected()) == schedule_events(old(self).connected())
                + events@,
    {
        proof {
            use_type_invariant(&*self);
        }
        let connect = self.connect + 1;
        let mut events: Vec<Inbound> = Vec::new();
        events.push(Inbound { connection_id: connect, payload: Payload::ClientConnected });
        if connect % 2 == 0 {
            let disconnect = self.disconnect + 1;
            *self = ConnectionSchedule { connect, disconnect };
            events.push(Inbound { connection_id: disconnect, payload: Payload::ClientDisconnected });
        } else {
            *self = ConnectionSchedule { connect, disconnect: self.disconnect };
        }
        events
    }
}

} // verus!
