//! Connected clients: which connections become client entities, and which
//! entities go when their connection closes.

use vstd::prelude::*;
use crate::quic::{Inbound, Payload};

verus! {

/// A client entity of the game world and the connection it stands for.
#[derive(Clone, Copy, Debug, PartialEq, Eq, Structural)]
pub struct ClientRecord {
    pub entity: u64,
    pub connection_id: usize,
}

/// The entities, in order, of the clients on connection `id`.
pub open spec fn entities_on(clients: Seq<ClientRecord>, id: usize) -> Seq<u64>
    decreases clients.len(),
{
    if clients.len() == 0 {
        Seq::empty()
    } else {
        let rest = entities_on(clients.drop_last(), id);
        if clients.last().connection_id == id {
            rest.push(clients.last().entity)
        } else {
            rest
        }
    }
}

/// The connections, in order, for which a client entity is to be created.
pub open spec fn connected_ids(events: Seq<Inbound>) -> Seq<usize>
    decreases events.len(),
{
    if events.len() == 0 {
        Seq::empty()
    } else {
        let rest = connected_ids(events.drop_last());
        if events.last().payload is ClientConnected {
            rest.push(events.last().connection_id)
        } else {
            rest
        }
    }
}

/// The entities, in order, to be removed: for each disconnect event, the
/// clients on that connection.
pub open spec fn despawned_entities(events: Seq<Inbound>, clients: Seq<ClientRecord>) -> Seq<u64>
    decreases events.len(),
{
    if events.len() == 0 {
        Seq::empty()
    } else {
        let rest = despawned_entities(events.drop_last(), clients);
        if events.last().payload is ClientDisconnected {
            rest + entities_on(clients, events.last().connection_id)
        } else {
            rest
        }
    }
}

/// Whether some disconnect event names connection `id`.
pub open spec fn disconnect_named(events: Seq<Inbound>, id: usize) -> bool {
    exists|i: int|
        0 <= i < events.len() && (#[trigger] events[i]).payload is ClientDisconnected
            && events[i].connection_id == id
}

/// No entity is listed twice.
pub open spec fn entities_distinct(clients: Seq<ClientRecord>) -> bool {
    forall|i: int, j: int|
        0 <= i < clients.len() && 0 <= j < clients.len() && i != j ==> (#[trigger] clients[i]).entity
            != (#[trigger] clients[j]).entity
}

/// An entity is among those on connection `id` exactly when some client on
/// that connection has it.
pub proof fn lemma_entities_on_contains(clients: Seq<ClientRecord>, id: usize, e: u64)
    ensures
        entities_on(clients, id).contains(e) <==> exists|j: int|
            0 <= j < clients.len() && (#[trigger] clients[j]).connection_id == id
                && clients[j].entity == e,
    decreases clients.len(),
{
    if clients.len() > 0 {
        let init = clients.drop_last();
        lemma_entities_on_contains(init, id, e);
        if entities_on(clients, id).contains(e) {
            if entities_on(init, id).contains(e) {
                let j = choose|j: int|
                    0 <= j < init.len() && (#[trigger] init[j]).connection_id == id
                        && init[j].entity == e;
                assert(clients[j] == init[j]);
            } else {
                assert(clients[clients.len() - 1] == clients.last());
            }
        }
        if exists|j: int|
            0 <= j < clients.len() && (#[trigger] clients[j]).connection_id == id
                && clients[j].entity == e {
            let j = choose|j: int|
                0 <= j < clients.len() && (#[trigger] clients[j]).connection_id == id
                    && clients[j].entity == e;
            if j < clients.len() - 1 {
                assert(init[j] == clients[j]);
                let r = entities_on(init, id);
                let k = choose|k: int| 0 <= k < r.len() && r[k] == e;
                if clients.last().connection_id == id {
                    assert(r.push(clients.last().entity)[k] == e);
                }
            } else {
                assert(entities_on(clients, id).last() == e);
                assert(entities_on(clients, id)[entities_on(clients, id).len() - 1] == e);
            }
        }
    }
}

/// An entity is removed exactly when it belongs to a client on a
/// connection that some disconnect event names.
pub proof fn lemma_despawned_contains(events: Seq<Inbound>, clients: Seq<ClientRecord>, e: u64)
    ensures
        despawned_entities(events, clients).contains(e) <==> exists|i: int|
            0 <= i < events.len() && (#[trigger] events[i]).payload is ClientDisconnected
                && entities_on(clients, events[i].connection_id).contains(e),
    decreases events.len(),
{
    if events.len() > 0 {
        let init = events.drop_last();
        let last = events.last();
        lemma_despawned_contains(init, clients, e);
        let rest = despawned_entities(init, clients);
        if last.payload is ClientDisconnected {
            let here = entities_on(clients, last.connection_id);
            let all = rest + here;
            if all.contains(e) {
                let k = choose|k: int| 0 <= k < all.len() && all[k] == e;
                if k < rest.len() {
                    assert(rest[k] == e);
                    let i = choose|i: int|
                        0 <= i < init.len() && (#[trigger] init[i]).payload is ClientDisconnected
                            && entities_on(clients, init[i].connection_id).contains(e);
                    assert(events[i] == init[i]);
                } else {
                    assert(here[k - rest.len()] == e);
                    assert(events[events.len() - 1] == last);
                }
            }
            if exists|i: int|
                0 <= i < events.len() && (#[trigger] events[i]).payload is ClientDisconnected
                    && entities_on(clients, events[i].connection_id).contains(e) {
                let i = choose|i: int|
                    0 <= i < events.len() && (#[trigger] events[i]).payload is ClientDisconnected
                        && entities_on(clients, events[i].connection_id).contains(e);
                if i < events.len() - 1 {
                    assert(init[i] == events[i]);
                    let k = choose|k: int| 0 <= k < rest.len() && rest[k] == e;
                    assert(all[k] == e);
                } else {
                    let k = choose|k: int| 0 <= k < here.len() && here[k] == e;
                    assert(all[k + rest.len()] == e);
                }
            }
        } else {
            if exists|i: int|
                0 <= i < events.len() && (#[trigger] events[i]).payload is ClientDisconnected
                    && entities_on(clients, events[i].connection_id).contains(e) {
                let i = choose|i: int|
                    0 <= i < events.len() && (#[trigger] events[i]).payload is ClientDisconnected
                        && entities_on(clients, events[i].connection_id).contains(e);
                assert(i != events.len() - 1);
                assert(init[i] == events[i]);
            }
            if rest.contains(e) {
                let i = choose|i: int|
                    0 <= i < init.len() && (#[trigger] init[i]).payload is ClientDisconnected
                        && entities_on(clients, init[i].connection_id).contains(e);
                assert(events[i] == init[i]);
            }
        }
    }
}

/// Disconnection removes exactly the right clients: when each entity is
/// listed once, a client is removed if and only if some disconnect event
/// names its connection.
pub proof fn lemma_disconnect_removes_exactly(events: Seq<Inbound>, clients: Seq<ClientRecord>)
    requires
        entities_distinct(clients),
    ensures
        forall|k: int|
            0 <= k < clients.len() ==> (despawned_entities(events, clients).contains(
                #[trigger] clients[k].entity,
            ) <==> disconnect_named(events, clients[k].connection_id)),
{
    assert forall|k: int| 0 <= k < clients.len() implies (despawned_entities(events, clients).contains(
        #[trigger] clients[k].entity,
    ) <==> disconnect_named(events, clients[k].connection_id)) by {
        let c = clients[k];
        lemma_despawned_contains(events, clients, c.entity);
        if despawned_entities(events, clients).contains(c.entity) {
            let i = choose|i: int|
                0 <= i < events.len() && (#[trigger] events[i]).payload is ClientDisconnected
                    && entities_on(clients, events[i].connection_id).contains(c.entity);
            lemma_entities_on_contains(clients, events[i].connection_id, c.entity);
            let j = choose|j: int|
                0 <= j < clients.len() && (#[trigger] clients[j]).connection_id
                    == events[i].connection_id && clients[j].entity == c.entity;
            assert(j == k);
        }
        if disconnect_named(events, c.connection_id) {
            let i = choose|i: int|
                0 <= i < events.len() && (#[trigger] events[i]).payload is ClientDisconnected
                    && events[i].connection_id == c.connection_id;
            lemma_entities_on_contains(clients, c.connection_id, c.entity);
            assert(clients[k].connection_id == c.connection_id);
        }
    }
}

/// The entities on connection `id` are those of exactly the clients on it,
/// in the order of `clients`, each once.
pub proof fn lemma_entities_on_are_the_clients_on(clients: Seq<ClientRecord>, id: usize)
    ensures
        entities_on(clients, id) == clients.filter(|c: ClientRecord| c.connection_id == id).map_values(
            |c: ClientRecord| c.entity,
        ),
    decreases clients.len(),
{
    let p = |c: ClientRecord| c.connection_id == id;
    let f = |c: ClientRecord| c.entity;
    reveal(Seq::filter);
    if clients.len() == 0 {
        assert(clients.filter(p) =~= Seq::<ClientRecord>::empty());
        assert(clients.filter(p).map_values(f) =~= Seq::<u64>::empty());
    } else {
        let init = clients.drop_last();
        lemma_entities_on_are_the_clients_on(init, id);
        let last = clients.last();
        assert(clients.filter(p) == if p(last) {
            init.filter(p).push(last)
        } else {
            init.filter(p)
        });
        if p(last) {
            assert(init.filter(p).push(last).map_values(f) =~= init.filter(p).map_values(f).push(
                f(last),
            ));
        }
    }
}

/// The clients created are one per connection event, in order, each for
/// that event's connection.
pub proof fn lemma_connected_ids_are_the_connections(events: Seq<Inbound>)
    ensures
        connected_ids(events) == events.filter(|e: Inbound| e.payload is ClientConnected).map_values(
            |e: Inbound| e.connection_id,
        ),
    decreases events.len(),
{
    let p = |e: Inbound| e.payload is ClientConnected;
    let f = |e: Inbound| e.connection_id;
    reveal(Seq::filter);
    if events.len() == 0 {
        assert(events.filter(p) =~= Seq::<Inbound>::empty());
        assert(events.filter(p).map_values(f) =~= Seq::<usize>::empty());
    } else {
        let init = events.drop_last();
        lemma_connected_ids_are_the_connections(init);
        let last = events.last();
        assert(events.filter(p) == if p(last) {
            init.filter(p).push(last)
        } else {
            init.filter(p)
        });
        if p(last) {
            assert(init.filter(p).push(last).map_values(f) =~= init.filter(p).map_values(f).push(
                f(last),
            ));
        }
    }
}

/// Disconnect events are handled one by one: the entities removed for two
/// batches of events in a row are those of the first batch followed by
/// those of the second.
pub proof fn lemma_despawned_concat(a: Seq<Inbound>, b: Seq<Inbound>, clients: Seq<ClientRecord>)
    ensures
        despawned_entities(a + b, clients) == despawned_entities(a, clients) + despawned_entities(
            b,
            clients,
        ),
    decreases b.len(),
{
    if b.len() == 0 {
        assert(a + b =~= a);
        assert(despawned_entities(a, clients) + despawned_entities(b, clients) =~= despawned_entities(
            a,
            clients,
        ));
    } else {
        lemma_despawned_concat(a, b.drop_last(), clients);
        assert((a + b).drop_last() =~= a + b.drop_last());
        assert((a + b).last() == b.last());
        let x = entities_on(clients, b.last().connection_id);
        assert(despawned_entities(a, clients) + despawned_entities(b.drop_last(), clients) + x
            =~= despawned_entities(a, clients) + (despawned_entities(b.drop_last(), clients) + x));
    }
}

/// Disconnect event `i` names the connection of client `k`.
pub open spec fn names(events: Seq<Inbound>, clients: Seq<ClientRecord>, i: int, k: int) -> bool {
    &&& 0 <= i < events.len()
    &&& events[i].payload is ClientDisconnected
    &&& 0 <= k < clients.len()
    &&& clients[k].connection_id == events[i].connection_id
}

/// An entity is removed exactly when it is that of a client whose
/// connection some disconnect event names.
pub proof fn lemma_despawned_are_the_named(
    events: Seq<Inbound>,
    clients: Seq<ClientRecord>,
    e: u64,
)
    ensures
        despawned_entities(events, clients).contains(e) <==> exists|i: int, k: int|
            #[trigger] names(events, clients, i, k) && clients[k].entity == e,
{
    lemma_despawned_contains(events, clients, e);
    if despawned_entities(events, clients).contains(e) {
        let i = choose|i: int|
            0 <= i < events.len() && (#[trigger] events[i]).payload is ClientDisconnected
                && entities_on(clients, events[i].connection_id).contains(e);
        lemma_entities_on_contains(clients, events[i].connection_id, e);
        let k = choose|k: int|
            0 <= k < clients.len() && (#[trigger] clients[k]).connection_id == events[i].connection_id
                && clients[k].entity == e;
        assert(names(events, clients, i, k));
    }
    if exists|i: int, k: int| #[trigger] names(events, clients, i, k) && clients[k].entity == e {
        let (i, k) = choose|i: int, k: int| #[trigger] names(events, clients, i, k) && clients[k].entity == e;
        lemma_entities_on_contains(clients, events[i].connection_id, e);
        assert(0 <= i < events.len() && (events[i]).payload is ClientDisconnected
                && entities_on(clients, events[i].connection_id).contains(e));
    }
}

/// The entities of the clients on connection `id`, in the order of `clients`.
pub fn entities_of(clients: &Vec<ClientRecord>, id: usize) -> (entities: Vec<u64>)
    ensures
        entities@ == entities_on(clients@, id),
        entities@ == clients@.filter(|c: ClientRecord| c.connection_id == id).map_values(
            |c: ClientRecord| c.entity,
        ),
{
    let mut entities: Vec<u64> = Vec::new();
    let mut i: usize = 0;
    while i < clients.len()
        invariant
            i <= clients.len(),
            entities@ == entities_on(clients@.take(i as int), id),
        decreases clients.len() - i,
    {
        assert(clients@.take(i + 1).drop_last() == clients@.take(i as int));
        if clients[i].connection_id == id {
            entities.push(clients[i].entity);
        }
        i = i + 1;
    }
    assert(clients@.take(clients.len() as int) == clients@);
    proof {
        lemma_entities_on_are_the_clients_on(clients@, id);
    }
    entities
}

/// Handles connecting clients: the connections, in event order, that get a
/// client entity. Events other than a connection are skipped.
pub fn client_connected(events: &Vec<Inbound>) -> (ids: Vec<usize>)
    ensures
        ids@ == connected_ids(events@),
        ids@ == events@.filter(|e: Inbound| e.payload is ClientConnected).map_values(
            |e: Inbound| e.connection_id,
        ),
{
    let mut ids: Vec<usize> = Vec::new();
    let mut i: usize = 0;
    while i < events.len()
        invariant
            i <= events.len(),
            ids@ == connected_ids(events@.take(i as int)),
        decreases events.len() - i,
    {
        assert(events@.take(i + 1).drop_last() == events@.take(i as int));
        match events[i].payload {
            Payload::ClientConnected => {
                ids.push(events[i].connection_id);
            },
            _ => {},
        }
        i = i + 1;
    }
    assert(events@.take(events.len() as int) == events@);
    proof {
        lemma_connected_ids_are_the_connections(events@);
    }
    ids
}

/// Handles disconnecting clients: for each disconnect event in order, the
/// entities of the clients on that connection, to be removed. Events other
/// than a disconnection are skipped.
pub fn client_disconnected(events: &Vec<Inbound>, clients: &Vec<ClientRecord>) -> (entities: Vec<
    u64,
>)
    ensures
        entities@ == despawned_entities(events@, clients@),
        forall|e: u64|
            entities@.contains(e) <==> exists|i: int, k: int|
                #[trigger] names(events@, clients@, i, k) && clients@[k].entity == e,
{
    let mut entities: Vec<u64> = Vec::new();
    let mut i: usize = 0;
    while i < events.len()
        invariant
            i <= events.len(),
            entities@ == despawned_entities(events@.take(i as int), clients@),
        decreases events.len() - i,
    {
        assert(events@.take(i + 1).drop_last() == events@.take(i as int));
        match events[i].payload {
            Payload::ClientDisconnected => {
                let mut found = entities_of(clients, events[i].connection_id);
                entities.append(&mut found);
            },
            _ => {},
        }
        i = i + 1;
    }
    assert(events@.take(events.len() as int) == events@);
    proof {
        assert forall|e: u64|
            entities@.contains(e) <==> exists|i: int, k: int|
                #[trigger] names(events@, clients@, i, k) && clients@[k].entity == e by {
            lemma_despawned_are_the_named(events@, clients@, e);
        }
    }
    entities
}

} // verus!
