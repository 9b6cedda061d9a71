//! The login handshake: credentials from a client go to the database, the
//! database's confirmation goes back to the client, and the confirmed client
//! is marked as logged in.

use vstd::prelude::*;
use crate::connection::{
    entities_of, entities_on, lemma_entities_on_are_the_clients_on, lemma_entities_on_contains,
    ClientRecord,
};
use crate::postgres;
use crate::postgres::{response_to, valid_credentials, Request, Response};
use crate::quic;
use crate::quic::{Data, Payload};

verus! {

/// Marks a client entity as logged in under `username`.
#[derive(Clone, Debug)]
pub struct Authenticated {
    pub username: String,
}

/// A message to be sent on the connection of a client entity.
#[derive(Clone, Debug)]
pub struct Delivery {
    pub entity: u64,
    pub payload: Payload,
}

/// A client entity to be marked as logged in.
#[derive(Clone, Debug)]
pub struct Grant {
    pub entity: u64,
    pub authenticated: Authenticated,
}

/// The database requests, in order, for the login attempts among `data`:
/// each carries the attempt's connection, user name and password.
pub open spec fn requests_for(data: Seq<Data>) -> Seq<Request>
    decreases data.len(),
{
    if data.len() == 0 {
        Seq::empty()
    } else {
        let rest = requests_for(data.drop_last());
        match data.last().payload {
            Payload::ClientAuthenticate(a) => rest.push(
                Request::ClientAuthenticate(
                    postgres::ClientAuthenticate {
                        connection_id: data.last().connection_id,
                        username: a.username,
                        password: a.password,
                    },
                ),
            ),
            _ => rest,
        }
    }
}

/// The confirmation message that tells a client it is logged in.
pub open spec fn confirmation(username: String) -> Payload {
    Payload::ClientAuthenticated { username }
}

/// For each confirmation from the database in order, the confirmation
/// message to every client entity on the confirmed connection.
pub open spec fn deliveries_for(responses: Seq<Response>, connections: Seq<ClientRecord>) -> Seq<
    Delivery,
>
    decreases responses.len(),
{
    if responses.len() == 0 {
        Seq::empty()
    } else {
        let rest = deliveries_for(responses.drop_last(), connections);
        match responses.last() {
            Response::ClientAuthenticated(r) => rest + entities_on(
                connections,
                r.connection_id,
            ).map_values(|e: u64| Delivery { entity: e, payload: confirmation(r.username) }),
        }
    }
}

/// For each confirmation from the database in order, the confirmation
/// message as an event on its connection.
pub open spec fn notices_for(responses: Seq<Response>) -> Seq<Data>
    decreases responses.len(),
{
    if responses.len() == 0 {
        Seq::empty()
    } else {
        let rest = notices_for(responses.drop_last());
        match responses.last() {
            Response::ClientAuthenticated(r) => rest.push(
                Data { connection_id: r.connection_id, payload: confirmation(r.username) },
            ),
        }
    }
}

/// For each confirmation message among `data` in order, every client entity
/// on its connection, marked with the confirmed user name.
pub open spec fn grants_for(data: Seq<Data>, clients: Seq<ClientRecord>) -> Seq<Grant>
    decreases data.len(),
{
    if data.len() == 0 {
        Seq::empty()
    } else {
        let rest = grants_for(data.drop_last(), clients);
        match data.last().payload {
            Payload::ClientAuthenticated { username } => rest + entities_on(
                clients,
                data.last().connection_id,
            ).map_values(
                |e: u64| Grant { entity: e, authenticated: Authenticated { username } },
            ),
            _ => rest,
        }
    }
}

/// A login attempt on connection `connection_id`.
pub open spec fn login_attempt(connection_id: usize, username: String, password: String) -> Data {
    Data {
        connection_id,
        payload: Payload::ClientAuthenticate(quic::ClientAuthenticate { username, password }),
    }
}

/// The login round trip: a login attempt becomes one database request; the
/// database confirms it exactly when the credentials are valid; and a
/// confirmation reaches every client on the attempt's connection, is raised
/// once as an event on that connection, and marks every client on that
/// connection as logged in under the attempted user name.
pub proof fn lemma_login_round_trip(
    connection_id: usize,
    username: String,
    password: String,
    clients: Seq<ClientRecord>,
)
    ensures
        requests_for(seq![login_attempt(connection_id, username, password)]) == seq![
            Request::ClientAuthenticate(
                postgres::ClientAuthenticate { connection_id, username, password },
            ),
        ],
        response_to(
            Request::ClientAuthenticate(
                postgres::ClientAuthenticate { connection_id, username, password },
            ),
        ) is Some <==> valid_credentials(username@, password@),
        deliveries_for(
            seq![
                Response::ClientAuthenticated(
                    postgres::ClientAuthenticated { connection_id, username },
                ),
            ],
            clients,
        ) == entities_on(clients, connection_id).map_values(
            |e: u64| Delivery { entity: e, payload: confirmation(username) },
        ),
        notices_for(
            seq![
                Response::ClientAuthenticated(
                    postgres::ClientAuthenticated { connection_id, username },
                ),
            ],
        ) == seq![Data { connection_id, payload: confirmation(username) }],
        grants_for(seq![Data { connection_id, payload: confirmation(username) }], clients)
            == entities_on(clients, connection_id).map_values(
            |e: u64| Grant { entity: e, authenticated: Authenticated { username } },
        ),
{
    let attempt = seq![login_attempt(connection_id, username, password)];
    assert(attempt.drop_last() =~= Seq::<Data>::empty());
    assert(requests_for(attempt.drop_last()) == Seq::<Request>::empty());
    assert(requests_for(attempt) =~= seq![
        Request::ClientAuthenticate(postgres::ClientAuthenticate { connection_id, username, password }),
    ]);
    let r = seq![
        Response::ClientAuthenticated(postgres::ClientAuthenticated { connection_id, username }),
    ];
    assert(r.drop_last() =~= Seq::<Response>::empty());
    assert(notices_for(r.drop_last()) == Seq::<Data>::empty());
    assert(deliveries_for(r.drop_last(), clients) == Seq::<Delivery>::empty());
    let n = seq![Data { connection_id, payload: confirmation(username) }];
    assert(n.drop_last() =~= Seq::<Data>::empty());
    assert(grants_for(n.drop_last(), clients) == Seq::<Grant>::empty());
    assert(n.last() == Data { connection_id, payload: confirmation(username) });
    assert(Seq::<Delivery>::empty() + entities_on(clients, connection_id).map_values(
        |e: u64| Delivery { entity: e, payload: confirmation(username) },
    ) =~= entities_on(clients, connection_id).map_values(
        |e: u64| Delivery { entity: e, payload: confirmation(username) },
    ));
    assert(Seq::<Grant>::empty() + entities_on(clients, connection_id).map_values(
        |e: u64| Grant { entity: e, authenticated: Authenticated { username } },
    ) =~= entities_on(clients, connection_id).map_values(
        |e: u64| Grant { entity: e, authenticated: Authenticated { username } },
    ));
    assert(notices_for(r) =~= n);
}

/// Whether a message is a login attempt.
pub open spec fn is_attempt(d: Data) -> bool {
    d.payload is ClientAuthenticate
}

/// The database request for a login attempt: its connection, user name and
/// password.
pub open spec fn request_from(d: Data) -> Request {
    match d.payload {
        Payload::ClientAuthenticate(a) => Request::ClientAuthenticate(
            postgres::ClientAuthenticate {
                connection_id: d.connection_id,
                username: a.username,
                password: a.password,
            },
        ),
        _ => arbitrary(),
    }
}

/// The user name a confirmation message carries.
pub open spec fn confirmed_name(p: Payload) -> String {
    match p {
        Payload::ClientAuthenticated { username } => username,
        _ => arbitrary(),
    }
}

/// The connection a database confirmation is for.
pub open spec fn response_connection(r: Response) -> usize {
    match r {
        Response::ClientAuthenticated(c) => c.connection_id,
    }
}

/// The user name a database confirmation confirms.
pub open spec fn response_name(r: Response) -> String {
    match r {
        Response::ClientAuthenticated(c) => c.username,
    }
}

/// The event raised for a database confirmation: the confirmation message
/// on the confirmed connection.
pub open spec fn notice_of(r: Response) -> Data {
    Data { connection_id: response_connection(r), payload: confirmation(response_name(r)) }
}

/// Message `i` of `data` confirms a login, and client `k` is on its
/// connection.
pub open spec fn confirms(data: Seq<Data>, clients: Seq<ClientRecord>, i: int, k: int) -> bool {
    &&& 0 <= i < data.len()
    &&& data[i].payload is ClientAuthenticated
    &&& 0 <= k < clients.len()
    &&& clients[k].connection_id == data[i].connection_id
}

/// The grant owed to client `k` for confirmation message `i`: that client,
/// under the user name of that very message.
pub open spec fn grant_owed(data: Seq<Data>, clients: Seq<ClientRecord>, i: int, k: int) -> Grant {
    Grant {
        entity: clients[k].entity,
        authenticated: Authenticated { username: confirmed_name(data[i].payload) },
    }
}

/// Database confirmation `i` is for the connection of client `k`.
pub open spec fn reaches(responses: Seq<Response>, connections: Seq<ClientRecord>, i: int, k: int) -> bool {
    &&& 0 <= i < responses.len()
    &&& 0 <= k < connections.len()
    &&& connections[k].connection_id == response_connection(responses[i])
}

/// The delivery owed to client `k` for database confirmation `i`: that
/// confirmation's own user name, sent to that client.
pub open spec fn delivery_owed(
    responses: Seq<Response>,
    connections: Seq<ClientRecord>,
    i: int,
    k: int,
) -> Delivery {
    Delivery { entity: connections[k].entity, payload: confirmation(response_name(responses[i])) }
}

/// Login attempts are forwarded one by one: the requests for two batches
/// in a row are those of the first batch followed by those of the second.
pub proof fn lemma_requests_concat(a: Seq<Data>, b: Seq<Data>)
    ensures
        requests_for(a + b) == requests_for(a) + requests_for(b),
    decreases b.len(),
{
    if b.len() == 0 {
        assert(a + b =~= a);
        assert(requests_for(a) + requests_for(b) =~= requests_for(a));
    } else {
        lemma_requests_concat(a, b.drop_last());
        assert((a + b).drop_last() =~= a + b.drop_last());
        assert((a + b).last() == b.last());
        match b.last().payload {
            Payload::ClientAuthenticate(x) => {
                let q = request_from(b.last());
                assert(requests_for(a) + requests_for(b.drop_last()).push(q) =~= (requests_for(a)
                    + requests_for(b.drop_last())).push(q));
            },
            _ => {},
        }
    }
}

/// The requests are exactly the login attempts among the messages, in
/// order, each forwarded with its own connection, user name and password.
pub proof fn lemma_requests_are_the_attempts(data: Seq<Data>)
    ensures
        requests_for(data) == data.filter(|d: Data| is_attempt(d)).map_values(
            |d: Data| request_from(d),
        ),
    decreases data.len(),
{
    let p = |d: Data| is_attempt(d);
    let f = |d: Data| request_from(d);
    reveal(Seq::filter);
    if data.len() == 0 {
        assert(data.filter(p) =~= Seq::<Data>::empty());
        assert(data.filter(p).map_values(f) =~= Seq::<Request>::empty());
    } else {
        let init = data.drop_last();
        lemma_requests_are_the_attempts(init);
        let last = data.last();
        assert(data.filter(p) == if p(last) {
            init.filter(p).push(last)
        } else {
            init.filter(p)
        });
        if p(last) {
            assert(init.filter(p).push(last).map_values(f) =~= init.filter(p).map_values(f).push(
                f(last),
            ));
        }
    }
}

/// The events raised are one per database confirmation, in order, each on
/// that confirmation's connection and naming that confirmation's user.
pub proof fn lemma_notices_one_per_response(responses: Seq<Response>)
    ensures
        notices_for(responses).len() == responses.len(),
        forall|i: int|
            0 <= i < responses.len() ==> notices_for(responses)[i] == notice_of(
                #[trigger] responses[i],
            ),
    decreases responses.len(),
{
    if responses.len() > 0 {
        let init = responses.drop_last();
        lemma_notices_one_per_response(init);
        assert forall|i: int| 0 <= i < responses.len() implies notices_for(responses)[i]
            == notice_of(#[trigger] responses[i]) by {
            if i < responses.len() - 1 {
                assert(init[i] == responses[i]);
            }
        }
    }
}

/// Confirmations are relayed one by one: the deliveries for two batches in
/// a row are those of the first batch followed by those of the second.
pub proof fn lemma_deliveries_concat(
    a: Seq<Response>,
    b: Seq<Response>,
    connections: Seq<ClientRecord>,
)
    ensures
        deliveries_for(a + b, connections) == deliveries_for(a, connections) + deliveries_for(
            b,
            connections,
        ),
    decreases b.len(),
{
    if b.len() == 0 {
        assert(a + b =~= a);
        assert(deliveries_for(a, connections) + deliveries_for(b, connections) =~= deliveries_for(
            a,
            connections,
        ));
    } else {
        lemma_deliveries_concat(a, b.drop_last(), connections);
        assert((a + b).drop_last() =~= a + b.drop_last());
        assert((a + b).last() == b.last());
        match b.last() {
            Response::ClientAuthenticated(r) => {
                let x = entities_on(connections, r.connection_id).map_values(
                    |e: u64| Delivery { entity: e, payload: confirmation(r.username) },
                );
                assert(deliveries_for(a, connections) + deliveries_for(b.drop_last(), connections)
                    + x =~= deliveries_for(a, connections) + (deliveries_for(
                    b.drop_last(),
                    connections,
                ) + x));
            },
        }
    }
}

/// Every client on a confirmed connection receives that confirmation, under
/// that confirmation's own user name.
pub proof fn lemma_deliveries_complete(
    responses: Seq<Response>,
    connections: Seq<ClientRecord>,
    i: int,
    k: int,
)
    requires
        reaches(responses, connections, i, k),
    ensures
        deliveries_for(responses, connections).contains(
            delivery_owed(responses, connections, i, k),
        ),
    decreases responses.len(),
{
    let init = responses.drop_last();
    let rest = deliveries_for(init, connections);
    let last = responses.last();
    let ents = entities_on(connections, response_connection(last));
    let x = ents.map_values(
        |e: u64| Delivery { entity: e, payload: confirmation(response_name(last)) },
    );
    assert(deliveries_for(responses, connections) == rest + x);
    let g = delivery_owed(responses, connections, i, k);
    if i < responses.len() - 1 {
        assert(init[i] == responses[i]);
        lemma_deliveries_complete(init, connections, i, k);
        assert(delivery_owed(init, connections, i, k) == g);
        let t = choose|t: int| 0 <= t < rest.len() && rest[t] == g;
        assert((rest + x)[t] == g);
    } else {
        lemma_entities_on_contains(connections, response_connection(last), connections[k].entity);
        let t = choose|t: int| 0 <= t < ents.len() && ents[t] == connections[k].entity;
        assert(x[t] == g);
        assert((rest + x)[rest.len() + t] == g);
    }
}

/// Every delivery is owed: it goes to a client on the connection of some
/// database confirmation, under that confirmation's own user name.
pub proof fn lemma_deliveries_sound(
    responses: Seq<Response>,
    connections: Seq<ClientRecord>,
    d: Delivery,
)
    requires
        deliveries_for(responses, connections).contains(d),
    ensures
        exists|i: int, k: int|
            #[trigger] reaches(responses, connections, i, k) && d == delivery_owed(
                responses,
                connections,
                i,
                k,
            ),
    decreases responses.len(),
{
    let init = responses.drop_last();
    let rest = deliveries_for(init, connections);
    let last = responses.last();
    let ents = entities_on(connections, response_connection(last));
    let x = ents.map_values(
        |e: u64| Delivery { entity: e, payload: confirmation(response_name(last)) },
    );
    assert(deliveries_for(responses, connections) == rest + x);
    let t = choose|t: int| 0 <= t < (rest + x).len() && (rest + x)[t] == d;
    if t < rest.len() {
        assert(rest[t] == d);
        lemma_deliveries_sound(init, connections, d);
        let (i, k) = choose|i: int, k: int|
            #[trigger] reaches(init, connections, i, k) && d == delivery_owed(
                init,
                connections,
                i,
                k,
            );
        assert(init[i] == responses[i]);
        assert(reaches(responses, connections, i, k));
    } else {
        let u = t - rest.len();
        assert(x[u] == d);
        lemma_entities_on_contains(connections, response_connection(last), ents[u]);
        assert(ents.contains(ents[u]));
        let k = choose|k: int|
            0 <= k < connections.len() && (#[trigger] connections[k]).connection_id
                == response_connection(last) && connections[k].entity == ents[u];
        let i = responses.len() - 1;
        assert(reaches(responses, connections, i, k));
    }
}

/// Logins are granted one by one: the grants for two batches of messages in
/// a row are those of the first batch followed by those of the second.
pub proof fn lemma_grants_concat(a: Seq<Data>, b: Seq<Data>, clients: Seq<ClientRecord>)
    ensures
        grants_for(a + b, clients) == grants_for(a, clients) + grants_for(b, clients),
    decreases b.len(),
{
    if b.len() == 0 {
        assert(a + b =~= a);
        assert(grants_for(a, clients) + grants_for(b, clients) =~= grants_for(a, clients));
    } else {
        lemma_grants_concat(a, b.drop_last(), clients);
        assert((a + b).drop_last() =~= a + b.drop_last());
        assert((a + b).last() == b.last());
        match b.last().payload {
            Payload::ClientAuthenticated { username } => {
                let x = entities_on(clients, b.last().connection_id).map_values(
                    |e: u64| Grant { entity: e, authenticated: Authenticated { username } },
                );
                assert(grants_for(a, clients) + grants_for(b.drop_last(), clients) + x
                    =~= grants_for(a, clients) + (grants_for(b.drop_last(), clients) + x));
            },
            _ => {},
        }
    }
}

/// Every client on the connection of a confirmation message is marked as
/// logged in under that message's own user name.
pub proof fn lemma_grants_complete(data: Seq<Data>, clients: Seq<ClientRecord>, i: int, k: int)
    requires
        confirms(data, clients, i, k),
    ensures
        grants_for(data, clients).contains(grant_owed(data, clients, i, k)),
    decreases data.len(),
{
    let init = data.drop_last();
    let rest = grants_for(init, clients);
    let last = data.last();
    let g = grant_owed(data, clients, i, k);
    if i < data.len() - 1 {
        assert(init[i] == data[i]);
        lemma_grants_complete(init, clients, i, k);
        assert(grant_owed(init, clients, i, k) == g);
        let t = choose|t: int| 0 <= t < rest.len() && rest[t] == g;
        match last.payload {
            Payload::ClientAuthenticated { username } => {
                let x = entities_on(clients, last.connection_id).map_values(
                    |e: u64| Grant { entity: e, authenticated: Authenticated { username } },
                );
                assert((rest + x)[t] == g);
            },
            _ => {},
        }
    } else {
        let ents = entities_on(clients, last.connection_id);
        let x = ents.map_values(
            |e: u64| Grant { entity: e, authenticated: Authenticated { username: confirmed_name(last.payload) } },
        );
        assert(grants_for(data, clients) == rest + x);
        lemma_entities_on_contains(clients, last.connection_id, clients[k].entity);
        let t = choose|t: int| 0 <= t < ents.len() && ents[t] == clients[k].entity;
        assert(x[t] == g);
        assert((rest + x)[rest.len() + t] == g);
    }
}

/// Every grant is owed: it marks a client on the connection of some
/// confirmation message, under that message's own user name.
pub proof fn lemma_grants_sound(data: Seq<Data>, clients: Seq<ClientRecord>, g: Grant)
    requires
        grants_for(data, clients).contains(g),
    ensures
        exists|i: int, k: int|
            #[trigger] confirms(data, clients, i, k) && g == grant_owed(data, clients, i, k),
    decreases data.len(),
{
    let init = data.drop_last();
    let rest = grants_for(init, clients);
    let last = data.last();
    if rest.contains(g) {
        lemma_grants_sound(init, clients, g);
        let (i, k) = choose|i: int, k: int|
            #[trigger] confirms(init, clients, i, k) && g == grant_owed(init, clients, i, k);
        assert(init[i] == data[i]);
        assert(confirms(data, clients, i, k));
    } else {
        let ents = entities_on(clients, last.connection_id);
        let x = ents.map_values(
            |e: u64| Grant { entity: e, authenticated: Authenticated { username: confirmed_name(last.payload) } },
        );
        assert(last.payload is ClientAuthenticated) by {
            if !(last.payload is ClientAuthenticated) {
                assert(grants_for(data, clients) == rest);
            }
        }
        assert(grants_for(data, clients) == rest + x);
        let t = choose|t: int| 0 <= t < (rest + x).len() && (rest + x)[t] == g;
        if t < rest.len() {
            assert(rest[t] == g);
        }
        let u = t - rest.len();
        assert(x[u] == g);
        lemma_entities_on_contains(clients, last.connection_id, ents[u]);
        assert(ents.contains(ents[u]));
        let k = choose|k: int|
            0 <= k < clients.len() && (#[trigger] clients[k]).connection_id == last.connection_id
                && clients[k].entity == ents[u];
        let i = data.len() - 1;
        assert(confirms(data, clients, i, k));
    }
}

/// A single database confirmation is relayed to exactly the clients on
/// its connection, in their order, each once, under its own user name.
pub proof fn lemma_deliveries_single(r: Response, connections: Seq<ClientRecord>)
    ensures
        deliveries_for(seq![r], connections) == connections.filter(
            |c: ClientRecord| c.connection_id == response_connection(r),
        ).map_values(
            |c: ClientRecord| Delivery { entity: c.entity, payload: confirmation(response_name(r)) },
        ),
{
    let one = seq![r];
    assert(one.drop_last() =~= Seq::<Response>::empty());
    assert(one.last() == r);
    assert(deliveries_for(one.drop_last(), connections) == Seq::<Delivery>::empty());
    lemma_entities_on_are_the_clients_on(connections, response_connection(r));
    let on = connections.filter(|c: ClientRecord| c.connection_id == response_connection(r));
    let g = |e: u64| Delivery { entity: e, payload: confirmation(response_name(r)) };
    assert(Seq::<Delivery>::empty() + on.map_values(|c: ClientRecord| c.entity).map_values(g)
        =~= on.map_values(
        |c: ClientRecord| Delivery { entity: c.entity, payload: confirmation(response_name(r)) },
    ));
}

/// A single confirmation message marks exactly the clients on its
/// connection, in their order, each once, under its own user name; any
/// other message marks nobody.
pub proof fn lemma_grants_single(d: Data, clients: Seq<ClientRecord>)
    ensures
        grants_for(seq![d], clients) == if d.payload is ClientAuthenticated {
            clients.filter(|c: ClientRecord| c.connection_id == d.connection_id).map_values(
                |c: ClientRecord|
                    Grant {
                        entity: c.entity,
                        authenticated: Authenticated { username: confirmed_name(d.payload) },
                    },
            )
        } else {
            Seq::empty()
        },
{
    let one = seq![d];
    assert(one.drop_last() =~= Seq::<Data>::empty());
    assert(one.last() == d);
    assert(grants_for(one.drop_last(), clients) == Seq::<Grant>::empty());
    if d.payload is ClientAuthenticated {
        lemma_entities_on_are_the_clients_on(clients, d.connection_id);
        let on = clients.filter(|c: ClientRecord| c.connection_id == d.connection_id);
        let g = |e: u64|
            Grant { entity: e, authenticated: Authenticated { username: confirmed_name(d.payload) } };
        assert(Seq::<Grant>::empty() + on.map_values(|c: ClientRecord| c.entity).map_values(g)
            =~= on.map_values(
            |c: ClientRecord|
                Grant {
                    entity: c.entity,
                    authenticated: Authenticated { username: confirmed_name(d.payload) },
                },
        ));
    }
}

/// Handles login attempts: each attempt among `data` becomes a request to
/// the database with the attempt's connection, user name and password.
/// Other messages are skipped.
pub fn client_authenticate(data: &Vec<Data>) -> (requests: Vec<Request>)
    ensures
        requests@ == requests_for(data@),
        requests@ == data@.filter(|d: Data| is_attempt(d)).map_values(|d: Data| request_from(d)),
{
    let mut requests: Vec<Request> = Vec::new();
    let mut i: usize = 0;
    while i < data.len()
        invariant
            i <= data.len(),
            requests@ == requests_for(data@.take(i as int)),
        decreases data.len() - i,
    {
        assert(data@.take(i + 1).drop_last() == data@.take(i as int));
        match &data[i].payload {
            Payload::ClientAuthenticate(a) => {
                requests.push(
                    Request::ClientAuthenticate(
                        postgres::ClientAuthenticate {
                            connection_id: data[i].connection_id,
                            username: a.username.clone(),
                            password: a.password.clone(),
                        },
                    ),
                );
            },
            _ => {},
        }
        i = i + 1;
    }
    assert(data@.take(data.len() as int) == data@);
    proof {
        lemma_requests_are_the_attempts(data@);
    }
    requests
}

/// Handles the database's confirmations: for each, the confirmation message
/// goes to every client entity on the confirmed connection (the first
/// result), and is raised as an event on that connection (the second).
pub fn client_authenticate_validated(
    responses: &Vec<Response>,
    connections: &Vec<ClientRecord>,
) -> (out: (Vec<Delivery>, Vec<Data>))
    ensures
        out.0@ == deliveries_for(responses@, connections@),
        out.1@ == notices_for(responses@),
        forall|i: int, k: int|
            #[trigger] reaches(responses@, connections@, i, k) ==> out.0@.contains(
                delivery_owed(responses@, connections@, i, k),
            ),
        forall|d: Delivery|
            #[trigger] out.0@.contains(d) ==> exists|i: int, k: int|
                #[trigger] reaches(responses@, connections@, i, k) && d == delivery_owed(
                    responses@,
                    connections@,
                    i,
                    k,
                ),
        out.1.len() == responses.len(),
        forall|i: int| 0 <= i < responses.len() ==> out.1[i] == notice_of(#[trigger] responses[i]),
{
    let mut deliveries: Vec<Delivery> = Vec::new();
    let mut notices: Vec<Data> = Vec::new();
    let mut i: usize = 0;
    while i < responses.len()
        invariant
            i <= responses.len(),
            deliveries@ == deliveries_for(responses@.take(i as int), connections@),
            notices@ == notices_for(responses@.take(i as int)),
        decreases responses.len() - i,
    {
        assert(responses@.take(i + 1).drop_last() == responses@.take(i as int));
        match &responses[i] {
            Response::ClientAuthenticated(r) => {
                let entities = entities_of(connections, r.connection_id);
                let ghost before = deliveries@;
                let ghost f = |e: u64| Delivery { entity: e, payload: confirmation(r.username) };
                let mut j: usize = 0;
                while j < entities.len()
                    invariant
                        j <= entities.len(),
                        deliveries@ == before + entities@.take(j as int).map_values(f),
                        f == (|e: u64| Delivery { entity: e, payload: confirmation(r.username) }),
                    decreases entities.len() - j,
                {
                    assert(entities@.take(j + 1).map_values(f) == entities@.take(
                        j as int,
                    ).map_values(f).push(f(entities@[j as int])));
                    let d = Delivery {
                        entity: entities[j],
                        payload: Payload::ClientAuthenticated { username: r.username.clone() },
                    };
                    assert(d == f(entities@[j as int]));
                    deliveries.push(d);
                    assert(deliveries@ =~= before + entities@.take(j + 1).map_values(f));
                    j = j + 1;
                }
                assert(entities@.take(entities.len() as int) == entities@);
                notices.push(
                    Data {
                        connection_id: r.connection_id,
                        payload: Payload::ClientAuthenticated { username: r.username.clone() },
                    },
                );
            },
        }
        i = i + 1;
    }
    assert(responses@.take(responses.len() as int) == responses@);
    proof {
        lemma_notices_one_per_response(responses@);
        assert forall|i: int, k: int| #[trigger] reaches(responses@, connections@, i, k) implies deliveries@.contains(
            delivery_owed(responses@, connections@, i, k),
        ) by {
            lemma_deliveries_complete(responses@, connections@, i, k);
        }
        assert forall|d: Delivery| #[trigger] deliveries@.contains(d) implies exists|i: int, k: int|
            #[trigger] reaches(responses@, connections@, i, k) && d == delivery_owed(
                responses@,
                connections@,
                i,
                k,
            ) by {
            lemma_deliveries_sound(responses@, connections@, d);
        }
    }
    (deliveries, notices)
}

/// Handles confirmation messages: every client entity on the confirmed
/// connection is marked as logged in under the confirmed user name. Other
/// messages are skipped.
pub fn client_authenticated(data: &Vec<Data>, clients: &Vec<ClientRecord>) -> (grants: Vec<Grant>)
    ensures
        grants@ == grants_for(data@, clients@),
        forall|i: int, k: int|
            #[trigger] confirms(data@, clients@, i, k) ==> grants@.contains(
                grant_owed(data@, clients@, i, k),
            ),
        forall|g: Grant|
            #[trigger] grants@.contains(g) ==> exists|i: int, k: int|
                #[trigger] confirms(data@, clients@, i, k) && g == grant_owed(data@, clients@, i, k),
{
    let mut grants: Vec<Grant> = Vec::new();
    let mut i: usize = 0;
    while i < data.len()
        invariant
            i <= data.len(),
            grants@ == grants_for(data@.take(i as int), clients@),
        decreases data.len() - i,
    {
        assert(data@.take(i + 1).drop_last() == data@.take(i as int));
        match &data[i].payload {
            Payload::ClientAuthenticated { username } => {
                let entities = entities_of(clients, data[i].connection_id);
                let ghost before = grants@;
                let ghost f = |e: u64|
                    Grant { entity: e, authenticated: Authenticated { username: *username } };
                let mut j: usize = 0;
                while j < entities.len()
                    invariant
                        j <= entities.len(),
                        grants@ == before + entities@.take(j as int).map_values(f),
                        f == (|e: u64|
                            Grant { entity: e, authenticated: Authenticated { username: *username } }),
                    decreases entities.len() - j,
                {
                    assert(entities@.take(j + 1).map_values(f) == entities@.take(
                        j as int,
                    ).map_values(f).push(f(entities@[j as int])));
                    let g = Grant {
                        entity: entities[j],
                        authenticated: Authenticated { username: username.clone() },
                    };
                    assert(g == f(entities@[j as int]));
                    grants.push(g);
                    assert(grants@ =~= before + entities@.take(j + 1).map_values(f));
                    j = j + 1;
                }
                assert(entities@.take(entities.len() as int) == entities@);
            },
            _ => {},
        }
        i = i + 1;
    }
    assert(data@.take(data.len() as int) == data@);
    proof {
        assert forall|i: int, k: int| #[trigger] confirms(data@, clients@, i, k) implies grants@.contains(
            grant_owed(data@, clients@, i, k),
        ) by {
            lemma_grants_complete(data@, clients@, i, k);
        }
        assert forall|g: Grant| #[trigger] grants@.contains(g) implies exists|i: int, k: int|
            #[trigger] confirms(data@, clients@, i, k) && g == grant_owed(data@, clients@, i, k) by {
            lemma_grants_sound(data@, clients@, g);
        }
    }
    grants
}

} // verus!
