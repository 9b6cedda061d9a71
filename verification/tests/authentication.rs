use game_server::authentication::{
    client_authenticate, client_authenticate_validated, client_authenticated,
};
use game_server::connection::ClientRecord;
use game_server::postgres::{self, handle_request, Request, Response};
use game_server::quic::{ClientAuthenticate, Data, Payload};

fn attempt(connection_id: usize, username: &str, password: &str) -> Data {
    Data {
        connection_id,
        payload: Payload::ClientAuthenticate(ClientAuthenticate {
            username: username.to_string(),
            password: password.to_string(),
        }),
    }
}

fn confirmation(connection_id: usize, username: &str) -> Data {
    Data {
        connection_id,
        payload: Payload::ClientAuthenticated { username: username.to_string() },
    }
}

fn response(connection_id: usize, username: &str) -> Response {
    Response::ClientAuthenticated(postgres::ClientAuthenticated {
        connection_id,
        username: username.to_string(),
    })
}

fn record(entity: u64, connection_id: usize) -> ClientRecord {
    ClientRecord { entity, connection_id }
}

fn confirmed_name(p: &Payload) -> Option<&str> {
    match p {
        Payload::ClientAuthenticated { username } => Some(username),
        _ => None,
    }
}

#[test]
fn attempts_become_requests_in_order() {
    let data = vec![attempt(1, "foo", "bar"), confirmation(2, "x"), attempt(3, "a", "b")];
    let requests = client_authenticate(&data);
    assert_eq!(requests.len(), 2);
    let Request::ClientAuthenticate(r) = &requests[0];
    assert_eq!((r.connection_id, r.username.as_str(), r.password.as_str()), (1, "foo", "bar"));
    let Request::ClientAuthenticate(r) = &requests[1];
    assert_eq!((r.connection_id, r.username.as_str(), r.password.as_str()), (3, "a", "b"));
}

#[test]
fn no_attempts_no_requests() {
    assert!(client_authenticate(&vec![confirmation(1, "foo")]).is_empty());
    assert!(client_authenticate(&Vec::new()).is_empty());
}

#[test]
fn confirmation_goes_to_every_client_on_the_connection() {
    let connections = vec![record(10, 1), record(11, 2), record(12, 1)];
    let (deliveries, notices) =
        client_authenticate_validated(&vec![response(1, "foo")], &connections);
    assert_eq!(deliveries.len(), 2);
    assert_eq!(deliveries[0].entity, 10);
    assert_eq!(deliveries[1].entity, 12);
    for d in &deliveries {
        assert_eq!(confirmed_name(&d.payload), Some("foo"));
    }
    assert_eq!(notices.len(), 1);
    assert_eq!(notices[0].connection_id, 1);
    assert_eq!(confirmed_name(&notices[0].payload), Some("foo"));
}

#[test]
fn confirmation_for_an_unknown_connection_is_still_raised() {
    let (deliveries, notices) =
        client_authenticate_validated(&vec![response(9, "foo")], &vec![record(10, 1)]);
    assert!(deliveries.is_empty());
    assert_eq!(notices.len(), 1);
    assert_eq!(notices[0].connection_id, 9);
}

#[test]
fn confirmations_are_handled_in_order() {
    let connections = vec![record(10, 1), record(11, 2)];
    let (deliveries, notices) = client_authenticate_validated(
        &vec![response(2, "b"), response(1, "a")],
        &connections,
    );
    assert_eq!(deliveries.len(), 2);
    assert_eq!((deliveries[0].entity, confirmed_name(&deliveries[0].payload)), (11, Some("b")));
    assert_eq!((deliveries[1].entity, confirmed_name(&deliveries[1].payload)), (10, Some("a")));
    assert_eq!(notices.len(), 2);
    assert_eq!(notices[0].connection_id, 2);
    assert_eq!(notices[1].connection_id, 1);
}

#[test]
fn confirmed_clients_are_marked_logged_in() {
    let clients = vec![record(10, 1), record(11, 2), record(12, 1)];
    let data = vec![attempt(2, "foo", "bar"), confirmation(1, "foo")];
    let grants = client_authenticated(&data, &clients);
    assert_eq!(grants.len(), 2);
    assert_eq!(grants[0].entity, 10);
    assert_eq!(grants[1].entity, 12);
    for g in &grants {
        assert_eq!(g.authenticated.username, "foo");
    }
}

#[test]
fn login_round_trip_with_valid_credentials() {
    let clients = vec![record(30, 4), record(31, 5)];
    let requests = client_authenticate(&vec![attempt(4, "foo", "bar")]);
    let responses: Vec<Response> = requests.into_iter().filter_map(handle_request).collect();
    assert_eq!(responses.len(), 1);
    let (deliveries, notices) = client_authenticate_validated(&responses, &clients);
    assert_eq!(deliveries.len(), 1);
    assert_eq!(deliveries[0].entity, 30);
    let grants = client_authenticated(&notices, &clients);
    assert_eq!(grants.len(), 1);
    assert_eq!(grants[0].entity, 30);
    assert_eq!(grants[0].authenticated.username, "foo");
}

#[test]
fn login_round_trip_with_wrong_password_marks_nobody() {
    let clients = vec![record(30, 4)];
    let requests = client_authenticate(&vec![attempt(4, "foo", "nope")]);
    let responses: Vec<Response> = requests.into_iter().filter_map(handle_request).collect();
    assert!(responses.is_empty());
    let (deliveries, notices) = client_authenticate_validated(&responses, &clients);
    assert!(deliveries.is_empty());
    assert!(client_authenticated(&notices, &clients).is_empty());
}
