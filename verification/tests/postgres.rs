use game_server::postgres::{handle_request, ClientAuthenticate, Request, Response};

fn request(connection_id: usize, username: &str, password: &str) -> Request {
    Request::ClientAuthenticate(ClientAuthenticate {
        connection_id,
        username: username.to_string(),
        password: password.to_string(),
    })
}

#[test]
fn valid_credentials_are_confirmed() {
    match handle_request(request(7, "foo", "bar")) {
        Some(Response::ClientAuthenticated(r)) => {
            assert_eq!(r.connection_id, 7);
            assert_eq!(r.username, "foo");
        }
        None => panic!("valid credentials were refused"),
    }
}

#[test]
fn wrong_password_is_unanswered() {
    assert!(handle_request(request(1, "foo", "baz")).is_none());
}

#[test]
fn wrong_username_is_unanswered() {
    assert!(handle_request(request(1, "bar", "bar")).is_none());
}

#[test]
fn credentials_are_case_sensitive() {
    assert!(handle_request(request(1, "Foo", "bar")).is_none());
    assert!(handle_request(request(1, "foo", "BAR")).is_none());
}

#[test]
fn empty_credentials_are_unanswered() {
    assert!(handle_request(request(1, "", "")).is_none());
}

#[test]
fn credentials_with_extra_text_are_unanswered() {
    assert!(handle_request(request(1, "foo ", "bar")).is_none());
    assert!(handle_request(request(1, "foo", "bar\n")).is_none());
}

#[test]
fn answer_stream_confirms_accepted_requests_in_order() {
    let requests = vec![
        request(1, "foo", "bar"),
        request(2, "foo", "nope"),
        request(3, "foo", "bar"),
        request(4, "guest", "bar"),
    ];
    let answers = game_server::postgres::handle_requests(requests);
    let ids: Vec<usize> = answers
        .iter()
        .map(|Response::ClientAuthenticated(r)| r.connection_id)
        .collect();
    assert_eq!(ids, vec![1, 3]);
    for Response::ClientAuthenticated(r) in &answers {
        assert_eq!(r.username, "foo");
    }
}

#[test]
fn answer_stream_of_nothing_is_empty() {
    assert!(game_server::postgres::handle_requests(Vec::new()).is_empty());
    assert!(game_server::postgres::handle_requests(vec![request(1, "a", "b")]).is_empty());
}
