//! The account database backend: it answers authentication requests.

use vstd::prelude::*;

verus! {

/// A login attempt forwarded from a connection to the database.
#[derive(Clone, Debug)]
pub struct ClientAuthenticate {
    pub connection_id: usize,
    pub username: String,
    pub password: String,
}

/// The database's confirmation that a connection logged in as `username`.
#[derive(Clone, Debug)]
pub struct ClientAuthenticated {
    pub connection_id: usize,
    pub username: String,
}

/// What the game asks of the database.
#[derive(Clone, Debug)]
pub enum Request {
    ClientAuthenticate(ClientAuthenticate),
}

/// What the database answers.
#[derive(Clone, Debug)]
pub enum Response {
    ClientAuthenticated(ClientAuthenticated),
}

/// The one account the backend knows: user `foo` with password `bar`.
pub open spec fn valid_credentials(username: Seq<char>, password: Seq<char>) -> bool {
    username == "foo"@ && password == "bar"@
}

/// The answer owed to a request: a confirmation carrying the request's
/// connection and user name when the credentials are valid, else none.
pub open spec fn response_to(request: Request) -> Option<Response> {
    match request {
        Request::ClientAuthenticate(a) => if valid_credentials(a.username@, a.password@) {
            Some(
                Response::ClientAuthenticated(
                    ClientAuthenticated { connection_id: a.connection_id, username: a.username },
                ),
            )
        } else {
            None
        },
    }
}

/// Whether a request carries the credentials the backend accepts.
pub open spec fn is_accepted(request: Request) -> bool {
    match request {
        Request::ClientAuthenticate(a) => valid_credentials(a.username@, a.password@),
    }
}

/// The confirmation of a request: its connection and its user name.
pub open spec fn confirmation_of(request: Request) -> Response {
    match request {
        Request::ClientAuthenticate(a) => Response::ClientAuthenticated(
            ClientAuthenticated { connection_id: a.connection_id, username: a.username },
        ),
    }
}

/// The answers, in order, to a stream of requests: each request's answer,
/// where it has one, after those of the requests before it.
pub open spec fn answers(requests: Seq<Request>) -> Seq<Response>
    decreases requests.len(),
{
    if requests.len() == 0 {
        Seq::empty()
    } else {
        let rest = answers(requests.drop_last());
        match response_to(requests.last()) {
            Some(response) => rest.push(response),
            None => rest,
        }
    }
}

/// The answer stream: the answers to a stream of requests are the
/// confirmations of exactly the accepted requests, in the order the
/// requests came, one for each.
pub proof fn lemma_answers_are_accepted_in_order(requests: Seq<Request>)
    ensures
        answers(requests) == requests.filter(|r: Request| is_accepted(r)).map_values(
            |r: Request| confirmation_of(r),
        ),
    decreases requests.len(),
{
    let p = |r: Request| is_accepted(r);
    let f = |r: Request| confirmation_of(r);
    reveal(Seq::filter);
    if requests.len() == 0 {
        assert(requests.filter(p) =~= Seq::<Request>::empty());
        assert(requests.filter(p).map_values(f) =~= Seq::<Response>::empty());
    } else {
        let init = requests.drop_last();
        lemma_answers_are_accepted_in_order(init);
        let last = requests.last();
        assert(requests.filter(p) == if p(last) {
            init.filter(p).push(last)
        } else {
            init.filter(p)
        });
        if p(last) {
            assert(init.filter(p).push(last).map_values(f) =~= init.filter(p).map_values(f).push(
                f(last),
            ));
        }
    }
}

/// Handles one request: a login with user `foo` and password `bar` is
/// confirmed, any other login is left unanswered.
pub fn handle_request(request: Request) -> (response: Option<Response>)
    ensures
        response == response_to(request),
        match request {
            Request::ClientAuthenticate(a) => {
                &&& (response is Some <==> a.username@ == "foo"@ && a.password@ == "bar"@)
                &&& (response matches Some(Response::ClientAuthenticated(c)) ==> c.connection_id
                    == a.connection_id && c.username == a.username)
            },
        },
{
    match request {
        Request::ClientAuthenticate(a) => {
            let foo = String::from_str("foo");
            let bar = String::from_str("bar");
            if a.username == foo && a.password == bar {
                Some(
                    Response::ClientAuthenticated(
                        ClientAuthenticated { connection_id: a.connection_id, username: a.username },
                    ),
                )
            } else {
                None
            }
        },
    }
}

/// Handles a stream of requests in order: the answers, in order, of those
/// that have one.
pub fn handle_requests(requests: Vec<Request>) -> (responses: Vec<Response>)
    ensures
        responses@ == answers(requests@),
        responses@ == requests@.filter(|r: Request| is_accepted(r)).map_values(
            |r: Request| confirmation_of(r),
        ),
{
    let ghost all = requests@;
    let mut responses: Vec<Response> = Vec::new();
    let mut pending = requests;
    while pending.len() > 0
        invariant
            pending.len() <= all.len(),
            pending@ == all.subrange(all.len() - pending.len(), all.len() as int),
            responses@ == answers(all.take(all.len() - pending.len())),
        decreases pending.len(),
    {
        let ghost k = all.len() - pending.len();
        let request = pending.remove(0);
        assert(request == all[k]);
        assert(all.take(k + 1).drop_last() == all.take(k));
        assert(all.take(k + 1).last() == all[k]);
        if let Some(response) = handle_request(request) {
            responses.push(response);
        }
        assert(pending@ =~= all.subrange(all.len() - pending.len(), all.len() as int));
    }
    assert(all.take(all.len() as int) == all);
    proof {
        lemma_answers_are_accepted_in_order(all);
    }
    responses
}

} // verus!
