//! The HTTP side of a session pool: requests that backends send to
//! subscribe connections, publish and update lattices.
use vstd::prelude::*;
use std::sync::Arc;
use crate::cid::{Cid, cid_debug, parse_u64};
use crate::dispatcher::concat;
use crate::error::{debug_quote, debug_quoted};
use crate::error::Status;
use crate::handler::{chars_to_string, dotted, is_segment, lemma_tail_after_cons, tail_after, tail_offset};
use crate::processor::Action;
use crate::message::str_starts_with;
use crate::text::{
    chars_eq_str, lemma_split_nonempty, split_on_char, split_seq, str_chars, str_eq,
    tail_replacing, utf8_decode, utf8_text,
};

verus! {

#[verifier::external_type_specification]
#[verifier::external_body]
pub struct ExJson(rustc_serialize::json::Json);

/// The JSON value that `rustc_serialize` reads from the text `s`; `None`
/// where `s` is not JSON.
pub uninterp spec fn json_parsed(s: Seq<char>) -> Option<rustc_serialize::json::Json>;

/// Whether `s` is a JSON text that `rustc_serialize` reads.
pub open spec fn json_text_ok(s: Seq<char>) -> bool {
    json_parsed(s) is Some
}

/// `rustc_serialize::json::Json::from_str`: the JSON value that `s`
/// spells; `None` exactly where it spells none.
#[verifier::external_body]
fn json_from_str(s: &str) -> (r: Option<rustc_serialize::json::Json>)
    ensures
        r == json_parsed(s@),
{
    rustc_serialize::json::Json::from_str(s).ok()
}

/// A request of a backend to a session pool.
#[derive(Debug)]
pub enum Route {
    /// `PUT /v1/connection/<conn_id>/subscriptions/<path>`
    Subscribe(Cid, String),
    /// `DELETE /v1/connection/<conn_id>/subscriptions/<path>`
    Unsubscribe(Cid, String),
    /// `POST /v1/publish/<path>`
    Publish(String),
    /// `PUT /v1/connection/<conn_id>/lattices/<namespace>`
    Attach(Cid, String),
    /// `DELETE /v1/connection/<conn_id>/lattices/<namespace>`
    Detach(Cid, String),
    /// `POST /v1/lattice/<namespace>`
    Lattice(String),
}

/// Where a request stands.
#[derive(Debug)]
pub enum State {
    Query(Route),
    Done,
    Error(Status),
}

/// A route by the text of its parts.
pub enum RouteView {
    Subscribe(u64, Seq<char>),
    Unsubscribe(u64, Seq<char>),
    Publish(Seq<char>),
    Attach(u64, Seq<char>),
    Detach(u64, Seq<char>),
    Lattice(Seq<char>),
}

/// A request state by the text of its parts.
pub enum StateView {
    Query(RouteView),
    Done,
    Error(u16),
}

impl View for Route {
    type V = RouteView;

    open spec fn view(&self) -> RouteView {
        match self {
            Route::Subscribe(c, t) => RouteView::Subscribe(c.0, t@),
            Route::Unsubscribe(c, t) => RouteView::Unsubscribe(c.0, t@),
            Route::Publish(t) => RouteView::Publish(t@),
            Route::Attach(c, n) => RouteView::Attach(c.0, n@),
            Route::Detach(c, n) => RouteView::Detach(c.0, n@),
            Route::Lattice(n) => RouteView::Lattice(n@),
        }
    }
}

/// The text that names a route in logs: what it does, the connection in
/// its alternate debug form, and the name in its debug form.
pub open spec fn route_text(r: RouteView) -> Seq<char> {
    match r {
        RouteView::Subscribe(c, t) => "Subscribe "@ + cid_debug(c, true) + " "@ + debug_quoted(t),
        RouteView::Unsubscribe(c, t) => "Unsubscribe "@ + cid_debug(c, true) + " "@ + debug_quoted(t),
        RouteView::Publish(t) => "Publish "@ + debug_quoted(t),
        RouteView::Attach(c, n) => "Lattice attach "@ + cid_debug(c, true) + " "@ + debug_quoted(n),
        RouteView::Detach(c, n) => "Lattice detach "@ + cid_debug(c, true) + " "@ + debug_quoted(n),
        RouteView::Lattice(n) => "Lattice update "@ + debug_quoted(n),
    }
}

/// `<word><connection> <name>`.
fn conn_name_text(word: &str, c: Cid, name: &String) -> (r: String)
    ensures
        r@ == word@ + cid_debug(c.0, true) + " "@ + debug_quoted(name@),
{
    let a = concat(word, c.debug_text(true).as_str());
    let b = concat(a.as_str(), " ");
    concat(b.as_str(), debug_quote(name.as_str()).as_str())
}

impl Route {
    /// The text that names the route in logs (see `route_text`).
    pub fn to_text(&self) -> (r: String)
        ensures
            r@ == route_text(self@),
    {
        match self {
            Route::Subscribe(c, t) => conn_name_text("Subscribe ", *c, t),
            Route::Unsubscribe(c, t) => conn_name_text("Unsubscribe ", *c, t),
            Route::Publish(t) => concat("Publish ", debug_quote(t.as_str()).as_str()),
            Route::Attach(c, n) => conn_name_text("Lattice attach ", *c, n),
            Route::Detach(c, n) => conn_name_text("Lattice detach ", *c, n),
            Route::Lattice(n) => concat("Lattice update ", debug_quote(n.as_str()).as_str()),
        }
    }
}

impl View for State {
    type V = StateView;

    open spec fn view(&self) -> StateView {
        match self {
            State::Query(r) => StateView::Query(r@),
            State::Done => StateView::Done,
            State::Error(s) => StateView::Error(s.code),
        }
    }
}

/// The route of a connection request on `method`, for connection `cid` and
/// the dotted name `name`: `PUT` makes `on`, `DELETE` makes `off`.
pub open spec fn connection_route(
    method: Seq<char>,
    cid: Option<u64>,
    name: Option<Seq<char>>,
    attach: bool,
) -> StateView {
    match (cid, name) {
        (Some(c), Some(n)) => if method == "PUT"@ {
            StateView::Query(if attach { RouteView::Attach(c, n) } else { RouteView::Subscribe(c, n) })
        } else if method == "DELETE"@ {
            StateView::Query(if attach { RouteView::Detach(c, n) } else { RouteView::Unsubscribe(c, n) })
        } else {
            StateView::Error(404)
        },
        _ => StateView::Error(404),
    }
}

/// What a request of `method` on `path` (the part after `/v1/`) asks for:
/// the path is cut at `/`, the first piece names the kind of request, and
/// for a connection request the next two pieces are the connection id and
/// `subscriptions` or `lattices`; the rest of the path, with `/` turned
/// into `.`, is the topic or namespace.
pub open spec fn dispatch_spec(path: Seq<char>, method: Seq<char>) -> StateView {
    let segs = split_seq(path, '/');
    if segs.len() > 1 && segs[0] == "connection"@ {
        let cid = parse_u64(segs[1]);
        let name = if segs.len() > 3 {
            Some(dotted(tail_after(path, 3)))
        } else {
            None
        };
        if segs.len() > 2 && segs[2] == "subscriptions"@ {
            connection_route(method, cid, name, false)
        } else if segs.len() > 2 && segs[2] == "lattices"@ {
            connection_route(method, cid, name, true)
        } else {
            StateView::Error(404)
        }
    } else if segs.len() > 1 && segs[0] == "publish"@ {
        StateView::Query(RouteView::Publish(dotted(tail_after(path, 1))))
    } else if segs.len() > 1 && segs[0] == "lattice"@ {
        StateView::Query(RouteView::Lattice(dotted(tail_after(path, 1))))
    } else {
        StateView::Error(404)
    }
}

/// The route of a request of `method` on `path`, the part of the request
/// path after `/v1/`.
pub fn dispatch(path: &str, method: &str) -> (r: State)
    ensures
        r@ == dispatch_spec(path@, method@),
{
    let pc = str_chars(path);
    let n_chars = pc.len();
    assert(path@.len() == n_chars);
    let segs = split_on_char(pc.as_slice(), '/');
    let ghost ss = split_seq(path@, '/');
    proof {
        lemma_split_nonempty(path@, '/');
        assert forall|k: int| 0 <= k < segs@.len() implies #[trigger] segs@[k]@ == ss[k] by {
            assert(crate::text::char_views(segs@)[k] == segs@[k]@);
        }
    }
    let n = segs.len();
    if n <= 1 {
        return State::Error(Status { code: 404 });
    }
    let head = &segs[0];
    proof {
        assert(head@.subrange(0, head@.len() as int) =~= head@);
    }
    if chars_eq_str(head.as_slice(), 0, head.len(), "connection") {
        let cid_text = chars_to_string(&segs[1]);
        let cid = Cid::parse(cid_text.as_str());
        let name = if n > 3 {
            let off = tail_offset(&segs, 3, Ghost(path@));
            Some(tail_replacing(pc.as_slice(), off, '/', '.'))
        } else {
            None
        };
        let attach = if n > 2 {
            let mid = &segs[2];
            proof {
                assert(mid@.subrange(0, mid@.len() as int) =~= mid@);
            }
            if chars_eq_str(mid.as_slice(), 0, mid.len(), "subscriptions") {
                Some(false)
            } else if chars_eq_str(mid.as_slice(), 0, mid.len(), "lattices") {
                Some(true)
            } else {
                None
            }
        } else {
            None
        };
        match (attach, cid, name) {
            (Some(attach), Some(cid), Some(name)) => {
                if str_eq(method, "PUT") {
                    State::Query(
                        if attach {
                            Route::Attach(cid, name)
                        } else {
                            Route::Subscribe(cid, name)
                        },
                    )
                } else if str_eq(method, "DELETE") {
                    State::Query(
                        if attach {
                            Route::Detach(cid, name)
                        } else {
                            Route::Unsubscribe(cid, name)
                        },
                    )
                } else {
                    State::Error(Status { code: 404 })
                }
            },
            _ => State::Error(Status { code: 404 }),
        }
    } else if chars_eq_str(head.as_slice(), 0, head.len(), "publish") {
        let off = tail_offset(&segs, 1, Ghost(path@));
        State::Query(Route::Publish(tail_replacing(pc.as_slice(), off, '/', '.')))
    } else if chars_eq_str(head.as_slice(), 0, head.len(), "lattice") {
        let off = tail_offset(&segs, 1, Ghost(path@));
        State::Query(Route::Lattice(tail_replacing(pc.as_slice(), off, '/', '.')))
    } else {
        State::Error(Status { code: 404 })
    }
}

/// What a request on `path` (where the request line has one) of `method`
/// asks for: paths outside `/v1/` are not found.
pub open spec fn route_request(path: Option<Seq<char>>, method: Seq<char>) -> StateView {
    match path {
        None => StateView::Error(400),
        Some(p) => if "/v1/"@.is_prefix_of(p) {
            dispatch_spec(p.skip(4), method)
        } else {
            StateView::Error(404)
        },
    }
}

/// Law: a request on `/v1/<rest>` is routed as `<rest>` is, and one
/// outside `/v1/` is not found.
pub proof fn law_route_request(rest: Seq<char>, p: Seq<char>, method: Seq<char>)
    ensures
        route_request(Some("/v1/"@ + rest), method) == dispatch_spec(rest, method),
        !"/v1/"@.is_prefix_of(p) ==> route_request(Some(p), method) == StateView::Error(404),
{
    reveal_strlit("/v1/");
    assert("/v1/"@.is_prefix_of("/v1/"@ + rest));
    assert(("/v1/"@ + rest).skip(4) =~= rest);
}

/// Law: `publish/<topic>` publishes to the topic and `lattice/<namespace>`
/// updates the namespace, names in dotted form, whatever the method.
pub proof fn law_dispatch_publish(t: Seq<char>, method: Seq<char>)
    ensures
        dispatch_spec("publish/"@ + t, method) == StateView::Query(RouteView::Publish(dotted(t))),
        dispatch_spec("lattice/"@ + t, method) == StateView::Query(RouteView::Lattice(dotted(t))),
{
    reveal_strlit("publish/");
    reveal_strlit("lattice/");
    reveal_strlit("publish");
    reveal_strlit("lattice");
    reveal_strlit("connection");
    lemma_split_nonempty(t, '/');
    assert(tail_after(t, 0) =~= t);
    lemma_tail_after_cons("publish"@, t, 0);
    lemma_tail_after_cons("lattice"@, t, 0);
    assert("publish/"@ + t =~= "publish"@ + seq!['/'] + t);
    assert("lattice/"@ + t =~= "lattice"@ + seq!['/'] + t);
    assert("lattice"@[0] != "publish"@[0]);
    assert("lattice"@.len() != "connection"@.len());
    assert("publish"@.len() != "connection"@.len());
}

/// The segments of `connection/<c>/<kind>/<rest>`, and what follows the
/// third `/`.
proof fn lemma_connection_path(c: Seq<char>, kind: Seq<char>, rest: Seq<char>)
    requires
        is_segment(c),
        is_segment(kind),
    ensures
        ({
            let path = "connection/"@ + c + seq!['/'] + kind + seq!['/'] + rest;
            &&& split_seq(path, '/') == seq!["connection"@, c, kind] + split_seq(rest, '/')
            &&& tail_after(path, 3) == rest
        }),
{
    reveal_strlit("connection/");
    reveal_strlit("connection");
    lemma_split_nonempty(rest, '/');
    assert(tail_after(rest, 0) =~= rest);
    let a = kind + seq!['/'] + rest;
    let b = c + seq!['/'] + a;
    let path = "connection"@ + seq!['/'] + b;
    lemma_tail_after_cons(kind, rest, 0);
    lemma_tail_after_cons(c, a, 1);
    lemma_tail_after_cons("connection"@, b, 2);
    assert("connection/"@ + c + seq!['/'] + kind + seq!['/'] + rest =~= path);
    assert(split_seq(path, '/') =~= seq!["connection"@, c, kind] + split_seq(rest, '/'));
}

/// Law: `PUT` and `DELETE` on `connection/<id>/subscriptions/<topic>`
/// subscribe the connection to the topic and unsubscribe it, and on
/// `connection/<id>/lattices/<namespace>` attach it and detach it, names in
/// dotted form; an id that is not a number, or another method, is not
/// found.
pub proof fn law_dispatch_connection(c: Seq<char>, t: Seq<char>, method: Seq<char>)
    requires
        is_segment(c),
    ensures
        dispatch_spec("connection/"@ + c + "/subscriptions/"@ + t, method) == connection_route(
            method,
            parse_u64(c),
            Some(dotted(t)),
            false,
        ),
        dispatch_spec("connection/"@ + c + "/lattices/"@ + t, method) == connection_route(
            method,
            parse_u64(c),
            Some(dotted(t)),
            true,
        ),
        parse_u64(c) matches Some(id) ==> {
            &&& connection_route("PUT"@, parse_u64(c), Some(dotted(t)), false) == StateView::Query(
                RouteView::Subscribe(id, dotted(t)),
            )
            &&& connection_route("DELETE"@, parse_u64(c), Some(dotted(t)), false)
                == StateView::Query(RouteView::Unsubscribe(id, dotted(t)))
            &&& connection_route("PUT"@, parse_u64(c), Some(dotted(t)), true) == StateView::Query(
                RouteView::Attach(id, dotted(t)),
            )
            &&& connection_route("DELETE"@, parse_u64(c), Some(dotted(t)), true)
                == StateView::Query(RouteView::Detach(id, dotted(t)))
        },
        parse_u64(c) is None || (method != "PUT"@ && method != "DELETE"@) ==> {
            &&& connection_route(method, parse_u64(c), Some(dotted(t)), false) == StateView::Error(404)
            &&& connection_route(method, parse_u64(c), Some(dotted(t)), true) == StateView::Error(404)
        },
{
    reveal_strlit("connection/");
    reveal_strlit("/subscriptions/");
    reveal_strlit("/lattices/");
    reveal_strlit("subscriptions");
    reveal_strlit("lattices");
    reveal_strlit("connection");
    reveal_strlit("PUT");
    reveal_strlit("DELETE");
    lemma_split_nonempty(t, '/');
    lemma_connection_path(c, "subscriptions"@, t);
    lemma_connection_path(c, "lattices"@, t);
    assert("connection/"@ + c + "/subscriptions/"@ + t =~= "connection/"@ + c + seq!['/']
        + "subscriptions"@ + seq!['/'] + t);
    assert("connection/"@ + c + "/lattices/"@ + t =~= "connection/"@ + c + seq!['/'] + "lattices"@
        + seq!['/'] + t);
    assert("DELETE"@.len() != "PUT"@.len());
    assert("subscriptions"@.len() != "lattices"@.len());
}

/// A request of a backend, and where it stands.
pub struct Request {
    pub state: State,
}

/// The state that a request ends in on body `data`, with the action for
/// the processor, from the state `s` that its headers gave.
pub open spec fn received(s: StateView, data: Seq<u8>) -> StateView {
    match s {
        StateView::Query(RouteView::Subscribe(_, _)) | StateView::Query(RouteView::Unsubscribe(_, _)) => {
            if data.len() == 0 {
                StateView::Done
            } else {
                StateView::Error(400)
            }
        },
        StateView::Query(RouteView::Publish(_)) => match utf8_text(data) {
            Some(text) => if json_text_ok(text) {
                StateView::Done
            } else {
                StateView::Error(400)
            },
            None => StateView::Error(400),
        },
        other => other,
    }
}

/// The request that the head of a request (its path, where the request line
/// has one, and its method) starts.
pub fn headers_received(path: Option<&str>, method: &str) -> (r: Request)
    ensures
        r.state@ == route_request(
            match path {
                Some(p) => Some(p@),
                None => None,
            },
            method@,
        ),
{
    let state = match path {
        Some(path) => {
            if !str_starts_with(path, "/v1/") {
                State::Error(Status { code: 404 })
            } else {
                let pc = str_chars(path);
                proof {
                    reveal_strlit("/v1/");
                    assert(pc@.len() >= 4);
                }
                let rest = tail_replacing(pc.as_slice(), 4, '/', '/');
                proof {
                    assert(rest@ =~= path@.skip(4));
                }
                dispatch(rest.as_str(), method)
            }
        },
        None => State::Error(Status { code: 400 }),
    };
    Request { state }
}

impl Request {
    /// Takes the whole body `data` of the request: a subscription request
    /// must have none, a published message must be JSON; gives back the
    /// action for the processor, if any, and how much of `data` was taken.
    pub fn data_received(&mut self, data: &[u8], end: bool) -> (r: (
        Option<Action<rustc_serialize::json::Json>>,
        usize,
    ))
        requires
            end,
            !(old(self).state is Done),
            !(old(self).state matches State::Query(Route::Attach(_, _))),
            !(old(self).state matches State::Query(Route::Detach(_, _))),
            !(old(self).state matches State::Query(Route::Lattice(_))),
        ensures
            r.1 == data@.len(),
            final(self).state@ == received(old(self).state@, data@),
            match old(self).state@ {
                StateView::Query(RouteView::Subscribe(c, t)) => if data@.len() == 0 {
                    r.0 matches Some(Action::Subscribe { conn_id, topic }) && conn_id@ == c && topic@ == t
                } else {
                    r.0 is None
                },
                StateView::Query(RouteView::Unsubscribe(c, t)) => if data@.len() == 0 {
                    r.0 matches Some(Action::Unsubscribe { conn_id, topic }) && conn_id@ == c && topic@ == t
                } else {
                    r.0 is None
                },
                StateView::Query(RouteView::Publish(t)) => if final(self).state is Done {
                    r.0 matches Some(Action::Publish { topic, data: d }) && topic@ == t && (utf8_text(
                        data@,
                    ) matches Some(text) && json_parsed(text) == Some(*d))
                } else {
                    r.0 is None
                },
                _ => r.0 is None,
            },
    {
        let mut query = State::Error(Status { code: 500 });
        std::mem::swap(&mut query, &mut self.state);
        let (state, action) = match query {
            State::Query(Route::Subscribe(cid, topic)) => {
                if data.len() == 0 {
                    (State::Done, Some(Action::Subscribe { conn_id: cid, topic }))
                } else {
                    (State::Error(Status { code: 400 }), None)
                }
            },
            State::Query(Route::Unsubscribe(cid, topic)) => {
                if data.len() == 0 {
                    (State::Done, Some(Action::Unsubscribe { conn_id: cid, topic }))
                } else {
                    (State::Error(Status { code: 400 }), None)
                }
            },
            State::Query(Route::Publish(topic)) => {
                let json = match utf8_decode(data) {
                    Some(text) => json_from_str(text),
                    None => None,
                };
                match json {
                    Some(json) => (State::Done, Some(Action::Publish { topic, data: Arc::new(json) })),
                    None => (State::Error(Status { code: 400 }), None),
                }
            },
            State::Error(e) => (State::Error(e), None),
            State::Query(Route::Attach(_, _)) => (State::Error(Status { code: 500 }), None),
            State::Query(Route::Detach(_, _)) => (State::Error(Status { code: 500 }), None),
            State::Query(Route::Lattice(_)) => (State::Error(Status { code: 500 }), None),
            State::Done => (State::Error(Status { code: 500 }), None),
        };
        self.state = state;
        (action, data.len())
    }

    /// The status of the response: the error's, or `204 No Content`.
    pub fn start_response(&self) -> (r: Status)
        ensures
            r.code == match self.state@ {
                StateView::Error(code) => code,
                _ => 204,
            },
    {
        match &self.state {
            State::Error(status) => *status,
            _ => Status { code: 204 },
        }
    }
}

} // verus!
