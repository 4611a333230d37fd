use swindon::cid::Cid;
use swindon::codec::{dispatch, headers_received, Request, Route, State};
use swindon::error::Status;
use swindon::processor::Action;

fn query(s: &State) -> &Route {
    match s {
        State::Query(r) => r,
        _ => panic!("not a query"),
    }
}

#[test]
fn dispatch_subscriptions() {
    let s = dispatch("connection/12/subscriptions/chat/room1", "PUT");
    assert!(matches!(query(&s), Route::Subscribe(Cid(12), t) if t == "chat.room1"));
    let s = dispatch("connection/12/subscriptions/chat/room1", "DELETE");
    assert!(matches!(query(&s), Route::Unsubscribe(Cid(12), t) if t == "chat.room1"));
    let s = dispatch("connection/12/subscriptions/chat/room1", "POST");
    assert!(matches!(s, State::Error(Status { code: 404 })));
}

#[test]
fn dispatch_lattices() {
    let s = dispatch("connection/7/lattices/chat/rooms", "PUT");
    assert!(matches!(query(&s), Route::Attach(Cid(7), n) if n == "chat.rooms"));
    let s = dispatch("connection/7/lattices/chat/rooms", "DELETE");
    assert!(matches!(query(&s), Route::Detach(Cid(7), n) if n == "chat.rooms"));
}

#[test]
fn dispatch_publish_and_lattice() {
    let s = dispatch("publish/chat/room1", "POST");
    assert!(matches!(query(&s), Route::Publish(t) if t == "chat.room1"));
    let s = dispatch("lattice/chat/rooms", "POST");
    assert!(matches!(query(&s), Route::Lattice(n) if n == "chat.rooms"));
}

#[test]
fn dispatch_not_found() {
    for (path, method) in [
        ("connection/abc/subscriptions/room", "PUT"),
        ("connection/12/other/room", "PUT"),
        ("connection/12/subscriptions", "PUT"),
        ("connection", "PUT"),
        ("publish", "POST"),
        ("unknown/x", "POST"),
        ("", "GET"),
    ] {
        assert!(matches!(dispatch(path, method), State::Error(Status { code: 404 })), "{}", path);
    }
}

#[test]
fn headers_received_checks_prefix() {
    assert!(matches!(headers_received(None, "GET").state, State::Error(Status { code: 400 })));
    assert!(matches!(headers_received(Some("/v2/publish/x"), "POST").state,
        State::Error(Status { code: 404 })));
    let r = headers_received(Some("/v1/publish/x/y"), "POST");
    assert!(matches!(query(&r.state), Route::Publish(t) if t == "x.y"));
}

#[test]
fn data_received_subscribe() {
    let mut r = Request { state: State::Query(Route::Subscribe(Cid(3), "t".to_string())) };
    let (action, n) = r.data_received(b"", true);
    assert_eq!(n, 0);
    assert!(matches!(action, Some(Action::Subscribe { conn_id: Cid(3), ref topic }) if topic == "t"));
    assert!(matches!(r.state, State::Done));
    assert_eq!(r.start_response().code, 204);

    let mut r = Request { state: State::Query(Route::Unsubscribe(Cid(3), "t".to_string())) };
    let (action, n) = r.data_received(b"x", true);
    assert_eq!(n, 1);
    assert!(action.is_none());
    assert_eq!(r.start_response().code, 400);
}

#[test]
fn data_received_publish() {
    let mut r = Request { state: State::Query(Route::Publish("t".to_string())) };
    let (action, _) = r.data_received(b"{\"a\": 1}", true);
    assert!(matches!(action, Some(Action::Publish { ref topic, .. }) if topic == "t"));
    assert!(matches!(r.state, State::Done));
    let expected = rustc_serialize::json::Json::from_str("{\"a\": 1}").unwrap();
    assert!(matches!(action, Some(Action::Publish { ref data, .. }) if **data == expected));

    let mut r = Request { state: State::Query(Route::Publish("t".to_string())) };
    let (action, _) = r.data_received(b"{not json", true);
    assert!(action.is_none());
    assert_eq!(r.start_response().code, 400);

    let mut r = Request { state: State::Query(Route::Publish("t".to_string())) };
    let (action, _) = r.data_received(&[0xff, 0xfe], true);
    assert!(action.is_none());
    assert_eq!(r.start_response().code, 400);
}

#[test]
fn data_received_keeps_errors() {
    let mut r = Request { state: State::Error(Status { code: 404 }) };
    let (action, _) = r.data_received(b"", true);
    assert!(action.is_none());
    assert_eq!(r.start_response().code, 404);
}

#[test]
fn route_texts() {
    assert_eq!(Route::Subscribe(Cid(3), "a.b".to_string()).to_text(), "Subscribe cid:3 \"a.b\"");
    assert_eq!(Route::Unsubscribe(Cid(3), "a".to_string()).to_text(), "Unsubscribe cid:3 \"a\"");
    assert_eq!(Route::Publish("t".to_string()).to_text(), "Publish \"t\"");
    assert_eq!(Route::Attach(Cid(1), "n".to_string()).to_text(), "Lattice attach cid:1 \"n\"");
    assert_eq!(Route::Detach(Cid(1), "n".to_string()).to_text(), "Lattice detach cid:1 \"n\"");
    assert_eq!(Route::Lattice("n".to_string()).to_text(), "Lattice update \"n\"");
}
