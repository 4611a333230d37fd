use std::sync::Arc;

use swindon::cid::Cid;
use swindon::error::Status;
use swindon::map::KeySet;
use swindon::processor::Action;
use swindon::replication::{
    incoming_route, listen_plan, parse_remote_id, Authorizer, HandshakeError, RemoteAction, Watcher,
};

#[test]
fn remote_actions_become_local() {
    let a: Action<()> = RemoteAction::UpdateActivity { session_id: "s".into(), duration: 10 }.into_action(100);
    assert!(matches!(a, Action::UpdateActivity { ref session_id, timestamp: 110 } if session_id == "s"));
    let a: Action<()> = RemoteAction::Subscribe { conn_id: Cid(1), server_id: "x".into(), topic: "t".into() }
        .into_action(0);
    assert!(matches!(a, Action::Subscribe { conn_id: Cid(1), ref topic } if topic == "t"));
    let a: Action<()> = RemoteAction::Publish { topic: "t".into(), data: Arc::new(()) }.into_action(0);
    assert!(matches!(a, Action::Publish { .. }));
}

#[test]
fn watcher_reconnects_what_needs_it() {
    let mut w = Watcher::new();
    let wanted = vec!["p1".to_string(), "p2".to_string(), "p1".to_string()];
    let out = w.reconnect(&wanted, 100, 50);
    assert_eq!(out, vec!["p1".to_string(), "p2".to_string()]);
    // still connecting: nothing to do
    let out = w.reconnect(&wanted, 120, 50);
    assert!(out.is_empty());
    // p1 connects; p2 times out
    w.attach("node1".into(), Some("p1".into()));
    let out = w.reconnect(&wanted, 200, 50);
    assert_eq!(out, vec!["p2".to_string()]);
    // the link to p1 drops
    w.drop_link(&"node1".to_string());
    let out = w.reconnect(&wanted, 210, 50);
    assert_eq!(out, vec!["p1".to_string()]);
    // p2 is no longer configured
    let out = w.reconnect(&vec!["p1".to_string()], 300, 50);
    assert_eq!(out, vec!["p1".to_string()]);
}

#[test]
fn listen_plan_stops_unwanted() {
    let mut current = KeySet::new();
    current.insert("127.0.0.1:1".to_string());
    current.insert("127.0.0.1:2".to_string());
    let stop = listen_plan(&current, &vec!["127.0.0.1:2".to_string(), "127.0.0.1:3".to_string()]);
    assert_eq!(stop, vec!["127.0.0.1:1".to_string()]);
}

#[test]
fn remote_id_from_headers() {
    let headers = vec![("Host".to_string(), b"x".to_vec()), ("x-swindon-node-id".to_string(), b"abc".to_vec())];
    assert_eq!(parse_remote_id(&headers).as_deref(), Some("abc"));
    assert_eq!(parse_remote_id(&[]), None);
    let bad = vec![("X-Swindon-Node-Id".to_string(), vec![0xff])];
    assert_eq!(parse_remote_id(&bad), None);
}

#[test]
fn incoming_routes() {
    assert_eq!(incoming_route(Some("/v1/swindon-chat"), true, Some("n".into())), Ok("n".to_string()));
    assert!(matches!(incoming_route(Some("/v1/swindon-chat"), false, Some("n".into())), Err(Status { code: 400 })));
    assert!(matches!(incoming_route(Some("/v1/swindon-chat"), true, None), Err(Status { code: 400 })));
    assert!(matches!(incoming_route(Some("/other"), true, None), Err(Status { code: 404 })));
    assert!(matches!(incoming_route(None, true, None), Err(Status { code: 404 })));
}

#[test]
fn replication_handshake_of_a_client() {
    let a = Authorizer::new("peer:8080".to_string(), "node-1".to_string());
    let (path, headers) = a.write_headers();
    assert_eq!(path, "/v1/swindon-chat");
    assert_eq!(headers, vec![
        ("Host", "peer:8080".to_string()),
        ("Origin", "http://peer:8080/v1/swindon-chat".to_string()),
        ("X-Swindon-Node-Id", "node-1".to_string()),
    ]);
    let ok = vec![("x-swindon-node-id".to_string(), b"node-2".to_vec())];
    assert_eq!(a.headers_received(&ok).unwrap(), "node-2");
    let missing = vec![("Host".to_string(), b"x".to_vec())];
    assert_eq!(a.headers_received(&missing).unwrap_err(), HandshakeError::MissingNodeId);
    let invalid = vec![("X-Swindon-Node-Id".to_string(), vec![0xff, 0xfe])];
    assert_eq!(a.headers_received(&invalid).unwrap_err(), HandshakeError::InvalidNodeId);
}
