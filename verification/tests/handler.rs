use swindon::handler::match_route;
use swindon::handler::ChatRoute::{LatticeSubscribe, LatticeUnsubscribe, LatticeUpdate, TopicPublish, TopicSubscribe, TopicUnsubscribe};
use swindon::handler::Method;

#[test]
fn match_topic_publish() {
    let path = "/v1/topic/test-chat/room1";
    let route = match_route(&Method::Post, path).unwrap();
    assert_eq!(route, TopicPublish("test-chat.room1".into()));
}

#[test]
fn match_lattice_update() {
    let path = "/v1/lattice/test-chat/rooms";
    let route = match_route(&Method::Post, path).unwrap();
    assert_eq!(route, LatticeUpdate("test-chat.rooms".into()));
}

#[test]
fn match_topic_subscribe() {
    let path = "/v1/connection/abcde/subscriptions/test-chat/room1";
    let route = match_route(&Method::Put, path).unwrap();
    assert_eq!(
        route,
        TopicSubscribe("abcde".to_string(), "test-chat.room1".to_string())
    );
}

#[test]
fn match_topic_unsubscribe() {
    let path = "/v1/connection/abcde/subscriptions/test-chat/room1";
    let route = match_route(&Method::Delete, path).unwrap();
    assert_eq!(
        route,
        TopicUnsubscribe("abcde".to_string(), "test-chat.room1".to_string())
    );
}

#[test]
fn match_lattice_subscribe() {
    let path = "/v1/connection/abcde/lattices/test-chat/room1";
    let route = match_route(&Method::Put, path).unwrap();
    assert_eq!(
        route,
        LatticeSubscribe("abcde".to_string(), "test-chat.room1".to_string())
    );
}

#[test]
fn match_lattice_unsubscribe() {
    let path = "/v1/connection/abcde/lattices/test-chat/room1";
    let route = match_route(&Method::Delete, path).unwrap();
    assert_eq!(
        route,
        LatticeUnsubscribe("abcde".to_string(), "test-chat.room1".to_string())
    );
}

#[test]
fn no_matches() {
    let path = "/v/";
    assert!(match_route(&Method::Get, path).is_none());
    assert!(match_route(&Method::Put, path).is_none());
    assert!(match_route(&Method::Post, path).is_none());
    assert!(match_route(&Method::Patch, path).is_none());
    assert!(match_route(&Method::Delete, path).is_none());

    let path = "/v1/";
    assert!(match_route(&Method::Get, path).is_none());
    assert!(match_route(&Method::Put, path).is_none());
    assert!(match_route(&Method::Post, path).is_none());
    assert!(match_route(&Method::Patch, path).is_none());
    assert!(match_route(&Method::Delete, path).is_none());

    let path = "/v1/topic";
    assert!(match_route(&Method::Get, path).is_none());
    assert!(match_route(&Method::Put, path).is_none());
    assert!(match_route(&Method::Post, path).is_none());
    assert!(match_route(&Method::Patch, path).is_none());
    assert!(match_route(&Method::Delete, path).is_none());

    let path = "/v1/topic/";
    assert!(match_route(&Method::Get, path).is_none());
    assert!(match_route(&Method::Put, path).is_none());
    assert!(match_route(&Method::Post, path).is_none());
    assert!(match_route(&Method::Patch, path).is_none());
    assert!(match_route(&Method::Delete, path).is_none());

    let path = "/v1/topic/test-chat/room1";
    assert!(match_route(&Method::Get, path).is_none());
    assert!(match_route(&Method::Put, path).is_none());
    assert!(match_route(&Method::Patch, path).is_none());
    assert!(match_route(&Method::Delete, path).is_none());

    let path = "/v1/lattice/test-chat/rooms";
    assert!(match_route(&Method::Get, path).is_none());
    assert!(match_route(&Method::Put, path).is_none());
    assert!(match_route(&Method::Patch, path).is_none());
    assert!(match_route(&Method::Delete, path).is_none());

    let path = "/v1/connections//subscriptions/";
    assert!(match_route(&Method::Get, path).is_none());
    assert!(match_route(&Method::Put, path).is_none());
    assert!(match_route(&Method::Post, path).is_none());
    assert!(match_route(&Method::Patch, path).is_none());
    assert!(match_route(&Method::Delete, path).is_none());

    let path = "/v1/connections/abc/subscriptions/";
    assert!(match_route(&Method::Get, path).is_none());
    assert!(match_route(&Method::Put, path).is_none());
    assert!(match_route(&Method::Post, path).is_none());
    assert!(match_route(&Method::Patch, path).is_none());
    assert!(match_route(&Method::Delete, path).is_none());
}

#[test]
fn connection_routes_need_a_nonempty_tail() {
    assert!(match_route(&Method::Put, "/v1/connection/abc/subscriptions/").is_none());
    assert!(match_route(&Method::Put, "/v1/connection//subscriptions/x").is_none());
    assert!(match_route(&Method::Put, "/v1/connection/abc/other/x").is_none());
    assert_eq!(
        match_route(&Method::Put, "/v1/connection/ü/lattices/a/b").unwrap(),
        LatticeSubscribe("ü".to_string(), "a.b".to_string())
    );
}

#[test]
fn expect_data_by_route() {
    assert!(!TopicSubscribe("a".into(), "b".into()).expect_data());
    assert!(!TopicUnsubscribe("a".into(), "b".into()).expect_data());
    assert!(LatticeSubscribe("a".into(), "b".into()).expect_data());
    assert!(!LatticeUnsubscribe("a".into(), "b".into()).expect_data());
    assert!(TopicPublish("a".into()).expect_data());
    assert!(LatticeUpdate("a".into()).expect_data());
}
