use std::sync::Arc;

use serde_json::Value;

use swindon::cid::{Cid, CidAllocator};
use swindon::error::CloseReason;
use swindon::lattice::Delta;
use swindon::processor::{wait_time, Action, ConnectionMessage, Outgoing, PoolMessage, Processor};

fn meta(name: &str) -> Arc<Value> {
    Arc::new(Value::String(name.to_string()))
}

#[test]
fn processor_routes_actions_to_their_pool() {
    let mut p: Processor<Value> = Processor::new();
    let pool = "chat".to_string();
    let out = p.send(&pool, 0, Action::NewSessionPool { new_connection_timeout: 1000 });
    assert!(out.is_empty());
    let mut alloc = CidAllocator::new();
    let cid = Cid::new(&mut alloc);
    p.send(&pool, 0, Action::NewConnection { conn_id: cid });
    p.send(&pool, 10, Action::Associate {
        conn_id: cid,
        session_id: "user1".to_string(),
        metadata: meta("user1"),
    });
    p.send(&pool, 10, Action::Subscribe { conn_id: cid, topic: "room".to_string() });
    let out = p.send(&pool, 20, Action::Publish { topic: "room".to_string(), data: meta("hi") });
    assert_eq!(out.len(), 1);
    assert!(matches!(&out[0],
        Outgoing::ToConnection(c, ConnectionMessage::Publish(t, _)) if *c == cid && t == "room"));
}

#[test]
fn processor_drops_actions_of_unknown_pools() {
    let mut p: Processor<Value> = Processor::new();
    let out = p.send(&"nowhere".to_string(), 0, Action::Publish {
        topic: "room".to_string(),
        data: meta("hi"),
    });
    assert!(out.is_empty());
}

#[test]
fn processor_stop_pool_closes_connections() {
    let mut p: Processor<Value> = Processor::new();
    let pool = "chat".to_string();
    p.create_pool(pool.clone(), 1000);
    let mut alloc = CidAllocator::new();
    let cid = Cid::new(&mut alloc);
    p.send(&pool, 0, Action::NewConnection { conn_id: cid });
    let out = p.send(&pool, 0, Action::StopSessionPool);
    assert_eq!(out.len(), 1);
    assert!(matches!(&out[0],
        Outgoing::ToConnection(c, ConnectionMessage::StopSocket(CloseReason::PoolStopped)) if *c == cid));
    // the pool is gone
    let out = p.destroy_pool(&pool);
    assert!(out.is_empty());
}

#[test]
fn processor_cleanup_takes_earliest_deadline() {
    let mut p: Processor<Value> = Processor::new();
    p.create_pool("a".to_string(), 1000);
    p.create_pool("b".to_string(), 1000);
    p.send(&"a".to_string(), 0, Action::UpdateActivity { session_id: "x".to_string(), timestamp: 500 });
    p.send(&"b".to_string(), 0, Action::UpdateActivity { session_id: "y".to_string(), timestamp: 300 });
    p.send(&"b".to_string(), 0, Action::UpdateActivity { session_id: "z".to_string(), timestamp: 100 });
    let (next, cleaned) = p.cleanup(200);
    assert_eq!(next, Some(300));
    assert_eq!(cleaned.len(), 2);
    for (name, _, out) in &cleaned {
        if name == "b" {
            assert_eq!(out.len(), 1);
            assert!(matches!(&out[0],
                Outgoing::ToPool(PoolMessage::InactiveSession { session_id, .. }) if session_id == "z"));
        } else {
            assert!(out.is_empty());
        }
    }
    assert_eq!(wait_time(next, 200), Some(100));
}

#[test]
fn wait_time_never_underflows() {
    assert_eq!(wait_time(None, 5), None);
    assert_eq!(wait_time(Some(10), 5), Some(5));
    assert_eq!(wait_time(Some(3), 5), Some(0));
}

#[test]
fn processor_checks_what_a_pool_can_take() {
    let mut p: Processor<Value> = Processor::new();
    let pool = "chat".to_string();
    p.send(&pool, 0, Action::NewSessionPool { new_connection_timeout: 1000 });
    let mut alloc = CidAllocator::new();
    let cid = Cid::new(&mut alloc);
    assert!(!p.allows(&pool, 0, &Action::Disconnect { conn_id: cid }));
    assert!(p.allows(&pool, 0, &Action::NewConnection { conn_id: cid }));
    p.send(&pool, 0, Action::NewConnection { conn_id: cid });
    assert!(!p.allows(&pool, 0, &Action::NewConnection { conn_id: cid }));
    assert!(p.allows(&pool, 0, &Action::Disconnect { conn_id: cid }));
    assert!(!p.allows(&pool, u64::MAX, &Action::Associate {
        conn_id: cid, session_id: "u".to_string(), metadata: meta("u") }));
    assert!(p.allows(&pool, 10, &Action::Associate {
        conn_id: cid, session_id: "u".to_string(), metadata: meta("u") }));
    assert!(p.allows(&"other".to_string(), 0, &Action::Disconnect { conn_id: cid }));
}

#[test]
fn processor_refuses_a_reused_connection_id() {
    let mut p: Processor<Value> = Processor::new();
    let pool = "chat".to_string();
    p.send(&pool, 0, Action::NewSessionPool { new_connection_timeout: 1000 });
    p.send(&pool, 0, Action::Lattice { namespace: "rooms".to_string(), delta: Delta::new() });
    let mut alloc = CidAllocator::new();
    let cid = Cid::new(&mut alloc);
    p.send(&pool, 0, Action::NewConnection { conn_id: cid });
    p.send(&pool, 0, Action::Associate {
        conn_id: cid, session_id: "u".to_string(), metadata: meta("u") });
    p.send(&pool, 0, Action::Attach { namespace: "rooms".to_string(), conn_id: cid });
    p.send(&pool, 0, Action::Disconnect { conn_id: cid });
    // the active session still lists the id among its attachments
    assert!(!p.allows(&pool, 0, &Action::NewConnection { conn_id: cid }));
    let other = Cid::new(&mut alloc);
    assert!(p.allows(&pool, 0, &Action::NewConnection { conn_id: other }));
}

#[test]
fn action_descriptions() {
    let a: Action<Value> = Action::Subscribe { conn_id: Cid(7), topic: "room".to_string() };
    assert_eq!(a.describe(), "Action::Subscribe(Cid(7), \"room\")");
    let a: Action<Value> = Action::NewConnection { conn_id: Cid(1) };
    assert_eq!(a.describe(), "Action::NewConnection(Cid(1))");
    let a: Action<Value> = Action::Publish { topic: "t".to_string(), data: meta("x") };
    assert_eq!(a.describe(), "Action::Publish(\"t\")");
    let a: Action<Value> = Action::StopSessionPool;
    assert_eq!(a.describe(), "Action::StopSessionPool");
    let a: Action<Value> = Action::UpdateActivity { session_id: "s".to_string(), timestamp: 5 };
    assert_eq!(a.describe(), "Action::UpdateActivity(\"s\")");
}
