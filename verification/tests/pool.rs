use std::sync::Arc;

use serde_json::Value;

use swindon::cid::{Cid, CidAllocator};
use swindon::error::CloseReason;
use swindon::lattice::{Delta, Values};
use swindon::map::KeyMap;
use swindon::pool::Pool;
use swindon::processor::{ConnectionMessage, Outgoing, PoolMessage};

const NOW: u64 = 1_000_000;

fn pool() -> Pool<Value> {
    Pool::new("test_pool".to_string(), 60_000)
}

fn user(name: &str) -> Arc<Value> {
    let text = format!("{{\"user_id\": \"{}\"}}", name);
    Arc::new(serde_json::from_str(&text).unwrap())
}

fn add_user(pool: &mut Pool<Value>, alloc: &mut CidAllocator, name: &str) -> Cid {
    let cid = Cid::new(alloc);
    pool.add_connection(cid);
    pool.associate(cid, name.to_string(), NOW, user(name));
    cid
}

fn rooms(names: &[&str]) -> KeyMap<String, Values> {
    let mut m = KeyMap::new();
    for n in names {
        m.insert(n.to_string(), Values::new());
    }
    m
}

fn private(user: &str, names: &[&str]) -> KeyMap<String, KeyMap<String, Values>> {
    let mut m = KeyMap::new();
    m.insert(user.to_string(), rooms(names));
    m
}

fn is_lattice(o: &Outgoing<Value>, cid: Cid) -> bool {
    matches!(o, Outgoing::ToConnection(c, ConnectionMessage::Lattice(..)) if *c == cid)
}

#[test]
fn add_conn() {
    let mut pool = pool();
    let mut alloc = CidAllocator::new();
    add_user(&mut pool, &mut alloc, "user1");
}

#[test]
fn disconnect_after_inactive() {
    let mut pool = pool();
    let mut alloc = CidAllocator::new();
    let cid = add_user(&mut pool, &mut alloc, "user1");
    assert_eq!(pool.active_sessions(), 1);
    assert_eq!(pool.inactive_sessions(), 0);
    pool.cleanup(NOW + 10_000);
    // New connection timeout is expected to be ~ 60 seconds
    assert_eq!(pool.active_sessions(), 1);
    assert_eq!(pool.inactive_sessions(), 0);
    let (_, out) = pool.cleanup(NOW + 120_000);
    assert!(matches!(&out[0],
        Outgoing::ToPool(PoolMessage::InactiveSession { session_id, .. })
        if session_id == "user1"));
    assert_eq!(pool.active_sessions(), 0);
    assert_eq!(pool.inactive_sessions(), 1);
    pool.del_connection(cid);
    assert_eq!(pool.active_sessions(), 0);
    assert_eq!(pool.inactive_sessions(), 0);
}

#[test]
fn disconnect_before_inactive() {
    let mut pool = pool();
    let mut alloc = CidAllocator::new();
    let cid = add_user(&mut pool, &mut alloc, "user1");
    assert_eq!(pool.active_sessions(), 1);
    assert_eq!(pool.inactive_sessions(), 0);
    pool.cleanup(NOW + 10_000);
    // New connection timeout is expected to be ~ 60 seconds
    assert_eq!(pool.active_sessions(), 1);
    assert_eq!(pool.inactive_sessions(), 0);
    pool.del_connection(cid);
    assert_eq!(pool.active_sessions(), 1);
    assert_eq!(pool.inactive_sessions(), 0);
    let (_, out) = pool.cleanup(NOW + 120_000);
    assert!(matches!(&out[0],
        Outgoing::ToPool(PoolMessage::InactiveSession { session_id, .. })
        if session_id == "user1"));
    assert_eq!(pool.active_sessions(), 0);
    assert_eq!(pool.inactive_sessions(), 0);
}

#[test]
fn attach_before_associate() {
    let mut pool = pool();
    let mut alloc = CidAllocator::new();
    let cid = Cid::new(&mut alloc);
    pool.add_connection(cid);
    pool.lattice_update("rooms".to_string(), Delta {
        shared: KeyMap::new(),
        private: private("user1", &[]),
    });
    pool.lattice_attach(cid, "rooms".to_string());
    let out = pool.associate(cid, "user1".to_string(), NOW, user("user1"));
    assert!(is_lattice(&out[0], cid));
}

#[test]
fn empty_lattices() {
    let mut pool = pool();
    let mut alloc = CidAllocator::new();
    let c1 = add_user(&mut pool, &mut alloc, "user1");
    pool.lattice_update("rooms".to_string(), Delta {
        shared: rooms(&["room1"]),
        private: private("user1", &["room1"]),
    });
    let out = pool.lattice_attach(c1, "rooms".to_string());
    assert!(is_lattice(&out[0], c1));
    let c2 = add_user(&mut pool, &mut alloc, "user2");
    pool.lattice_update("rooms".to_string(), Delta {
        shared: rooms(&["room2"]),
        private: private("user2", &["room2"]),
    });
    let out = pool.lattice_attach(c2, "rooms".to_string());
    assert!(is_lattice(&out[0], c2));
    pool.lattice_update("rooms".to_string(), Delta {
        shared: rooms(&["room1", "room2"]),
        private: KeyMap::new(),
    });
}

#[test]
fn publish_reaches_associated_and_buffers_pending() {
    let mut pool = pool();
    let mut alloc = CidAllocator::new();
    let c1 = add_user(&mut pool, &mut alloc, "user1");
    let c2 = Cid::new(&mut alloc);
    pool.add_connection(c2);
    pool.subscribe(c1, "chat.room1".to_string());
    pool.subscribe(c2, "chat.room1".to_string());
    let data = user("message");
    let out = pool.publish("chat.room1".to_string(), data.clone());
    assert_eq!(out.len(), 1);
    assert!(matches!(&out[0],
        Outgoing::ToConnection(c, ConnectionMessage::Publish(t, d))
        if *c == c1 && t == "chat.room1" && **d == *data));
    // the pending connection gets the message once associated
    let out = pool.associate(c2, "user2".to_string(), NOW, user("user2"));
    assert_eq!(out.len(), 1);
    assert!(matches!(&out[0],
        Outgoing::ToConnection(c, ConnectionMessage::Publish(t, _))
        if *c == c2 && t == "chat.room1"));
}

#[test]
fn unsubscribed_connection_gets_nothing() {
    let mut pool = pool();
    let mut alloc = CidAllocator::new();
    let c1 = add_user(&mut pool, &mut alloc, "user1");
    pool.subscribe(c1, "chat.room1".to_string());
    pool.unsubscribe(c1, "chat.room1".to_string());
    let out = pool.publish("chat.room1".to_string(), user("message"));
    assert!(out.is_empty());
}

#[test]
fn disconnected_connection_gets_nothing() {
    let mut pool = pool();
    let mut alloc = CidAllocator::new();
    let c1 = add_user(&mut pool, &mut alloc, "user1");
    pool.subscribe(c1, "chat.room1".to_string());
    pool.del_connection(c1);
    let out = pool.publish("chat.room1".to_string(), user("message"));
    assert!(out.is_empty());
}

#[test]
fn stop_closes_every_connection() {
    let mut pool = pool();
    let mut alloc = CidAllocator::new();
    let c1 = add_user(&mut pool, &mut alloc, "user1");
    let c2 = Cid::new(&mut alloc);
    pool.add_connection(c2);
    let out = pool.stop();
    assert_eq!(out.len(), 2);
    for c in [c1, c2] {
        assert!(out.iter().any(|o| matches!(o,
            Outgoing::ToConnection(x, ConnectionMessage::StopSocket(CloseReason::PoolStopped))
            if *x == c)));
    }
}

#[test]
fn activity_keeps_session_active() {
    let mut pool = pool();
    let mut alloc = CidAllocator::new();
    add_user(&mut pool, &mut alloc, "user1");
    pool.update_activity("user1".to_string(), NOW + 200_000);
    let (next, out) = pool.cleanup(NOW + 120_000);
    assert!(out.is_empty());
    assert_eq!(next, Some(NOW + 200_000));
    assert_eq!(pool.active_sessions(), 1);
    // an earlier time does not shorten the activity
    pool.update_activity("user1".to_string(), NOW + 100_000);
    let (next, _) = pool.cleanup(NOW + 150_000);
    assert_eq!(next, Some(NOW + 200_000));
}

#[test]
fn activity_of_unknown_session_creates_it() {
    let mut pool = pool();
    pool.update_activity("user9".to_string(), NOW);
    assert_eq!(pool.active_sessions(), 1);
    let (next, out) = pool.cleanup(NOW + 1);
    assert_eq!(next, None);
    assert!(matches!(&out[0],
        Outgoing::ToPool(PoolMessage::InactiveSession { session_id, connections_active: 0, metadata: None })
        if session_id == "user9"));
    // without connections the session goes away
    assert_eq!(pool.active_sessions(), 0);
    assert_eq!(pool.inactive_sessions(), 0);
}

#[test]
fn cleanup_reports_earliest_first() {
    let mut pool = pool();
    pool.update_activity("late".to_string(), NOW + 30);
    pool.update_activity("early".to_string(), NOW + 10);
    pool.update_activity("middle".to_string(), NOW + 20);
    let (next, out) = pool.cleanup(NOW + 25);
    assert_eq!(next, Some(NOW + 30));
    let names: Vec<String> = out.iter().map(|o| match o {
        Outgoing::ToPool(PoolMessage::InactiveSession { session_id, .. }) => session_id.clone(),
        _ => panic!("unexpected message"),
    }).collect();
    assert_eq!(names, vec!["early".to_string(), "middle".to_string()]);
}

#[test]
fn associate_with_missing_lattice_drops_connection() {
    let mut pool = pool();
    let mut alloc = CidAllocator::new();
    let cid = Cid::new(&mut alloc);
    pool.add_connection(cid);
    pool.subscribe(cid, "chat.room1".to_string());
    pool.lattice_attach(cid, "nowhere".to_string());
    let out = pool.associate(cid, "user1".to_string(), NOW, user("user1"));
    assert!(out.is_empty());
    assert_eq!(pool.active_sessions(), 0);
    let out = pool.publish("chat.room1".to_string(), user("message"));
    assert!(out.is_empty());
}

#[test]
fn lattice_update_reaches_subscribed_sessions() {
    let mut pool = pool();
    let mut alloc = CidAllocator::new();
    let c1 = add_user(&mut pool, &mut alloc, "user1");
    let c2 = add_user(&mut pool, &mut alloc, "user2");
    pool.lattice_update("rooms".to_string(), Delta {
        shared: KeyMap::new(),
        private: private("user1", &["room1"]),
    });
    pool.lattice_update("rooms".to_string(), Delta {
        shared: KeyMap::new(),
        private: private("user2", &["room1"]),
    });
    pool.lattice_attach(c1, "rooms".to_string());
    pool.lattice_attach(c2, "rooms".to_string());
    let mut counter = Values::new();
    counter.set_counter("last_message".to_string(), 5);
    let mut shared = KeyMap::new();
    shared.insert("room1".to_string(), counter);
    let out = pool.lattice_update("rooms".to_string(), Delta {
        shared,
        private: KeyMap::new(),
    });
    assert_eq!(out.len(), 2);
    assert!(out.iter().any(|o| is_lattice(o, c1)));
    assert!(out.iter().any(|o| is_lattice(o, c2)));
    // the same data again changes nothing and is sent to nobody
    let mut counter = Values::new();
    counter.set_counter("last_message".to_string(), 5);
    let mut shared = KeyMap::new();
    shared.insert("room1".to_string(), counter);
    let out = pool.lattice_update("rooms".to_string(), Delta {
        shared,
        private: KeyMap::new(),
    });
    assert!(out.is_empty());
}

#[test]
fn detached_connection_gets_no_lattice_updates() {
    let mut pool = pool();
    let mut alloc = CidAllocator::new();
    let c1 = add_user(&mut pool, &mut alloc, "user1");
    pool.lattice_update("rooms".to_string(), Delta {
        shared: KeyMap::new(),
        private: private("user1", &["room1"]),
    });
    pool.lattice_attach(c1, "rooms".to_string());
    pool.lattice_detach(c1, "rooms".to_string());
    let mut counter = Values::new();
    counter.set_counter("last_message".to_string(), 1);
    let mut shared = KeyMap::new();
    shared.insert("room1".to_string(), counter);
    let out = pool.lattice_update("rooms".to_string(), Delta {
        shared,
        private: KeyMap::new(),
    });
    assert!(out.is_empty());
}

#[test]
fn subscribing_twice_delivers_once() {
    let mut pool = pool();
    let mut alloc = CidAllocator::new();
    let c1 = add_user(&mut pool, &mut alloc, "user1");
    pool.subscribe(c1, "chat.room1".to_string());
    pool.subscribe(c1, "chat.room1".to_string());
    let out = pool.publish("chat.room1".to_string(), user("message"));
    assert_eq!(out.len(), 1);
    pool.unsubscribe(c1, "chat.room1".to_string());
    assert!(pool.publish("chat.room1".to_string(), user("message")).is_empty());
}

#[test]
fn lattice_update_sends_one_message_per_connection() {
    let mut pool = pool();
    let mut alloc = CidAllocator::new();
    let c1 = add_user(&mut pool, &mut alloc, "user1");
    pool.lattice_update("rooms".to_string(), Delta {
        shared: KeyMap::new(),
        private: private("user1", &["room1", "room2"]),
    });
    let out = pool.lattice_attach(c1, "rooms".to_string());
    assert_eq!(out.len(), 1);
    let mut a = Values::new();
    a.set_counter("a".to_string(), 1);
    let mut b = Values::new();
    b.set_counter("b".to_string(), 2);
    let mut shared = KeyMap::new();
    shared.insert("room1".to_string(), a);
    shared.insert("room2".to_string(), b);
    let out = pool.lattice_update("rooms".to_string(), Delta { shared, private: KeyMap::new() });
    assert_eq!(out.len(), 1);
    assert!(is_lattice(&out[0], c1));
    match &out[0] {
        Outgoing::ToConnection(_, ConnectionMessage::Lattice(ns, data)) => {
            assert_eq!(ns, "rooms");
            assert_eq!(data.len(), 2);
        }
        _ => panic!("not a lattice message"),
    }
}
