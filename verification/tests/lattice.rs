use swindon::lattice::{crdt_update, Counter, Delta, ItemSet, Lattice, Values};
use swindon::map::{KeyMap, KeySet};

fn items(names: &[&str]) -> KeySet<String> {
    let mut s = KeySet::new();
    for n in names {
        s.insert(n.to_string());
    }
    s
}

#[test]
fn counters_keep_the_larger_value() {
    let mut orig = KeyMap::new();
    orig.insert("a".to_string(), Counter(5));
    orig.insert("b".to_string(), Counter(1));
    let mut delta = KeyMap::new();
    delta.insert("a".to_string(), Counter(3));
    delta.insert("b".to_string(), Counter(2));
    delta.insert("c".to_string(), Counter(7));
    crdt_update(&mut orig, &mut delta);
    assert_eq!(orig.get(&"a".to_string()).map(|c| c.0), Some(5));
    assert_eq!(orig.get(&"b".to_string()).map(|c| c.0), Some(2));
    assert_eq!(orig.get(&"c".to_string()).map(|c| c.0), Some(7));
    // the delta keeps what changed
    assert!(delta.get(&"a".to_string()).is_none());
    assert_eq!(delta.get(&"b".to_string()).map(|c| c.0), Some(2));
    assert_eq!(delta.get(&"c".to_string()).map(|c| c.0), Some(7));
}

#[test]
fn sets_unite() {
    let mut orig = KeyMap::new();
    orig.insert("s".to_string(), ItemSet(items(&["x"])));
    let mut delta = KeyMap::new();
    delta.insert("s".to_string(), ItemSet(items(&["x"])));
    crdt_update(&mut orig, &mut delta);
    assert!(delta.is_empty());
    let mut delta = KeyMap::new();
    delta.insert("s".to_string(), ItemSet(items(&["y"])));
    crdt_update(&mut orig, &mut delta);
    let s = &orig.get(&"s".to_string()).unwrap().0;
    assert!(s.contains(&"x".to_string()) && s.contains(&"y".to_string()));
    assert_eq!(s.len(), 2);
}

fn counter_room(name: &str, v: u64) -> KeyMap<String, Values> {
    let mut vals = Values::new();
    vals.set_counter("last".to_string(), v);
    let mut m = KeyMap::new();
    m.insert(name.to_string(), vals);
    m
}

#[test]
fn lattice_update_is_idempotent() {
    let mut lat = Lattice::new();
    let fresh = lat.update(Delta { shared: counter_room("room", 3), private: KeyMap::new() });
    assert_eq!(fresh.shared.len(), 1);
    let fresh = lat.update(Delta { shared: counter_room("room", 3), private: KeyMap::new() });
    assert!(fresh.shared.is_empty());
    let fresh = lat.update(Delta { shared: counter_room("room", 2), private: KeyMap::new() });
    assert!(fresh.shared.is_empty());
    assert_eq!(lat.shared.get(&"room".to_string()).unwrap().counter(&"last".to_string()), Some(3));
}

#[test]
fn private_rooms_merge_per_session() {
    let mut lat = Lattice::new();
    let mut private = KeyMap::new();
    private.insert("user1".to_string(), counter_room("room", 4));
    let fresh = lat.update(Delta { shared: KeyMap::new(), private });
    assert_eq!(fresh.private.get(&"user1".to_string()).unwrap().len(), 1);
    let mut private = KeyMap::new();
    private.insert("user1".to_string(), counter_room("room", 4));
    let fresh = lat.update(Delta { shared: KeyMap::new(), private });
    // the session is still named, with nothing new
    assert!(fresh.private.get(&"user1".to_string()).unwrap().is_empty());
}

#[test]
fn values_overlay_and_sizes() {
    let mut a = Values::new();
    a.set_counter("x".to_string(), 1);
    let mut b = Values::new();
    b.set_counter("x".to_string(), 9);
    b.set_items("s".to_string(), items(&["i"]));
    a.update(&b);
    assert_eq!(a.counter(&"x".to_string()), Some(9));
    assert_eq!(a.sizes(), (1, 1));
    assert!(!a.is_empty());
    assert!(Values::new().is_empty());
    let d = a.duplicate();
    assert_eq!(d.sizes(), (1, 1));
}

fn shared_delta(room: &str, counter: u64, set_item: &str) -> Delta {
    let mut vals = Values::new();
    vals.set_counter("last".to_string(), counter);
    vals.set_items("seen".to_string(), items(&[set_item]));
    let mut shared = KeyMap::new();
    shared.insert(room.to_string(), vals);
    Delta { shared, private: KeyMap::new() }
}

#[test]
fn lattice_updates_commute() {
    let mut one = Lattice::new();
    one.update(shared_delta("room", 3, "a"));
    one.update(shared_delta("room", 5, "b"));
    let mut two = Lattice::new();
    two.update(shared_delta("room", 5, "b"));
    two.update(shared_delta("room", 3, "a"));
    for lat in [&one, &two] {
        let room = lat.shared.get(&"room".to_string()).unwrap();
        assert_eq!(room.counter(&"last".to_string()), Some(5));
        assert_eq!(room.sizes(), (1, 1));
    }
}
