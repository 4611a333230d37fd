use swindon::map::KeySet;
use swindon::pools::{inactivity_handlers, metrics, update_plan};

fn set(names: &[&str]) -> KeySet<String> {
    let mut s = KeySet::new();
    for n in names {
        s.insert(n.to_string());
    }
    s
}

#[test]
fn update_plan_splits_pools() {
    let plan = update_plan(&set(&["a", "b", "c"]), &set(&["b", "d", "a"]));
    assert_eq!(plan.delete, vec!["c".to_string()]);
    assert_eq!(plan.update, vec!["b".to_string(), "a".to_string()]);
    assert_eq!(plan.create, vec!["d".to_string()]);
}

#[test]
fn inactivity_handler_paths() {
    let dests = vec![("/".to_string(), "up1".to_string()), ("/api".to_string(), "up2".to_string())];
    let h = inactivity_handlers(&dests, true);
    assert_eq!(h[0], ("/tangle/session_inactive".to_string(), "up1".to_string()));
    assert_eq!(h[1], ("/api/tangle/session_inactive".to_string(), "up2".to_string()));
    let h = inactivity_handlers(&dests, false);
    assert_eq!(h[0].0, "/swindon/session_inactive");
}

#[test]
fn metrics_names() {
    let m = metrics();
    assert_eq!(m.len(), 23);
    assert_eq!(m[0], ("websockets.swindon_chat", "connects"));
    assert_eq!(m[22], ("replication", "frames_received"));
}
