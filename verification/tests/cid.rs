use swindon::cid::{Cid, CidAllocator, PubCid};

#[test]
fn cids_count_up() {
    let mut a = CidAllocator::new();
    assert_eq!(Cid::new(&mut a), Cid(0));
    assert_eq!(Cid::new(&mut a), Cid(1));
}

#[test]
fn cid_text_round_trip() {
    assert_eq!(Cid(123).to_text(), "123");
    assert_eq!(Cid::parse("123"), Some(Cid(123)));
    assert_eq!(Cid::parse("+7"), Some(Cid(7)));
    assert_eq!(Cid::parse(""), None);
    assert_eq!(Cid::parse("-1"), None);
    assert_eq!(Cid::parse("18446744073709551616"), None);
}

#[test]
fn pub_cid_parse() {
    let p = PubCid::from_str("aaaaaaaaaaaaaaaaaaaaaaaaaaaaaaaa-1").unwrap();
    assert_eq!(p.0, Cid(1));
    assert_eq!(p.1, "aaaaaaaaaaaaaaaaaaaaaaaaaaaaaaaa");
    let p = PubCid::from_str("a-b-42").unwrap();
    assert_eq!(p.0, Cid(42));
    assert_eq!(p.1, "a-b");
    assert!(PubCid::from_str("no_dash").is_err());
    assert!(PubCid::from_str("server-x").is_err());
}

#[test]
fn pub_cid_text_round_trip() {
    let p = PubCid(Cid(1234), "srv-1".to_string());
    let t = p.to_text();
    assert_eq!(t, "srv-1-1234");
    let q = PubCid::from_str(&t).unwrap();
    assert_eq!(q.0, p.0);
    assert_eq!(q.1, p.1);
}

#[test]
fn allocated_ids_are_all_different() {
    let mut alloc = CidAllocator::new();
    let ids: Vec<u64> = (0..1000).map(|_| Cid::new(&mut alloc).0).collect();
    let mut sorted = ids.clone();
    sorted.sort();
    sorted.dedup();
    assert_eq!(sorted.len(), ids.len());
}

#[test]
fn cid_debug_forms() {
    let c = Cid(42);
    assert_eq!(c.debug_text(false), "Cid(42)");
    assert_eq!(c.debug_text(false), format!("{:?}", c));
    assert_eq!(c.debug_text(true), "cid:42");
    assert_eq!(Cid::parse("+17"), Some(Cid(17)));
    assert_eq!(Cid::parse("18446744073709551615"), Some(Cid(u64::MAX)));
    assert_eq!(Cid::parse("18446744073709551616"), None);
    assert_eq!(Cid::parse("12a"), None);
    assert_eq!(Cid::parse(""), None);
    assert_eq!(Cid::parse("+"), None);
    assert_eq!(Cid(u64::MAX).to_text(), "18446744073709551615");
    assert_eq!(Cid(0).to_text(), "0");
}
