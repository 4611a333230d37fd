use swindon::map::KeyMap;
use swindon::router::{url_for, Target};

#[test]
fn url_for_joins_address_and_paths() {
    let mut table = KeyMap::new();
    table.insert("backend".to_string(), Target { addresses: vec!["example.com:5000".into(), "other:1".into()] });
    table.insert("empty".to_string(), Target { addresses: vec![] });
    assert_eq!(url_for("some/method", &"backend".to_string(), "/chat", &table).unwrap(),
        "http://example.com:5000/chat/some/method");
    assert_eq!(url_for("some/method", &"backend".to_string(), "/chat/", &table).unwrap(),
        "http://example.com:5000/chat/some/method");
    assert_eq!(url_for("m", &"empty".to_string(), "/", &table), None);
    assert_eq!(url_for("m", &"missing".to_string(), "/", &table), None);
}
