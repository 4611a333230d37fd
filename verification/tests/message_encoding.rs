use std::sync::Arc;

use swindon::backend::{AuthCodec, CallCodec};
use swindon::cid::Cid;
use swindon::json::{JsonMap, JsonValue};
use swindon::message::AuthData;

fn text(v: &JsonValue) -> &str {
    match v {
        JsonValue::Str(s) => s.as_str(),
        _ => panic!("not a string"),
    }
}

fn auth() -> AuthData {
    AuthData { http_cookie: None, http_authorization: None, url_querystring: String::new() }
}

#[test]
fn auth_request_meta() {
    let sid = "aaaaaaaaaaaaaaaaaaaaaaaaaaaaaaaa".to_string();
    for (cid, id) in [(1u64, "aaaaaaaaaaaaaaaaaaaaaaaaaaaaaaaa-1"), (2, "aaaaaaaaaaaaaaaaaaaaaaaaaaaaaaaa-2")] {
        let codec = AuthCodec::new("/auth".to_string(), Cid(cid), auth(), sid.clone(), false);
        let meta = codec.request_meta();
        assert_eq!(meta.entries.len(), 1);
        assert_eq!(meta.entries[0].0, "connection_id");
        assert_eq!(text(&meta.entries[0].1), id);
    }
}

fn call_members(meta: JsonMap) -> Vec<(String, JsonValue)> {
    let meta = Arc::new(meta);
    let codec: CallCodec<JsonValue> = CallCodec::new(Arc::new("auth".to_string()),
        "/call".to_string(), Cid(123), &meta, vec![], Arc::new(JsonValue::Null),
        "aaaaaaaaaaaaaaaaaaaaaaaaaaaaaaaa".to_string(), false);
    let rm = codec.request_meta();
    rm.member_list()
        .into_iter()
        .map(|(k, v)| (k.clone(), match v {
            JsonValue::Str(s) => JsonValue::Str(s.clone()),
            JsonValue::PosInt(n) => JsonValue::PosInt(*n),
            _ => JsonValue::Null,
        }))
        .collect()
}

#[test]
fn call_request_meta() {
    let members = call_members(JsonMap::new());
    assert_eq!(members.len(), 1);
    assert_eq!(members[0].0, "connection_id");
    assert_eq!(text(&members[0].1), "aaaaaaaaaaaaaaaaaaaaaaaaaaaaaaaa-123");

    let mut meta = JsonMap::new();
    meta.insert("request_id".into(), JsonValue::Str("123".into()));
    let members = call_members(meta);
    let keys: Vec<&str> = members.iter().map(|(k, _)| k.as_str()).collect();
    assert_eq!(keys, vec!["connection_id", "request_id"]);
    assert_eq!(text(&members[1].1), "123");

    // a connection id of the caller's is replaced by the server's
    let mut meta = JsonMap::new();
    meta.insert("request_id".into(), JsonValue::Str("123".into()));
    meta.insert("connection_id".into(), JsonValue::Str("321".into()));
    let members = call_members(meta);
    let keys: Vec<&str> = members.iter().map(|(k, _)| k.as_str()).collect();
    assert_eq!(keys, vec!["connection_id", "request_id"]);
    assert_eq!(text(&members[0].1), "aaaaaaaaaaaaaaaaaaaaaaaaaaaaaaaa-123");
}
