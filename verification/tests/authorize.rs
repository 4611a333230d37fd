use std::sync::Arc;

use swindon::authorize::{auth_data, authorize_failure, parse_userinfo, start_authorize, SendOutcome};
use swindon::error::{MessageError, Status};
use swindon::json::{JsonMap, JsonValue};

fn h(name: &str, value: &[u8]) -> (String, Vec<u8>) {
    (name.to_string(), value.to_vec())
}

#[test]
fn auth_data_reads_cookie_authorization_and_query() {
    let headers = vec![h("cookie", b"auth=ok"), h("Host", b"x"), h("AUTHORIZATION", b"Bearer t")];
    let d = auth_data(&headers, "/chat?x=1?y=2").unwrap();
    assert_eq!(d.http_cookie.as_deref(), Some("auth=ok"));
    assert_eq!(d.http_authorization.as_deref(), Some("Bearer t"));
    assert_eq!(d.url_querystring, "x=1?y=2");
}

#[test]
fn auth_data_without_headers() {
    let d = auth_data(&[], "/chat").unwrap();
    assert_eq!(d.http_cookie, None);
    assert_eq!(d.http_authorization, None);
    assert_eq!(d.url_querystring, "");
}

#[test]
fn auth_data_replaces_invalid_utf8() {
    let d = auth_data(&[h("Cookie", &[b'a', 0xff])], "/").unwrap();
    assert_eq!(d.http_cookie.as_deref(), Some("a\u{fffd}"));
}

#[test]
fn auth_data_refuses_duplicates() {
    let r = auth_data(&[h("Cookie", b"a"), h("Cookie", b"b")], "/");
    assert!(matches!(r, Err(Status { code: 400 })));
    let r = auth_data(&[h("Authorization", b"a"), h("authorization", b"b")], "/");
    assert!(matches!(r, Err(Status { code: 400 })));
}

#[test]
fn start_authorize_paths() {
    let (p, _) = start_authorize(true, Some("/"), &[], "/").unwrap();
    assert_eq!(p, "/tangle/authorize_connection");
    let (p, _) = start_authorize(false, Some("/backend"), &[], "/").unwrap();
    assert_eq!(p, "/backend/swindon/authorize_connection");
    assert!(matches!(start_authorize(false, None, &[], "/"), Err(Status { code: 500 })));
    let dup = [h("Cookie", b"a"), h("Cookie", b"b")];
    assert!(matches!(start_authorize(false, Some("/"), &dup, "/"), Err(Status { code: 400 })));
}

#[test]
fn authorize_failure_statuses() {
    assert_eq!(authorize_failure(SendOutcome::Ready), None);
    assert_eq!(authorize_failure(SendOutcome::NotReady).map(|s| s.code), Some(503));
    assert_eq!(authorize_failure(SendOutcome::Failed).map(|s| s.code), Some(503));
    assert_eq!(authorize_failure(SendOutcome::NoPool).map(|s| s.code), Some(404));
}

#[test]
fn parse_userinfo_reads_user_id() {
    let mut m = JsonMap::new();
    m.insert("user_id".into(), JsonValue::Str("user1".into()));
    let r: Result<String, MessageError<()>> = parse_userinfo(&JsonValue::Object(m));
    assert_eq!(r.unwrap(), "user1");

    let mut m = JsonMap::new();
    m.insert("user_id".into(), JsonValue::PosInt(1));
    let r: Result<String, MessageError<()>> = parse_userinfo(&JsonValue::Object(m));
    assert!(matches!(r, Err(MessageError::ValidationError(ref t)) if t == "user_id is missing or invalid"));

    let r: Result<String, MessageError<()>> = parse_userinfo(&JsonValue::Null);
    assert!(matches!(r, Err(MessageError::ValidationError(_))));
    let _unused: Option<Arc<()>> = None;
}
