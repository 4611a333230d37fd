use std::sync::Arc;

use swindon::backend::{response_content, AuthCodec, AuthState, CallCodec, HeadError};
use swindon::cid::Cid;
use swindon::content_type::ContentType;
use swindon::error::{MessageError, Status};
use swindon::json::{JsonMap, JsonValue};
use swindon::message::AuthData;
use swindon::processor::{Action, ConnectionMessage};

fn auth() -> AuthData {
    AuthData { http_cookie: None, http_authorization: None, url_querystring: String::new() }
}

fn userinfo(id: &str) -> JsonValue {
    let mut m = JsonMap::new();
    m.insert("user_id".into(), JsonValue::Str(id.into()));
    JsonValue::Object(m)
}

#[test]
fn content_decisions() {
    assert_eq!(response_content(ContentType::Valid, true, false), Ok(true));
    assert_eq!(response_content(ContentType::Absent, true, false), Err(HeadError::AbsentContentType));
    assert_eq!(response_content(ContentType::Invalid, true, false), Err(HeadError::InvalidContentType));
    assert_eq!(response_content(ContentType::Absent, false, false), Ok(false));
    assert_eq!(response_content(ContentType::Invalid, false, false), Ok(false));
    assert_eq!(response_content(ContentType::Absent, true, true), Ok(true));
    assert_eq!(response_content(ContentType::Invalid, true, true), Ok(true));
}

#[test]
fn auth_codec_welcomes_session() {
    let mut c = AuthCodec::new("/auth".into(), Cid(5), auth(), "srv".into(), false);
    assert_eq!(c.add_request_id(), "srv-5-auth");
    let (path, _) = c.start_write();
    assert_eq!(path, "/auth");
    assert!(matches!(c.state, AuthState::Wait));
    assert!(c.headers_received(Some(Status { code: 200 }), ContentType::Valid).is_ok());
    let info = userinfo("user1");
    let payload = Arc::new("user info".to_string());
    let reply = c.data_received(Some((&info, payload.clone())), true);
    assert!(matches!(reply.message, ConnectionMessage::Hello(ref s, ref u) if s == "user1" && **u == *payload));
    assert!(matches!(reply.associate,
        Some(Action::Associate { conn_id: Cid(5), ref session_id, .. }) if session_id == "user1"));
    assert!(matches!(c.state, AuthState::Void));
    assert!(c.drop_message::<String>().is_none());
}

#[test]
fn auth_codec_errors() {
    let mut c = AuthCodec::new("/auth".into(), Cid(5), auth(), "srv".into(), false);
    c.start_write();
    assert_eq!(c.headers_received(Some(Status { code: 200 }), ContentType::Absent), Err(HeadError::AbsentContentType));
    let reply = c.data_received::<String>(None, true);
    assert!(matches!(reply.message,
        ConnectionMessage::FatalError(MessageError::HttpError(Status { code: 500 }, None))));
    assert!(reply.associate.is_none());

    // an expected status is passed on with its JSON body
    let mut c = AuthCodec::new("/auth".into(), Cid(5), auth(), "srv".into(), false);
    c.start_write();
    c.headers_received(Some(Status { code: 403 }), ContentType::Valid).unwrap();
    let body = Arc::new("denied".to_string());
    let reply = c.data_received(Some((&JsonValue::Null, body.clone())), true);
    assert!(matches!(reply.message,
        ConnectionMessage::FatalError(MessageError::HttpError(Status { code: 403 }, Some(ref b))) if **b == *body));

    // an unexpected status becomes an internal error
    let mut c = AuthCodec::new("/auth".into(), Cid(5), auth(), "srv".into(), false);
    c.start_write();
    c.headers_received(Some(Status { code: 418 }), ContentType::Valid).unwrap();
    let reply = c.data_received(Some((&JsonValue::Null, body)), true);
    assert!(matches!(reply.message,
        ConnectionMessage::FatalError(MessageError::HttpError(Status { code: 500 }, None))));

    // a dropped request tells the connection
    let c = AuthCodec::new("/auth".into(), Cid(5), auth(), "srv".into(), false);
    assert!(matches!(c.drop_message::<String>(),
        Some(ConnectionMessage::FatalError(MessageError::HttpError(Status { code: 500 }, None)))));
}

fn call_meta() -> Arc<JsonMap> {
    let mut m = JsonMap::new();
    m.insert("request_id".into(), JsonValue::PosInt(77));
    Arc::new(m)
}

#[test]
fn call_codec_result_and_errors() {
    let meta = call_meta();
    let mut c: CallCodec<String> = CallCodec::new(Arc::new("auth".into()), "/p".into(), Cid(9), &meta,
        vec![], Arc::new("kw".into()), "srv".into(), false);
    assert_eq!(c.add_request_id(), "srv-9-77");
    assert!(c.start_write().is_some());
    c.headers_received(Some(Status { code: 200 }), ContentType::Valid).unwrap();
    let m = c.data_received(Ok("result".into()), true);
    assert!(matches!(m, ConnectionMessage::Result(_, ref x) if x == "result"));

    let mut c: CallCodec<String> = CallCodec::new(Arc::new("auth".into()), "/p".into(), Cid(9), &meta,
        vec![], Arc::new("kw".into()), "srv".into(), false);
    c.start_write();
    c.headers_received(Some(Status { code: 200 }), ContentType::Valid).unwrap();
    let m = c.data_received(Err("bad json".into()), true);
    assert!(matches!(m, ConnectionMessage::Error(_, MessageError::JsonError(ref t)) if t == "bad json"));

    let mut c: CallCodec<String> = CallCodec::new(Arc::new("auth".into()), "/p".into(), Cid(9), &meta,
        vec![], Arc::new("kw".into()), "srv".into(), false);
    c.start_write();
    c.headers_received(Some(Status { code: 404 }), ContentType::Absent).unwrap();
    let m = c.data_received(Ok("body".into()), true);
    assert!(matches!(m, ConnectionMessage::Error(_, MessageError::HttpError(Status { code: 404 }, None))));
    assert!(c.drop_message().is_none());
}
