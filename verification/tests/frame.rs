use std::sync::Arc;

use swindon::backend::{AuthCodec, CallCodec};
use swindon::cid::Cid;
use swindon::error::{CloseReason, ErrorPayload, MessageError, Status};
use swindon::frame::{
    close_reason_text, connection_meta, has_member, json_err, merge_members, FrameBody,
    FrameMeta,
};
use swindon::json::{JsonMap, JsonValue};
use swindon::map::StrMap;
use swindon::message::AuthData;
use swindon::processor::ConnectionMessage;

fn obj(members: &[(&str, JsonValue)]) -> JsonMap {
    let mut m = JsonMap::new();
    for (k, v) in members {
        let v = match v {
            JsonValue::Str(s) => JsonValue::Str(s.clone()),
            JsonValue::PosInt(n) => JsonValue::PosInt(*n),
            JsonValue::Bool(b) => JsonValue::Bool(*b),
            _ => JsonValue::Null,
        };
        m.insert(k.to_string(), v);
    }
    m
}

fn keys(list: &[(&String, &JsonValue)]) -> Vec<String> {
    list.iter().map(|(k, _)| (*k).clone()).collect()
}

fn text(v: &JsonValue) -> &str {
    match v {
        JsonValue::Str(s) => s.as_str(),
        _ => panic!("not a string"),
    }
}

#[test]
fn merged_members_put_fresh_ones_first() {
    let fresh = obj(&[("connection_id", JsonValue::Str("s-1".into()))]);
    let base = obj(&[
        ("request_id", JsonValue::PosInt(5)),
        ("connection_id", JsonValue::Str("forged".into())),
        ("active", JsonValue::PosInt(10)),
    ]);
    let list = merge_members(&fresh, &base);
    assert_eq!(keys(&list), vec!["connection_id", "request_id", "active"]);
    assert_eq!(text(list[0].1), "s-1");
    assert!(matches!(list[1].1, JsonValue::PosInt(5)));
}

#[test]
fn merged_members_of_empty_objects() {
    let empty = JsonMap::new();
    let base = obj(&[("a", JsonValue::Bool(true))]);
    assert_eq!(keys(&merge_members(&empty, &base)), vec!["a"]);
    assert_eq!(keys(&merge_members(&base, &empty)), vec!["a"]);
    assert!(merge_members(&empty, &empty).is_empty());
}

#[test]
fn member_lookup() {
    let m = obj(&[("a", JsonValue::Bool(true))]);
    assert!(has_member(&m, "a"));
    assert!(!has_member(&m, "b"));
}

#[test]
fn connection_meta_names_server_and_connection() {
    let m = connection_meta(&"srv".to_string(), Cid(42));
    assert_eq!(m.entries.len(), 1);
    assert_eq!(m.entries[0].0, "connection_id");
    assert_eq!(text(&m.entries[0].1), "srv-42");
}

#[test]
fn error_meta_members() {
    let m = json_err::<String>(&MessageError::HttpError(Status { code: 404 }, None));
    assert_eq!(m.entries.len(), 2);
    assert_eq!(text(&m.entries[0].1), "http_error");
    assert_eq!(m.entries[1].0, "http_error");
    assert!(matches!(m.entries[1].1, JsonValue::PosInt(404)));
    let cases: Vec<(MessageError<String>, &str)> = vec![
        (MessageError::Utf8Error("x".into()), "data_error"),
        (MessageError::JsonError("x".into()), "data_error"),
        (MessageError::ValidationError("x".into()), "validation_error"),
        (MessageError::PoolOverflow, "internal_error"),
        (MessageError::PoolError, "internal_error"),
    ];
    for (err, word) in cases {
        let m = json_err(&err);
        assert_eq!(m.entries.len(), 1);
        assert_eq!(m.entries[0].0, "error_kind");
        assert_eq!(text(&m.entries[0].1), word);
    }
}

#[test]
fn close_reasons_in_debug_form() {
    assert_eq!(close_reason_text(&CloseReason::PoolStopped), "PoolStopped");
    let r = CloseReason::PeerClose(1000, "bye \"now\"".into());
    assert_eq!(close_reason_text(&r), format!("{:?}", r));
    assert_eq!(close_reason_text(&r), "PeerClose(1000, \"bye \\\"now\\\"\")");
}

#[test]
fn publish_frame() {
    let msg: ConnectionMessage<String> =
        ConnectionMessage::Publish("room".into(), Arc::new("hi".into()));
    let f = msg.frame();
    assert_eq!(f.kind, "message");
    let list = f.meta.member_list();
    assert_eq!(keys(&list), vec!["topic"]);
    assert_eq!(text(list[0].1), "room");
    assert!(matches!(f.body, FrameBody::Data(d) if d == "hi"));
}

#[test]
fn hello_and_lattice_frames() {
    let msg: ConnectionMessage<String> =
        ConnectionMessage::Hello("sess".into(), Arc::new("user".into()));
    let f = msg.frame();
    assert_eq!(f.kind, "hello");
    assert!(f.meta.member_list().is_empty());
    assert!(matches!(f.body, FrameBody::Data(d) if d == "user"));

    let msg: ConnectionMessage<String> =
        ConnectionMessage::Lattice("ns".into(), Arc::new(StrMap::new()));
    let f = msg.frame();
    assert_eq!(f.kind, "lattice");
    let list = f.meta.member_list();
    assert_eq!(keys(&list), vec!["namespace"]);
    assert_eq!(text(list[0].1), "ns");
    assert!(matches!(f.body, FrameBody::Lattice(_)));
}

#[test]
fn result_and_error_frames() {
    let meta = Arc::new(obj(&[("request_id", JsonValue::PosInt(3))]));
    let msg: ConnectionMessage<String> = ConnectionMessage::Result(meta.clone(), "ok".into());
    let f = msg.frame();
    assert_eq!(f.kind, "result");
    assert_eq!(keys(&f.meta.member_list()), vec!["request_id"]);
    assert!(matches!(f.body, FrameBody::Data(d) if d == "ok"));

    let msg: ConnectionMessage<String> = ConnectionMessage::Error(meta.clone(),
        MessageError::HttpError(Status { code: 403 }, Some(Arc::new("denied".into()))));
    let f = msg.frame();
    assert_eq!(f.kind, "error");
    assert_eq!(keys(&f.meta.member_list()), vec!["error_kind", "http_error", "request_id"]);
    assert!(matches!(f.body, FrameBody::Error(ErrorPayload::Body(ref b)) if **b == "denied"));

    let msg: ConnectionMessage<String> = ConnectionMessage::Error(meta,
        MessageError::ValidationError("bad".into()));
    let f = msg.frame();
    let list = f.meta.member_list();
    assert_eq!(text(list[0].1), "validation_error");
    assert!(matches!(f.body, FrameBody::Error(ErrorPayload::Text(ref t)) if t == "\"bad\""));
}

#[test]
fn fatal_and_stop_frames() {
    let msg: ConnectionMessage<String> = ConnectionMessage::FatalError(MessageError::PoolOverflow);
    let f = msg.frame();
    assert_eq!(f.kind, "fatal_error");
    let list = f.meta.member_list();
    assert_eq!(text(list[0].1), "internal_error");
    assert!(matches!(f.body, FrameBody::Null));

    let msg: ConnectionMessage<String> = ConnectionMessage::StopSocket(CloseReason::PoolStopped);
    let f = msg.frame();
    assert_eq!(f.kind, "stop");
    assert!(matches!(f.meta, FrameMeta::Text(ref t) if t == "PoolStopped"));
    assert!(matches!(f.body, FrameBody::Null));
}

#[test]
fn backend_request_metadata() {
    let auth = AuthData { http_cookie: None, http_authorization: None, url_querystring: String::new() };
    let a = AuthCodec::new("/auth".into(), Cid(7), auth, "srv".into(), false);
    let m = a.request_meta();
    assert_eq!(text(&m.entries[0].1), "srv-7");

    let meta = Arc::new(obj(&[
        ("request_id", JsonValue::PosInt(1)),
        ("connection_id", JsonValue::Str("forged".into())),
    ]));
    let mut c: CallCodec<String> = CallCodec::new(Arc::new("auth".into()), "/p".into(), Cid(7),
        &meta, vec!["x".into()], Arc::new("kw".into()), "srv".into(), false);
    {
        let rm = c.request_meta();
        let list = rm.member_list();
        assert_eq!(keys(&list), vec!["connection_id", "request_id"]);
        assert_eq!(text(list[0].1), "srv-7");
    }
    let (auth, path, args, kw) = c.start_write().unwrap();
    assert_eq!(*auth, "auth");
    assert_eq!(path, "/p");
    assert_eq!(args, vec!["x".to_string()]);
    assert_eq!(*kw, "kw");
}
