use swindon::authorize::SendOutcome;
use swindon::dispatcher::{
    call_failure, frame_step, method_call, method_path, normalize_activity, update_activity,
    CallStep, ClientFrame, FrameStep,
};
use swindon::error::{CloseReason, MessageError};
use swindon::message::RequestError;
use swindon::json::{JsonMap, JsonValue};

fn meta_with_id() -> JsonMap {
    let mut m = JsonMap::new();
    m.insert("request_id".into(), JsonValue::Str("r1".into()));
    m
}

#[test]
fn method_path_under_destination() {
    assert_eq!(method_path("chat.send_message", "/"), "/chat/send_message");
    assert_eq!(method_path("chat.send_message", "/api"), "/api/chat/send_message");
    assert_eq!(method_path("ping", "/x/"), "/x//ping");
}

#[test]
fn method_call_rejects_invalid_method() {
    let step: CallStep<()> = method_call("tangle.auth", &meta_with_id(), "/");
    assert!(matches!(step, CallStep::Reject(MessageError::ValidationError(ref t)) if t == "invalid metod"));
}

#[test]
fn method_call_rejects_invalid_request_id() {
    let step: CallStep<()> = method_call("chat.send", &JsonMap::new(), "/");
    assert!(matches!(step, CallStep::Reject(MessageError::ValidationError(ref t)) if t == "invalid request id"));
}

#[test]
fn method_call_forwards_with_activity() {
    let mut meta = meta_with_id();
    meta.insert("active".into(), JsonValue::PosInt(30));
    let step: CallStep<()> = method_call("chat.send", &meta, "/v1");
    assert!(matches!(step, CallStep::Forward { activity: Some(30), ref path } if path == "/v1/chat/send"));
    let step: CallStep<()> = method_call("chat.send", &meta_with_id(), "/");
    assert!(matches!(step, CallStep::Forward { activity: None, ref path } if path == "/chat/send"));
}

#[test]
fn activity_is_clamped() {
    assert_eq!(update_activity(5, 10, 100), 10);
    assert_eq!(update_activity(50, 10, 100), 50);
    assert_eq!(update_activity(500, 10, 100), 100);
    assert_eq!(normalize_activity(None, 10, 100, 42), 42);
    assert_eq!(normalize_activity(Some(1), 10, 100, 42), 10);
}

#[test]
fn frames_from_clients() {
    let call = JsonValue::Array(vec![
        JsonValue::Str("chat.send".into()),
        JsonValue::Object(JsonMap::new()),
        JsonValue::Array(vec![]),
        JsonValue::Object(JsonMap::new()),
    ]);
    assert!(matches!(frame_step(ClientFrame::Text(Ok(call))),
        FrameStep::Call(ref r) if r.0 == "chat.send"));
    assert!(matches!(frame_step(ClientFrame::Text(Ok(JsonValue::Null))),
        FrameStep::Invalid(Ok(RequestError::NotAnArray))));
    assert!(matches!(frame_step(ClientFrame::Text(Err("bad".into()))),
        FrameStep::Invalid(Err(ref e)) if e == "bad"));
    assert!(matches!(frame_step(ClientFrame::Binary), FrameStep::Unsupported));
    assert!(matches!(frame_step(ClientFrame::Close(1000, "bye".into())),
        FrameStep::Stop(CloseReason::PeerClose(1000, ref t)) if t == "bye"));

    assert!(call_failure::<String>(SendOutcome::Ready).is_none());
    assert!(matches!(call_failure::<String>(SendOutcome::NotReady), Some(MessageError::PoolOverflow)));
    assert!(matches!(call_failure::<String>(SendOutcome::Failed), Some(MessageError::PoolError)));
    assert!(matches!(call_failure::<String>(SendOutcome::NoPool), Some(MessageError::PoolError)));
}
