use std::sync::Arc;

use swindon::error::{good_status, ErrorKind, ErrorPayload, MessageError, Status};

#[test]
fn error_kinds() {
    let e: MessageError<String> = MessageError::HttpError(Status { code: 404 }, None);
    assert_eq!(e.kind(), ErrorKind::HttpError(404));
    let e: MessageError<String> = MessageError::Utf8Error("bad".into());
    assert_eq!(e.kind(), ErrorKind::DataError);
    let e: MessageError<String> = MessageError::JsonError("bad".into());
    assert_eq!(e.kind(), ErrorKind::DataError);
    let e: MessageError<String> = MessageError::ValidationError("bad".into());
    assert_eq!(e.kind(), ErrorKind::ValidationError);
    let e: MessageError<String> = MessageError::PoolOverflow;
    assert_eq!(e.kind(), ErrorKind::InternalError);
}

#[test]
fn error_payloads() {
    let e: MessageError<String> = MessageError::HttpError(Status { code: 404 }, None);
    assert!(matches!(e.payload(), ErrorPayload::Null));
    let e: MessageError<String> = MessageError::HttpError(Status { code: 404 }, Some(Arc::new("body".into())));
    assert!(matches!(e.payload(), ErrorPayload::Body(ref b) if **b == "body"));
    let e: MessageError<String> = MessageError::ValidationError("invalid metod".into());
    assert!(matches!(e.payload(), ErrorPayload::Text(ref t) if t == "\"invalid metod\""));
    let e: MessageError<String> = MessageError::PoolOverflow;
    assert!(matches!(e.payload(), ErrorPayload::Text(ref t) if t == "too_many_requests"));
    let e: MessageError<String> = MessageError::PoolError;
    assert!(matches!(e.payload(), ErrorPayload::Text(ref t) if t == "unexpected_pool_error"));
    let e: MessageError<String> = MessageError::Proto("x".into());
    assert!(matches!(e.payload(), ErrorPayload::Text(ref t) if t == "backend_protocol_error"));
}

#[test]
fn good_statuses() {
    for code in [400, 401, 403, 404, 410, 500, 503] {
        assert!(good_status(Status { code }));
    }
    for code in [200, 204, 302, 418, 502] {
        assert!(!good_status(Status { code }));
    }
}
