//! Errors of websocket calls and how they are reported to clients.
use vstd::prelude::*;
use std::sync::Arc;

verus! {

/// An HTTP status, by its code.
#[derive(Debug, Clone, Copy, PartialEq, Eq, Structural)]
pub struct Status {
    pub code: u16,
}

/// Why a websocket is being closed.
#[derive(Debug, Clone, PartialEq)]
pub enum CloseReason {
    /// Stopping websocket because respective session pool is stopped
    PoolStopped,
    /// Closed by peer, we just propagate the message here
    PeerClose(u16, String),
}

/// An error of a websocket call; `P` is the type of JSON bodies. Errors that
/// come from the network or from decoding keep the text that describes them.
#[derive(Debug)]
pub enum MessageError<P> {
    /// Http client request error;
    IoError(String),
    /// Utf8 decoding error;
    Utf8Error(String),
    /// JSON Parser Error;
    JsonError(String),
    /// Protocol Message validation error;
    ValidationError(String),
    /// Backend application Error;
    HttpError(Status, Option<Arc<P>>),
    /// Coundn't send request by HTTP, got network or protocol error
    Proto(String),
    /// Too many requests queued
    PoolOverflow,
    /// Error sending message to worker pool
    PoolError,
}

/// The `error_kind` that a client sees for an error, with the HTTP status
/// code for backend errors.
#[derive(Debug, Clone, Copy, PartialEq, Eq, Structural)]
pub enum ErrorKind {
    HttpError(u16),
    DataError,
    ValidationError,
    InternalError,
}

/// The part of an error reply that carries the error itself.
#[derive(Debug)]
pub enum ErrorPayload<P> {
    /// `null`
    Null,
    /// The backend's JSON body.
    Body(Arc<P>),
    /// A text.
    Text(String),
}

/// The Rust debug form of a string (quoted, with escapes).
pub uninterp spec fn debug_quoted(s: Seq<char>) -> Seq<char>;

/// `format!("{:?}", s)` for a string: its debug form.
#[verifier::external_body]
pub(crate) fn debug_quote(s: &str) -> (r: String)
    ensures
        r@ == debug_quoted(s@),
{
    format!("{:?}", s)
}

/// A copy of a string.
fn copy_text(s: &String) -> (r: String)
    ensures
        r@ == s@,
{
    s.clone()
}

impl<P> MessageError<P> {
    /// The kind of error that clients are told about.
    pub open spec fn kind_of(&self) -> ErrorKind {
        match self {
            MessageError::HttpError(status, _) => ErrorKind::HttpError(status.code),
            MessageError::Utf8Error(_) => ErrorKind::DataError,
            MessageError::JsonError(_) => ErrorKind::DataError,
            MessageError::ValidationError(_) => ErrorKind::ValidationError,
            _ => ErrorKind::InternalError,
        }
    }

    /// Whether `r` is what an error reply carries for this error.
    pub open spec fn payload_of(&self, r: ErrorPayload<P>) -> bool {
        match (self, r) {
            (MessageError::HttpError(_, None), ErrorPayload::Null) => true,
            (MessageError::HttpError(_, Some(b)), ErrorPayload::Body(c)) => *b == *c,
            (MessageError::Utf8Error(e), ErrorPayload::Text(t)) => t@ == e@,
            (MessageError::JsonError(e), ErrorPayload::Text(t)) => t@ == e@,
            (MessageError::ValidationError(e), ErrorPayload::Text(t)) => t@ == debug_quoted(e@),
            (MessageError::IoError(e), ErrorPayload::Text(t)) => t@ == e@,
            (MessageError::Proto(_), ErrorPayload::Text(t)) => t@ == "backend_protocol_error"@,
            (MessageError::PoolOverflow, ErrorPayload::Text(t)) => t@ == "too_many_requests"@,
            (MessageError::PoolError, ErrorPayload::Text(t)) => t@ == "unexpected_pool_error"@,
            _ => false,
        }
    }

    /// The kind of error that clients are told about.
    pub fn kind(&self) -> (r: ErrorKind)
        ensures
            r == self.kind_of(),
    {
        match self {
            MessageError::HttpError(status, _) => ErrorKind::HttpError(status.code),
            MessageError::Utf8Error(_) => ErrorKind::DataError,
            MessageError::JsonError(_) => ErrorKind::DataError,
            MessageError::ValidationError(_) => ErrorKind::ValidationError,
            _ => ErrorKind::InternalError,
        }
    }

    /// What the error reply carries: the backend's body for an HTTP error
    /// (or `null`), the description of a decoding error, the quoted reason of
    /// a validation error or of an I/O error, and fixed words for the others.
    pub fn payload(&self) -> (r: ErrorPayload<P>)
        ensures
            self.payload_of(r),
    {
        match self {
            MessageError::HttpError(_, None) => ErrorPayload::Null,
            MessageError::HttpError(_, Some(b)) => ErrorPayload::Body(crate::arc::share(b)),
            MessageError::Utf8Error(e) => ErrorPayload::Text(copy_text(e)),
            MessageError::JsonError(e) => ErrorPayload::Text(copy_text(e)),
            MessageError::ValidationError(e) => ErrorPayload::Text(debug_quote(e.as_str())),
            MessageError::IoError(e) => ErrorPayload::Text(copy_text(e)),
            MessageError::Proto(_) => ErrorPayload::Text("backend_protocol_error".to_string()),
            MessageError::PoolOverflow => ErrorPayload::Text("too_many_requests".to_string()),
            MessageError::PoolError => ErrorPayload::Text("unexpected_pool_error".to_string()),
        }
    }
}

/// The statuses that a backend is allowed (and expected) to answer with;
/// others are logged.
pub open spec fn is_good_status(code: u16) -> bool {
    code == 400 || code == 401 || code == 403 || code == 404 || code == 410 || code == 500 || code
        == 503
}

/// Returns true when status is one in the set which backend is allowed
/// (and expected) to return
pub fn good_status(status: Status) -> (r: bool)
    ensures
        r == is_good_status(status.code),
{
    let c = status.code;
    c == 400 || c == 401 || c == 403 || c == 404 || c == 410 || c == 500 || c == 503
}

} // verus!
