//! Calls that clients make over a websocket, and how they are forwarded to
//! the backend.
use vstd::prelude::*;
use crate::authorize::SendOutcome;
use crate::error::{CloseReason, MessageError};
use crate::json::JsonValue;
use crate::message::{Request, RequestError, decode_message};
use crate::message::{Meta, active_of, get_active, is_valid_method, is_valid_request_id, valid_method, valid_request_id};
use crate::text::{replace_char, str_chars, str_eq, tail_replacing};

verus! {

/// What to do with a call.
pub enum CallStep<P> {
    /// Reply with this error.
    Reject(MessageError<P>),
    /// Record activity for `activity` seconds where given, then forward the
    /// call to `path` on the method's destination.
    Forward { activity: Option<u64>, path: String },
}

/// The path that method `name` is called at on a destination whose path is
/// `dest`: the method with `.` turned into `/`, under the destination's
/// path.
pub open spec fn call_path(name: Seq<char>, dest: Seq<char>) -> Seq<char> {
    if dest == "/"@ {
        seq!['/'] + replace_char(name, '.', '/')
    } else {
        dest + seq!['/'] + replace_char(name, '.', '/')
    }
}

/// The text of `a` followed by `b`.
pub(crate) fn concat(a: &str, b: &str) -> (r: String)
    ensures
        r@ == a@ + b@,
{
    let av = str_chars(a);
    let bv = str_chars(b);
    let mut v = av;
    let mut i: usize = 0;
    while i < bv.len()
        invariant
            i <= bv@.len(),
            bv@ == b@,
            v@ == a@ + b@.take(i as int),
        decreases bv@.len() - i,
    {
        v.push(bv[i]);
        proof {
            assert(b@.take(i + 1) =~= b@.take(i as int).push(b@[i as int]));
            assert(v@ =~= a@ + b@.take(i + 1));
        }
        i = i + 1;
    }
    proof {
        assert(b@.take(b@.len() as int) =~= b@);
    }
    let r = tail_replacing(v.as_slice(), 0, '/', '/');
    proof {
        assert(r@ =~= v@);
    }
    r
}

/// The path of a call of `name` on a destination whose path is `dest_path`.
pub fn method_path(name: &str, dest_path: &str) -> (r: String)
    ensures
        r@ == call_path(name@, dest_path@),
{
    let nc = str_chars(name);
    let path = tail_replacing(nc.as_slice(), 0, '.', '/');
    proof {
        assert(nc@.skip(0) =~= nc@);
    }
    if str_eq(dest_path, "/") {
        let r = concat("/", path.as_str());
        proof {
            reveal_strlit("/");
            assert(r@ =~= seq!['/'] + replace_char(name@, '.', '/'));
        }
        r
    } else {
        let head = concat(dest_path, "/");
        let r = concat(head.as_str(), path.as_str());
        proof {
            reveal_strlit("/");
            assert(r@ =~= dest_path@ + seq!['/'] + replace_char(name@, '.', '/'));
        }
        r
    }
}

/// The error message for a call of an invalid method.
pub open spec fn invalid_method_text() -> Seq<char> {
    "invalid metod"@
}

/// The error message for a call with an invalid request id.
pub open spec fn invalid_request_id_text() -> Seq<char> {
    "invalid request id"@
}

/// Decides a call of method `name` with metadata `meta`, on a destination
/// whose path is `dest_path`: an invalid method or request id is rejected;
/// otherwise the call is forwarded, with the activity period the metadata
/// announces.
pub fn method_call<P>(name: &str, meta: &Meta, dest_path: &str) -> (r: CallStep<P>)
    ensures
        !is_valid_method(name@) ==> (r matches CallStep::Reject(MessageError::ValidationError(t))
            && t@ == invalid_method_text()),
        is_valid_method(name@) && !is_valid_request_id(*meta) ==> (r matches CallStep::Reject(
            MessageError::ValidationError(t),
        ) && t@ == invalid_request_id_text()),
        is_valid_method(name@) && is_valid_request_id(*meta) ==> (r matches CallStep::Forward {
            activity,
            path,
        } && activity == active_of(*meta) && path@ == call_path(name@, dest_path@)),
{
    if !valid_method(name) {
        let t = "invalid metod".to_string();
        proof {
            reveal_strlit("invalid metod");
        }
        return CallStep::Reject(MessageError::ValidationError(t));
    }
    if !valid_request_id(meta) {
        let t = "invalid request id".to_string();
        proof {
            reveal_strlit("invalid request id");
        }
        return CallStep::Reject(MessageError::ValidationError(t));
    }
    let activity = get_active(meta);
    let path = method_path(name, dest_path);
    CallStep::Forward { activity, path }
}

/// The idle timeout a client asks for, kept between `min` and `max`.
pub open spec fn clamp(v: u64, min: u64, max: u64) -> u64 {
    let low = if v < max {
        v
    } else {
        max
    };
    if low < min {
        min
    } else {
        low
    }
}

/// The idle timeout for activity announced as `seconds`: at most `max`, at
/// least `min` (where `min` exceeds `max`, `min`).
pub fn update_activity(seconds: u64, min: u64, max: u64) -> (r: u64)
    ensures
        r == clamp(seconds, min, max),
{
    let low = if seconds < max {
        seconds
    } else {
        max
    };
    if low < min {
        min
    } else {
        low
    }
}

/// The idle timeout for a session API activity: the announced period kept
/// between `min` and `max`, or `default` where none was announced.
pub fn normalize_activity(sec: Option<u64>, min: u64, max: u64, default: u64) -> (r: u64)
    ensures
        r == match sec {
            Some(v) => clamp(v, min, max),
            None => default,
        },
{
    match sec {
        Some(v) => update_activity(v, min, max),
        None => default,
    }
}

/// A websocket frame from a client. A text frame comes as the JSON value
/// it holds, or as the error of reading it as JSON.
pub enum ClientFrame {
    Text(Result<JsonValue, String>),
    Binary,
    Close(u16, String),
}

/// What a frame from a client leads to.
pub enum FrameStep {
    /// A call to make.
    Call(Request),
    /// The text does not hold a request: the connection fails with this
    /// reason.
    Invalid(Result<RequestError, String>),
    /// Binary frames are not supported: the connection fails.
    Unsupported,
    /// The client closes: the connection is stopped with this reason.
    Stop(CloseReason),
}

/// Decides what a frame from a client leads to.
pub fn frame_step(frame: ClientFrame) -> (r: FrameStep)
    ensures
        match frame {
            ClientFrame::Text(Ok(v)) => match v {
                JsonValue::Array(a) => match crate::message::request_fault(a@) {
                    Some(e) => r == FrameStep::Invalid(Ok::<RequestError, String>(e)),
                    None => r matches FrameStep::Call(req) && (a@[0] matches JsonValue::Str(m)
                        && m == req.0) && a@[1] == JsonValue::Object(req.1) && a@[2]
                        == JsonValue::Array(req.2) && a@[3] == JsonValue::Object(req.3),
                },
                _ => r == FrameStep::Invalid(Ok::<RequestError, String>(RequestError::NotAnArray)),
            },
            ClientFrame::Text(Err(e)) => r matches FrameStep::Invalid(Err(x)) && x@ == e@,
            ClientFrame::Binary => r is Unsupported,
            ClientFrame::Close(code, text) => r matches FrameStep::Stop(
                CloseReason::PeerClose(c, t),
            ) && c == code && t@ == text@,
        },
{
    match frame {
        ClientFrame::Text(Ok(v)) => match decode_message(v) {
            Ok(req) => FrameStep::Call(req),
            Err(e) => FrameStep::Invalid(Ok(e)),
        },
        ClientFrame::Text(Err(e)) => FrameStep::Invalid(Err(e)),
        ClientFrame::Binary => FrameStep::Unsupported,
        ClientFrame::Close(code, text) => FrameStep::Stop(CloseReason::PeerClose(code, text)),
    }
}

/// The error that a call is answered with when it could not be handed to
/// its upstream's pool: the pool is full, or it refused the call or does
/// not exist.
pub fn call_failure<P>(outcome: SendOutcome) -> (r: Option<MessageError<P>>)
    ensures
        match outcome {
            SendOutcome::Ready => r is None,
            SendOutcome::NotReady => r matches Some(MessageError::PoolOverflow),
            SendOutcome::Failed | SendOutcome::NoPool => r matches Some(MessageError::PoolError),
        },
{
    match outcome {
        SendOutcome::Ready => None,
        SendOutcome::NotReady => Some(MessageError::PoolOverflow),
        SendOutcome::Failed => Some(MessageError::PoolError),
        SendOutcome::NoPool => Some(MessageError::PoolError),
    }
}

} // verus!
