//! Validation of websocket request messages.
//!
//! A request is `[method, meta, args, kwargs]`, for example
//! `["chat.send_message", {"request_id": "123"}, ["text"], {}]`.
use vstd::prelude::*;
use crate::json::{JsonValue, JsonMap};

verus! {

/// Request metadata.
pub type Meta = JsonMap;
/// Positional arguments of a request.
pub type Args = Vec<JsonValue>;
/// Keyword arguments of a request.
pub type Kwargs = JsonMap;

/// A decoded request: method name, metadata, arguments, keyword arguments.
pub struct Request(pub String, pub Meta, pub Args, pub Kwargs);

/// What the HTTP handshake tells the authorization backend.
pub struct AuthData {
    pub http_cookie: Option<String>,
    pub http_authorization: Option<String>,
    pub url_querystring: String,
}

/// An ASCII letter or digit.
pub open spec fn is_ascii_alnum(c: char) -> bool {
    ||| ('a' <= c && c <= 'z')
    ||| ('A' <= c && c <= 'Z')
    ||| ('0' <= c && c <= '9')
}

/// A character allowed in a method name.
pub open spec fn method_char(c: char) -> bool {
    is_ascii_alnum(c) || c == '-' || c == '_' || c == '.'
}

/// A method name that clients may call: not empty, not in the reserved
/// `tangle.` and `swindon.` namespaces, and made of ASCII letters, digits,
/// `-`, `_` and `.`.
pub open spec fn is_valid_method(m: Seq<char>) -> bool {
    &&& m.len() > 0
    &&& !"tangle."@.is_prefix_of(m)
    &&& !"swindon."@.is_prefix_of(m)
    &&& forall|i: int| 0 <= i < m.len() ==> #[trigger] method_char(m[i])
}

/// A character allowed in a string request id: a lower-case ASCII letter,
/// a digit, `-` or `_`.
pub open spec fn request_id_char(c: char) -> bool {
    ('a' <= c && c <= 'z') || ('0' <= c && c <= '9') || c == '-' || c == '_'
}

/// A request id: an unsigned integer, or a string of 1 to 36 lower-case
/// ASCII letters, digits, `-` and `_`.
pub open spec fn is_valid_request_id(meta: JsonMap) -> bool {
    match meta.lookup("request_id"@) {
        Some(JsonValue::Str(s)) => {
            &&& 1 <= s@.len() <= 36
            &&& forall|i: int| 0 <= i < s@.len() ==> #[trigger] request_id_char(s@[i])
        },
        Some(JsonValue::PosInt(_)) => true,
        _ => false,
    }
}

/// The activity period that a request announces: `active` holding an
/// unsigned integer.
pub open spec fn active_of(meta: JsonMap) -> Option<u64> {
    match meta.lookup("active"@) {
        Some(JsonValue::PosInt(n)) => Some(n),
        _ => None,
    }
}

/// Whether `s` begins with `prefix`.
pub(crate) fn str_starts_with(s: &str, prefix: &str) -> (r: bool)
    ensures
        r == prefix@.is_prefix_of(s@),
{
    let v = crate::text::str_chars(s);
    let m = crate::text::str_chars(prefix).len();
    if m > v.len() {
        return false;
    }
    crate::text::chars_eq_str(v.as_slice(), 0, m, prefix)
}

fn chars_all_method(s: &str) -> (r: bool)
    ensures
        r == (forall|i: int| 0 <= i < s@.len() ==> #[trigger] method_char(s@[i])),
{
    for c in it: s.chars()
        invariant
            it.seq() == s@,
            forall|i: int| 0 <= i < it.index() ==> #[trigger] method_char(s@[i]),
    {
        proof {
            assert(c == s@[it.index() as int]);
        }
        if !(('a' <= c && c <= 'z') || ('A' <= c && c <= 'Z') || ('0' <= c && c <= '9') || c
            == '-' || c == '_' || c == '.') {
            proof {
                assert(!method_char(s@[it.index() as int]));
                assert(0 <= it.index() < s@.len());
            }
            return false;
        }
    }
    true
}

fn valid_request_id_str(s: &str) -> (r: bool)
    ensures
        r == (1 <= s@.len() <= 36 && forall|i: int|
            0 <= i < s@.len() ==> #[trigger] request_id_char(s@[i])),
{
    let mut n: usize = 0;
    for c in it: s.chars()
        invariant
            it.seq() == s@,
            n == it.index(),
            n <= 36,
            forall|i: int| 0 <= i < n ==> #[trigger] request_id_char(s@[i]),
    {
        proof {
            assert(c == s@[it.index() as int]);
            assert(0 <= it.index() < s@.len());
        }
        if !(('a' <= c && c <= 'z') || ('0' <= c && c <= '9') || c == '-' || c == '_') {
            proof {
                assert(!request_id_char(s@[n as int]));
            }
            return false;
        }
        if n == 36 {
            return false;
        }
        n = n + 1;
    }
    n >= 1
}

/// Returns true if `request_id` is either an unsigned integer or a string of
/// up to 36 characters matching `[a-z0-9_-]`.
pub fn valid_request_id(meta: &Meta) -> (r: bool)
    ensures
        r == is_valid_request_id(*meta),
{
    match meta.get("request_id") {
        Some(JsonValue::Str(s)) => valid_request_id_str(s.as_str()),
        Some(JsonValue::PosInt(_)) => true,
        _ => false,
    }
}

/// The `active` period that the metadata announces, when it is an unsigned
/// integer (of seconds).
pub fn get_active(meta: &Meta) -> (r: Option<u64>)
    ensures
        r == active_of(*meta),
{
    match meta.get("active") {
        Some(JsonValue::PosInt(n)) => Some(*n),
        _ => None,
    }
}

/// Returns true if method is valid.
pub fn valid_method(method: &str) -> (r: bool)
    ensures
        r == is_valid_method(method@),
{
    if method.is_empty() {
        false
    } else if str_starts_with(method, "tangle.") {
        false
    } else if str_starts_with(method, "swindon.") {
        false
    } else {
        chars_all_method(method)
    }
}

/// Why a JSON value is not a request.
#[derive(Debug, Clone, Copy, PartialEq, Eq, Structural)]
pub enum RequestError {
    /// The value is not an array.
    NotAnArray,
    /// The array ends early, or goes on after the keyword arguments: its
    /// length.
    Length(usize),
    /// The method is not a string.
    Method,
    /// The metadata is not an object.
    Meta,
    /// The arguments are not an array.
    Args,
    /// The keyword arguments are not an object.
    Kwargs,
}

/// What is wrong with array `a` as a request, read element by element;
/// `None` where it is one.
pub open spec fn request_fault(a: Seq<JsonValue>) -> Option<RequestError> {
    if a.len() < 1 {
        Some(RequestError::Length(a.len() as usize))
    } else if !(a[0] is Str) {
        Some(RequestError::Method)
    } else if a.len() < 2 {
        Some(RequestError::Length(a.len() as usize))
    } else if !(a[1] is Object) {
        Some(RequestError::Meta)
    } else if a.len() < 3 {
        Some(RequestError::Length(a.len() as usize))
    } else if !(a[2] is Array) {
        Some(RequestError::Args)
    } else if a.len() < 4 {
        Some(RequestError::Length(a.len() as usize))
    } else if !(a[3] is Object) {
        Some(RequestError::Kwargs)
    } else if a.len() > 4 {
        Some(RequestError::Length(a.len() as usize))
    } else {
        None
    }
}

/// Reads a request from a decoded JSON value: an array of the method name,
/// the metadata object, the arguments array and the keyword arguments
/// object.
pub fn decode_message(v: JsonValue) -> (r: Result<Request, RequestError>)
    ensures
        match v {
            JsonValue::Array(a) => match request_fault(a@) {
                Some(e) => r == Err::<Request, RequestError>(e),
                None => r matches Ok(req) && (a@[0] matches JsonValue::Str(m) && m == req.0) && a@[1]
                    == JsonValue::Object(req.1) && a@[2] == JsonValue::Array(req.2) && a@[3]
                    == JsonValue::Object(req.3),
            },
            _ => r == Err::<Request, RequestError>(RequestError::NotAnArray),
        },
{
    let mut a = match v {
        JsonValue::Array(a) => a,
        _ => {
            return Err(RequestError::NotAnArray);
        },
    };
    let n = a.len();
    if n < 1 {
        return Err(RequestError::Length(n));
    }
    if !matches!(a[0], JsonValue::Str(_)) {
        return Err(RequestError::Method);
    }
    if n < 2 {
        return Err(RequestError::Length(n));
    }
    if !matches!(a[1], JsonValue::Object(_)) {
        return Err(RequestError::Meta);
    }
    if n < 3 {
        return Err(RequestError::Length(n));
    }
    if !matches!(a[2], JsonValue::Array(_)) {
        return Err(RequestError::Args);
    }
    if n < 4 {
        return Err(RequestError::Length(n));
    }
    if !matches!(a[3], JsonValue::Object(_)) {
        return Err(RequestError::Kwargs);
    }
    if n > 4 {
        return Err(RequestError::Length(n));
    }
    let ghost whole = a@;
    let kwargs = a.pop();
    let args = a.pop();
    let meta = a.pop();
    let method = a.pop();
    match (method, meta, args, kwargs) {
        (
            Some(JsonValue::Str(m)),
            Some(JsonValue::Object(meta)),
            Some(JsonValue::Array(args)),
            Some(JsonValue::Object(kw)),
        ) => Ok(Request(m, meta, args, kw)),
        _ => Err(RequestError::Length(n)),
    }
}

} // verus!
