//! Authorization of a new websocket connection by the backend.
use vstd::prelude::*;
use crate::error::{MessageError, Status};
use crate::json::JsonValue;
use crate::message::AuthData;
use crate::text::{
    ascii_ci_eq, lemma_split_nonempty, split_on_char, split_seq, law_split_first, str_chars,
    str_eq_ignore_ascii_case, tail_replacing, utf8_text,
};
use crate::dispatcher::call_path;
use crate::handler::lemma_split_len;

verus! {

/// The text that `String::from_utf8_lossy` makes of `b`.
pub uninterp spec fn lossy_text(b: Seq<u8>) -> Seq<char>;

/// `String::from_utf8_lossy`: the text that `b` encodes, with each invalid
/// sequence replaced by U+FFFD; valid UTF-8 is decoded as it is.
#[verifier::external_body]
fn utf8_lossy(b: &[u8]) -> (r: String)
    ensures
        r@ == lossy_text(b@),
        utf8_text(b@) matches Some(t) ==> r@ == t,
{
    String::from_utf8_lossy(b).into_owned()
}

/// A header by its name and value.
pub open spec fn header_view(h: (String, Vec<u8>)) -> (Seq<char>, Seq<u8>) {
    (h.0@, h.1@)
}

/// The values of the headers named `name` (in any ASCII case), in order.
pub open spec fn values_of(headers: Seq<(Seq<char>, Seq<u8>)>, name: Seq<char>) -> Seq<Seq<u8>>
    decreases headers.len(),
{
    if headers.len() == 0 {
        Seq::empty()
    } else {
        let rest = values_of(headers.drop_last(), name);
        if ascii_ci_eq(headers.last().0, name) {
            rest.push(headers.last().1)
        } else {
            rest
        }
    }
}

/// Law: the values of the headers named `name` are those of the headers
/// whose name matches it without ASCII case, in the order of the headers.
pub proof fn law_values_of(headers: Seq<(Seq<char>, Seq<u8>)>, name: Seq<char>)
    ensures
        values_of(headers, name) == headers.filter(
            |h: (Seq<char>, Seq<u8>)| ascii_ci_eq(h.0, name),
        ).map_values(|h: (Seq<char>, Seq<u8>)| h.1),
    decreases headers.len(),
{
    let named = |h: (Seq<char>, Seq<u8>)| ascii_ci_eq(h.0, name);
    let value = |h: (Seq<char>, Seq<u8>)| h.1;
    if headers.len() > 0 {
        let p = headers.drop_last();
        law_values_of(p, name);
        assert(headers =~= p.push(headers.last()));
        p.lemma_filter_push(headers.last(), named);
        if named(headers.last()) {
            assert(p.filter(named).push(headers.last()).map_values(value) =~= p.filter(
                named,
            ).map_values(value).push(headers.last().1));
        }
    } else {
        assert(headers.filter(named).map_values(value) =~= Seq::<Seq<u8>>::empty());
    }
}

/// The text after the first `?` of a path, or nothing.
pub open spec fn query_string(path: Seq<char>) -> Seq<char> {
    let segs = split_seq(path, '?');
    if segs.len() > 1 {
        path.skip(segs[0].len() as int + 1)
    } else {
        Seq::empty()
    }
}

/// Law: the query string of a path is the text after its first `?`, and
/// nothing where it has none.
pub proof fn law_query_string(path: Seq<char>)
    ensures
        forall|i: int|
            0 <= i < path.len() && path[i] == '?' && (forall|j: int| 0 <= j < i ==> path[j] != '?')
                ==> #[trigger] path.skip(i + 1) == query_string(path),
        (forall|i: int| 0 <= i < path.len() ==> path[i] != '?') ==> query_string(path)
            == Seq::<char>::empty(),
{
    law_split_first(path, '?');
    assert forall|i: int|
        0 <= i < path.len() && path[i] == '?' && (forall|j: int| 0 <= j < i ==> path[j] != '?') implies #[trigger] path.skip(
        i + 1,
    ) == query_string(path) by {
        assert(split_seq(path, '?').len() > 1);
        assert(split_seq(path, '?')[0].len() == i);
    }
}

/// What a handshake with headers `headers` on `path` tells the backend: its
/// cookie and authorization headers, if one of each at most, and the query
/// string of its path.
pub open spec fn auth_data_spec(headers: Seq<(Seq<char>, Seq<u8>)>, path: Seq<char>) -> Option<
    (Option<Seq<char>>, Option<Seq<char>>, Seq<char>),
> {
    let cookies = values_of(headers, "Cookie"@);
    let auths = values_of(headers, "Authorization"@);
    if cookies.len() > 1 || auths.len() > 1 {
        None
    } else {
        Some(
            (
                if cookies.len() == 1 {
                    Some(lossy_text(cookies[0]))
                } else {
                    None
                },
                if auths.len() == 1 {
                    Some(lossy_text(auths[0]))
                } else {
                    None
                },
                query_string(path),
            ),
        )
    }
}

/// The values of the first `i + 1` headers named `name`: those of the
/// first `i`, and the `i`-th value where the header has that name.
proof fn lemma_values_step(h: Seq<(Seq<char>, Seq<u8>)>, name: Seq<char>, i: int)
    requires
        0 <= i < h.len(),
    ensures
        values_of(h.take(i + 1), name) == if ascii_ci_eq(h[i].0, name) {
            values_of(h.take(i), name).push(h[i].1)
        } else {
            values_of(h.take(i), name)
        },
{
    assert(h.take(i + 1).drop_last() =~= h.take(i));
}

/// Fewer headers have no more values of a name.
proof fn lemma_values_mono(h: Seq<(Seq<char>, Seq<u8>)>, name: Seq<char>, i: int, j: int)
    requires
        0 <= i <= j <= h.len(),
    ensures
        values_of(h.take(i), name).len() <= values_of(h.take(j), name).len(),
    decreases j - i,
{
    if i < j {
        lemma_values_mono(h, name, i, j - 1);
        lemma_values_step(h, name, j - 1);
    }
}

/// The optional string by its text.
pub open spec fn opt_text(s: Option<String>) -> Option<Seq<char>> {
    match s {
        Some(t) => Some(t@),
        None => None,
    }
}

/// The query string of `path`: the text after its first `?`, or nothing.
fn query_of(path: &str) -> (r: String)
    ensures
        r@ == query_string(path@),
{
    let pc = str_chars(path);
    let n = pc.len();
    assert(path@.len() == n);
    let segs = split_on_char(pc.as_slice(), '?');
    let ghost ss = split_seq(path@, '?');
    proof {
        lemma_split_nonempty(path@, '?');
        assert(crate::text::char_views(segs@)[0] == segs@[0]@);
    }
    if segs.len() > 1 {
        proof {
            lemma_split_len(path@, '?', 1);
            assert(ss.take(1).drop_last() =~= Seq::<Seq<char>>::empty());
            assert(crate::handler::sum_lens(ss.take(1)) == crate::handler::sum_lens(ss.take(1).drop_last()) + ss[0].len());
            assert(crate::handler::sum_lens(Seq::<Seq<char>>::empty()) == 0);
        }
        let off = segs[0].len() + 1;
        let r = tail_replacing(pc.as_slice(), off, '?', '?');
        proof {
            assert(r@ =~= path@.skip(off as int));
        }
        r
    } else {
        let r = String::new();
        proof {
            assert(r@ =~= Seq::<char>::empty());
        }
        r
    }
}

/// What the handshake tells the authorization backend: the `Cookie` and
/// `Authorization` headers (names in any ASCII case, values decoded as
/// UTF-8 with invalid sequences replaced) and the query string of the path;
/// `400 Bad Request` where either header comes twice.
pub fn auth_data(headers: &[(String, Vec<u8>)], path: &str) -> (r: Result<AuthData, Status>)
    ensures
        match auth_data_spec(headers@.map_values(|h: (String, Vec<u8>)| header_view(h)), path@) {
            None => r == Err::<AuthData, Status>(Status { code: 400 }),
            Some((c, a, q)) => r matches Ok(d) && opt_text(d.http_cookie) == c && opt_text(
                d.http_authorization,
            ) == a && d.url_querystring@ == q,
        },
{
    let ghost hv = headers@.map_values(|h: (String, Vec<u8>)| header_view(h));
    let mut cookie: Option<String> = None;
    let mut auth: Option<String> = None;
    proof {
        reveal_strlit("Cookie");
        reveal_strlit("Authorization");
        assert(hv.take(0) =~= Seq::<(Seq<char>, Seq<u8>)>::empty());
    }
    let mut i: usize = 0;
    while i < headers.len()
        invariant
            i <= headers@.len(),
            hv == headers@.map_values(|h: (String, Vec<u8>)| header_view(h)),
            values_of(hv.take(i as int), "Cookie"@).len() <= 1,
            values_of(hv.take(i as int), "Authorization"@).len() <= 1,
            opt_text(cookie) == if values_of(hv.take(i as int), "Cookie"@).len() == 1 {
                Some(lossy_text(values_of(hv.take(i as int), "Cookie"@)[0]))
            } else {
                None
            },
            opt_text(auth) == if values_of(hv.take(i as int), "Authorization"@).len() == 1 {
                Some(lossy_text(values_of(hv.take(i as int), "Authorization"@)[0]))
            } else {
                None
            },
        decreases headers@.len() - i,
    {
        let (key, value) = &headers[i];
        proof {
            reveal_strlit("Cookie");
            reveal_strlit("Authorization");
            assert(hv[i as int] == (key@, value@));
            lemma_values_step(hv, "Cookie"@, i as int);
            lemma_values_step(hv, "Authorization"@, i as int);
        }
        if str_eq_ignore_ascii_case(key.as_str(), "Cookie") {
            if cookie.is_some() {
                proof {
                    lemma_values_mono(hv, "Cookie"@, i + 1, hv.len() as int);
                    assert(hv.take(hv.len() as int) =~= hv);
                }
                return Err(Status { code: 400 });
            }
            cookie = Some(utf8_lossy(value.as_slice()));
        } else if str_eq_ignore_ascii_case(key.as_str(), "Authorization") {
            if auth.is_some() {
                proof {
                    lemma_values_mono(hv, "Authorization"@, i + 1, hv.len() as int);
                    assert(hv.take(hv.len() as int) =~= hv);
                }
                return Err(Status { code: 400 });
            }
            auth = Some(utf8_lossy(value.as_slice()));
        }
        proof {
            assert(ascii_ci_eq("Cookie"@, "Authorization"@) == false) by {
                assert("Cookie"@.len() != "Authorization"@.len());
            }
            if ascii_ci_eq(key@, "Cookie"@) && ascii_ci_eq(key@, "Authorization"@) {
                assert(key@.len() == "Cookie"@.len());
                assert(key@.len() == "Authorization"@.len());
            }
        }
        i = i + 1;
    }
    proof {
        assert(hv.take(hv.len() as int) =~= hv);
    }
    let url_querystring = query_of(path);
    Ok(AuthData { http_cookie: cookie, http_authorization: auth, url_querystring })
}

/// The backend method that authorizes connections.
pub open spec fn authorize_method(tangle: bool) -> Seq<char> {
    if tangle {
        "tangle.authorize_connection"@
    } else {
        "swindon.authorize_connection"@
    }
}

/// The backend method that authorizes connections, with the `tangle`
/// prefix or the `swindon` one.
pub fn authorize_method_name(use_tangle_prefix: bool) -> (r: &'static str)
    ensures
        r@ == authorize_method(use_tangle_prefix),
{
    if use_tangle_prefix {
        "tangle.authorize_connection"
    } else {
        "swindon.authorize_connection"
    }
}

/// Prepares the authorization of a new connection: the path of the call on
/// the destination (whose path is `dest_path`, `None` where the destination
/// is not configured) and what the handshake tells; or the status that the
/// connection fails with.
pub fn start_authorize(
    use_tangle_prefix: bool,
    dest_path: Option<&str>,
    headers: &[(String, Vec<u8>)],
    path: &str,
) -> (r: Result<(String, AuthData), Status>)
    ensures
        dest_path is None ==> r == Err::<(String, AuthData), Status>(Status { code: 500 }),
        dest_path matches Some(d) ==> (match auth_data_spec(
            headers@.map_values(|h: (String, Vec<u8>)| header_view(h)),
            path@,
        ) {
            None => r == Err::<(String, AuthData), Status>(Status { code: 400 }),
            Some((c, a, q)) => r matches Ok((p, data)) && p@ == call_path(
                authorize_method(use_tangle_prefix),
                d@,
            ) && opt_text(data.http_cookie) == c && opt_text(data.http_authorization) == a
                && data.url_querystring@ == q,
        }),
{
    let dest = match dest_path {
        Some(d) => d,
        None => {
            return Err(Status { code: 500 });
        },
    };
    let method = authorize_method_name(use_tangle_prefix);
    let call = crate::dispatcher::method_path(method, dest);
    match auth_data(headers, path) {
        Ok(data) => Ok((call, data)),
        Err(status) => Err(status),
    }
}

/// How handing a request to an upstream's connection pool went.
#[derive(Debug, Clone, Copy, PartialEq, Eq, Structural)]
pub enum SendOutcome {
    /// The request is queued.
    Ready,
    /// The pool is full.
    NotReady,
    /// The pool refused it.
    Failed,
    /// There is no pool for the upstream.
    NoPool,
}

/// The status that a connection fails with when its authorization request
/// could not be sent: `503` where the pool is full or refused it, `404`
/// where there is no pool.
pub fn authorize_failure(outcome: SendOutcome) -> (r: Option<Status>)
    ensures
        r == match outcome {
            SendOutcome::Ready => None,
            SendOutcome::NotReady | SendOutcome::Failed => Some(Status { code: 503 }),
            SendOutcome::NoPool => Some(Status { code: 404 }),
        },
{
    match outcome {
        SendOutcome::Ready => None,
        SendOutcome::NotReady => Some(Status { code: 503 }),
        SendOutcome::Failed => Some(Status { code: 503 }),
        SendOutcome::NoPool => Some(Status { code: 404 }),
    }
}

/// The session id that the backend's user info names: its `user_id`
/// member, when it is a string.
pub open spec fn userinfo_id(data: JsonValue) -> Option<Seq<char>> {
    match data {
        JsonValue::Object(m) => match m.lookup("user_id"@) {
            Some(JsonValue::Str(s)) => Some(s@),
            _ => None,
        },
        _ => None,
    }
}

/// The error message for user info without a usable `user_id`.
pub open spec fn missing_user_id_text() -> Seq<char> {
    "user_id is missing or invalid"@
}

/// Reads the session id from the user info that the backend answered an
/// authorization with.
pub fn parse_userinfo<P>(data: &JsonValue) -> (r: Result<String, MessageError<P>>)
    ensures
        userinfo_id(*data) matches Some(s) ==> (r matches Ok(t) && t@ == s),
        userinfo_id(*data) is None ==> (r matches Err(MessageError::ValidationError(t)) && t@
            == missing_user_id_text()),
{
    let found = match data {
        JsonValue::Object(m) => match m.get("user_id") {
            Some(JsonValue::Str(s)) => Some(s.clone()),
            _ => None,
        },
        _ => None,
    };
    match found {
        Some(s) => Ok(s),
        None => {
            let t = "user_id is missing or invalid".to_string();
            proof {
                reveal_strlit("user_id is missing or invalid");
            }
            Err(MessageError::ValidationError(t))
        },
    }
}

} // verus!
