//! How messages to a websocket, and requests to a backend, are laid out as
//! JSON: a kind, a metadata object and a body. The metadata of a reply to a
//! call is the call's own, with the members that the server adds in front.
use vstd::prelude::*;
use std::sync::Arc;
use crate::cid::{Cid, PubCid, decimal_text};
use crate::dispatcher::concat;
use crate::error::{CloseReason, ErrorKind, ErrorPayload, MessageError, debug_quoted};
use crate::json::{JsonMap, JsonValue};
use crate::lattice::Values;
use crate::map::StrMap;
use crate::processor::ConnectionMessage;

verus! {

/// Whether some member of `e` has key `k`.
pub open spec fn has_key(e: Seq<(String, JsonValue)>, k: Seq<char>) -> bool {
    exists|i: int| 0 <= i < e.len() && #[trigger] e[i].0@ == k
}

/// The members of `base` whose key is not among those of `fresh`.
pub open spec fn kept_members(fresh: Seq<(String, JsonValue)>, base: Seq<(String, JsonValue)>) -> Seq<
    (String, JsonValue),
> {
    base.filter(|e: (String, JsonValue)| !has_key(fresh, e.0@))
}

/// The members of an object made of `fresh` and `base`: those of `fresh`
/// first, then those of `base` whose key is not among them.
pub open spec fn merged_members(fresh: Seq<(String, JsonValue)>, base: Seq<(String, JsonValue)>) -> Seq<
    (String, JsonValue),
> {
    fresh + kept_members(fresh, base)
}

/// Whether `m` has a member with key `key`.
pub fn has_member(m: &JsonMap, key: &str) -> (r: bool)
    ensures
        r == has_key(m.entries@, key@),
{
    let mut i: usize = 0;
    while i < m.entries.len()
        invariant
            i <= m.entries@.len(),
            forall|j: int| 0 <= j < i ==> #[trigger] m.entries@[j].0@ != key@,
        decreases m.entries.len() - i,
    {
        if crate::text::str_eq(m.entries[i].0.as_str(), key) {
            return true;
        }
        i = i + 1;
    }
    false
}

/// The members of the object made of `fresh` and `base` (see
/// `merged_members`), as references into the two.
pub fn merge_members<'a>(fresh: &'a JsonMap, base: &'a JsonMap) -> (r: Vec<(&'a String, &'a JsonValue)>)
    ensures
        r@.len() == merged_members(fresh.entries@, base.entries@).len(),
        forall|i: int|
            0 <= i < r@.len() ==> (*#[trigger] r@[i].0, *r@[i].1) == merged_members(
                fresh.entries@,
                base.entries@,
            )[i],
{
    let mut r: Vec<(&'a String, &'a JsonValue)> = Vec::new();
    let mut i: usize = 0;
    while i < fresh.entries.len()
        invariant
            i <= fresh.entries@.len(),
            r@.len() == i,
            forall|j: int| 0 <= j < i ==> (*#[trigger] r@[j].0, *r@[j].1) == fresh.entries@[j],
        decreases fresh.entries.len() - i,
    {
        let e = &fresh.entries[i];
        r.push((&e.0, &e.1));
        i = i + 1;
    }
    let ghost f = fresh.entries@;
    let ghost b = base.entries@;
    let mut j: usize = 0;
    proof {
        reveal(Seq::filter);
        assert(b.take(0) =~= Seq::<(String, JsonValue)>::empty());
        assert(f + kept_members(f, b.take(0)) =~= f);
    }
    while j < base.entries.len()
        invariant
            j <= b.len(),
            f == fresh.entries@,
            b == base.entries@,
            r@.len() == (f + kept_members(f, b.take(j as int))).len(),
            forall|k: int|
                0 <= k < r@.len() ==> (*#[trigger] r@[k].0, *r@[k].1) == (f + kept_members(
                    f,
                    b.take(j as int),
                ))[k],
        decreases base.entries.len() - j,
    {
        let e = &base.entries[j];
        let present = has_member(fresh, e.0.as_str());
        let ghost before = r@;
        if !present {
            r.push((&e.0, &e.1));
        }
        proof {
            reveal(Seq::filter);
            assert(b.take(j + 1).drop_last() =~= b.take(j as int));
            assert(b.take(j + 1).last() == b[j as int]);
            let prev = kept_members(f, b.take(j as int));
            if present {
                assert(kept_members(f, b.take(j + 1)) =~= prev);
            } else {
                assert(kept_members(f, b.take(j + 1)) =~= prev.push(b[j as int]));
                assert(f + prev.push(b[j as int]) =~= (f + prev).push(b[j as int]));
            }
        }
        j = j + 1;
    }
    proof {
        assert(b.take(b.len() as int) =~= b);
    }
    r
}

/// References to the members of `m`, in order.
pub fn member_refs<'a>(m: &'a JsonMap) -> (r: Vec<(&'a String, &'a JsonValue)>)
    ensures
        r@.len() == m.entries@.len(),
        forall|i: int| 0 <= i < r@.len() ==> (*#[trigger] r@[i].0, *r@[i].1) == m.entries@[i],
{
    let mut r: Vec<(&'a String, &'a JsonValue)> = Vec::new();
    let mut i: usize = 0;
    while i < m.entries.len()
        invariant
            i <= m.entries@.len(),
            r@.len() == i,
            forall|j: int| 0 <= j < i ==> (*#[trigger] r@[j].0, *r@[j].1) == m.entries@[j],
        decreases m.entries.len() - i,
    {
        let e = &m.entries[i];
        r.push((&e.0, &e.1));
        i = i + 1;
    }
    r
}

/// Whether member `e` is a string `text` under key `key`.
pub open spec fn text_member(e: (String, JsonValue), key: Seq<char>, text: Seq<char>) -> bool {
    &&& e.0@ == key
    &&& e.1 matches JsonValue::Str(s) && s@ == text
}

/// An object of one string member.
fn text_object(key: &str, text: String) -> (r: JsonMap)
    ensures
        r.entries@.len() == 1,
        text_member(r.entries@[0], key@, text@),
{
    let mut m = JsonMap::new();
    m.entries.push((key.to_string(), JsonValue::Str(text)));
    m
}

/// The public id of connection `cid` of server `server`.
pub open spec fn connection_id_text(server: Seq<char>, cid: u64) -> Seq<char> {
    server + seq!['-'] + decimal_text(cid as nat)
}

/// The metadata that the server puts in front of what it sends to a
/// backend for a connection: `{"connection_id": "<server>-<cid>"}`.
pub fn connection_meta(server_id: &String, cid: Cid) -> (r: JsonMap)
    ensures
        r.entries@.len() == 1,
        text_member(r.entries@[0], "connection_id"@, connection_id_text(server_id@, cid.0)),
{
    let id = PubCid(cid, server_id.clone()).to_text();
    text_object("connection_id", id)
}

/// The `error_kind` word of an error kind.
pub open spec fn error_kind_name(k: ErrorKind) -> Seq<char> {
    match k {
        ErrorKind::HttpError(_) => "http_error"@,
        ErrorKind::DataError => "data_error"@,
        ErrorKind::ValidationError => "validation_error"@,
        ErrorKind::InternalError => "internal_error"@,
    }
}

/// Whether `e` are the members that tell a client of an error of kind `k`:
/// `error_kind`, then `http_error` with the status code for a backend error.
pub open spec fn describes_error(e: Seq<(String, JsonValue)>, k: ErrorKind) -> bool {
    &&& e.len() >= 1
    &&& text_member(e[0], "error_kind"@, error_kind_name(k))
    &&& match k {
        ErrorKind::HttpError(code) => e.len() == 2 && e[1].0@ == "http_error"@ && e[1].1
            == JsonValue::PosInt(code as u64),
        _ => e.len() == 1,
    }
}

/// The members that tell a client of an error of kind `k`.
fn error_meta(k: ErrorKind) -> (r: JsonMap)
    ensures
        describes_error(r.entries@, k),
{
    match k {
        ErrorKind::HttpError(code) => {
            let mut m = text_object("error_kind", "http_error".to_string());
            m.entries.push(("http_error".to_string(), JsonValue::PosInt(code as u64)));
            m
        },
        ErrorKind::DataError => text_object("error_kind", "data_error".to_string()),
        ErrorKind::ValidationError => text_object("error_kind", "validation_error".to_string()),
        ErrorKind::InternalError => text_object("error_kind", "internal_error".to_string()),
    }
}

/// The members that tell a client of error `err`: its `error_kind`, and
/// the status code of a backend error as `http_error`.
pub fn json_err<P>(err: &MessageError<P>) -> (r: JsonMap)
    ensures
        describes_error(r.entries@, err.kind_of()),
{
    error_meta(err.kind())
}

/// The debug form of a close reason.
pub open spec fn close_reason_debug(r: CloseReason) -> Seq<char> {
    match r {
        CloseReason::PoolStopped => "PoolStopped"@,
        CloseReason::PeerClose(code, text) => "PeerClose("@ + decimal_text(code as nat) + ", "@
            + debug_quoted(text@) + ")"@,
    }
}

/// The debug form of a close reason, as the `stop` frame carries it.
pub fn close_reason_text(r: &CloseReason) -> (t: String)
    ensures
        t@ == close_reason_debug(*r),
{
    match r {
        CloseReason::PoolStopped => "PoolStopped".to_string(),
        CloseReason::PeerClose(code, text) => {
            let num = crate::cid::u64_to_text(*code as u64);
            let a = concat("PeerClose(", num.as_str());
            let b = concat(a.as_str(), ", ");
            let q = crate::error::debug_quote(text.as_str());
            let c = concat(b.as_str(), q.as_str());
            concat(c.as_str(), ")")
        },
    }
}

/// An object of `extra` members put in front of those of `meta` whose key
/// is not among them (`meta` may be absent).
pub struct MetaWithExtra<'a> {
    pub meta: Option<&'a JsonMap>,
    pub extra: JsonMap,
}

impl<'a> MetaWithExtra<'a> {
    /// The members of the object.
    pub open spec fn members(&self) -> Seq<(String, JsonValue)> {
        match self.meta {
            Some(m) => merged_members(self.extra.entries@, m.entries@),
            None => self.extra.entries@,
        }
    }

    /// References to the members of the object, in order.
    pub fn member_list(&self) -> (r: Vec<(&String, &JsonValue)>)
        ensures
            r@.len() == self.members().len(),
            forall|i: int|
                0 <= i < r@.len() ==> (*#[trigger] r@[i].0, *r@[i].1) == self.members()[i],
    {
        match self.meta {
            Some(m) => merge_members(&self.extra, m),
            None => member_refs(&self.extra),
        }
    }
}

/// The metadata part of a frame.
pub enum FrameMeta<'a> {
    /// An object.
    Object(MetaWithExtra<'a>),
    /// A string.
    Text(String),
}

impl<'a> FrameMeta<'a> {
    /// The members of an object (none for a string).
    pub open spec fn members(&self) -> Seq<(String, JsonValue)> {
        match self {
            FrameMeta::Object(w) => w.members(),
            FrameMeta::Text(_) => Seq::empty(),
        }
    }

    /// References to the members of an object (none for a string).
    pub fn member_list(&self) -> (r: Vec<(&String, &JsonValue)>)
        ensures
            r@.len() == self.members().len(),
            forall|i: int|
                0 <= i < r@.len() ==> (*#[trigger] r@[i].0, *r@[i].1) == self.members()[i],
    {
        match self {
            FrameMeta::Object(w) => w.member_list(),
            FrameMeta::Text(_) => Vec::new(),
        }
    }
}

/// The body part of a frame.
pub enum FrameBody<'a, P> {
    /// JSON data.
    Data(&'a P),
    /// Lattice values by key.
    Lattice(&'a StrMap<Values>),
    /// What an error reply carries.
    Error(ErrorPayload<P>),
    /// `null`
    Null,
}

/// A message to a websocket as its three parts: `[kind, meta, body]`.
pub struct Frame<'a, P> {
    pub kind: &'static str,
    pub meta: FrameMeta<'a>,
    pub body: FrameBody<'a, P>,
}

/// Whether `m` is an object of new members alone, which satisfy `pred`.
pub open spec fn fresh_object(m: FrameMeta, pred: spec_fn(Seq<(String, JsonValue)>) -> bool) -> bool {
    m matches FrameMeta::Object(w) && w.meta is None && pred(w.extra.entries@)
}

impl<P> ConnectionMessage<P> {
    /// The frame that carries this message to the websocket client.
    pub fn frame(&self) -> (r: Frame<'_, P>)
        ensures
            match *self {
                ConnectionMessage::Publish(topic, data) => {
                    &&& r.kind@ == "message"@
                    &&& fresh_object(
                        r.meta,
                        |e: Seq<(String, JsonValue)>|
                            e.len() == 1 && text_member(e[0], "topic"@, topic@),
                    )
                    &&& r.body matches FrameBody::Data(d) && *d == *data
                },
                ConnectionMessage::Hello(_, data) => {
                    &&& r.kind@ == "hello"@
                    &&& fresh_object(r.meta, |e: Seq<(String, JsonValue)>| e.len() == 0)
                    &&& r.body matches FrameBody::Data(d) && *d == *data
                },
                ConnectionMessage::Lattice(namespace, values) => {
                    &&& r.kind@ == "lattice"@
                    &&& fresh_object(
                        r.meta,
                        |e: Seq<(String, JsonValue)>|
                            e.len() == 1 && text_member(e[0], "namespace"@, namespace@),
                    )
                    &&& r.body matches FrameBody::Lattice(v) && *v == *values
                },
                ConnectionMessage::Result(meta, data) => {
                    &&& r.kind@ == "result"@
                    &&& r.meta matches FrameMeta::Object(w) && w.extra.entries@.len() == 0
                        && w.meta == Some(&*meta)
                    &&& r.body matches FrameBody::Data(d) && *d == data
                },
                ConnectionMessage::Error(meta, err) => {
                    &&& r.kind@ == "error"@
                    &&& r.meta matches FrameMeta::Object(w) && describes_error(
                        w.extra.entries@,
                        err.kind_of(),
                    ) && w.meta == Some(&*meta)
                    &&& r.body matches FrameBody::Error(p) && err.payload_of(p)
                },
                ConnectionMessage::FatalError(err) => {
                    &&& r.kind@ == "fatal_error"@
                    &&& fresh_object(
                        r.meta,
                        |e: Seq<(String, JsonValue)>| describes_error(e, err.kind_of()),
                    )
                    &&& r.body is Null
                },
                ConnectionMessage::StopSocket(reason) => {
                    &&& r.kind@ == "stop"@
                    &&& r.meta matches FrameMeta::Text(t) && t@ == close_reason_debug(reason)
                    &&& r.body is Null
                },
            },
    {
        match self {
            ConnectionMessage::Publish(topic, data) => Frame {
                kind: "message",
                meta: FrameMeta::Object(
                    MetaWithExtra { meta: None, extra: text_object("topic", topic.clone()) },
                ),
                body: FrameBody::Data(&**data),
            },
            ConnectionMessage::Hello(_, data) => Frame {
                kind: "hello",
                meta: FrameMeta::Object(MetaWithExtra { meta: None, extra: JsonMap::new() }),
                body: FrameBody::Data(&**data),
            },
            ConnectionMessage::Lattice(namespace, values) => Frame {
                kind: "lattice",
                meta: FrameMeta::Object(
                    MetaWithExtra { meta: None, extra: text_object("namespace", namespace.clone()) },
                ),
                body: FrameBody::Lattice(&**values),
            },
            ConnectionMessage::Result(meta, data) => Frame {
                kind: "result",
                meta: FrameMeta::Object(MetaWithExtra { meta: Some(&**meta), extra: JsonMap::new() }),
                body: FrameBody::Data(data),
            },
            ConnectionMessage::Error(meta, err) => Frame {
                kind: "error",
                meta: FrameMeta::Object(MetaWithExtra { meta: Some(&**meta), extra: json_err(err) }),
                body: FrameBody::Error(err.payload()),
            },
            ConnectionMessage::FatalError(err) => Frame {
                kind: "fatal_error",
                meta: FrameMeta::Object(MetaWithExtra { meta: None, extra: json_err(err) }),
                body: FrameBody::Null,
            },
            ConnectionMessage::StopSocket(reason) => Frame {
                kind: "stop",
                meta: FrameMeta::Text(close_reason_text(reason)),
                body: FrameBody::Null,
            },
        }
    }
}

} // verus!
