//! The requests that the server makes to backends on behalf of websocket
//! connections: authorization and method calls. Each request goes through
//! the same states: it is written, its head comes, its body comes.
use vstd::prelude::*;
use std::sync::Arc;
use crate::authorize::{parse_userinfo, userinfo_id};
use crate::cid::{Cid, decimal_text, u64_to_text};
use crate::content_type::ContentType;
use crate::dispatcher::concat;
use crate::error::{MessageError, Status, good_status, is_good_status};
use crate::frame::{MetaWithExtra, connection_id_text, connection_meta, text_member};
use crate::json::{JsonMap, JsonValue};
use crate::message::{AuthData, is_valid_request_id};
use crate::processor::{Action, ConnectionMessage};

verus! {

/// Why the head of a backend response is refused.
#[derive(Debug, Clone, Copy, PartialEq, Eq, Structural)]
pub enum HeadError {
    /// A successful response without a `Content-Type`.
    AbsentContentType,
    /// A successful response whose `Content-Type` is not JSON.
    InvalidContentType,
}

/// Whether the body of a response with content type `ct` is read as JSON,
/// for a successful (`200`) response or another, where a missing or wrong
/// content type is tolerated (`weak`) or not.
pub open spec fn content_decision(ct: ContentType, ok: bool, weak: bool) -> Result<bool, HeadError> {
    match ct {
        ContentType::Valid => Ok(true),
        ContentType::Absent => if weak {
            Ok(true)
        } else if ok {
            Err(HeadError::AbsentContentType)
        } else {
            Ok(false)
        },
        ContentType::Invalid => if weak {
            Ok(true)
        } else if ok {
            Err(HeadError::InvalidContentType)
        } else {
            Ok(false)
        },
    }
}

/// Decides how the body of a response is read from its content type.
pub fn response_content(ct: ContentType, ok: bool, weak: bool) -> (r: Result<bool, HeadError>)
    ensures
        r == content_decision(ct, ok, weak),
{
    match ct {
        ContentType::Absent if weak => Ok(true),
        ContentType::Invalid if weak => Ok(true),
        ContentType::Absent if ok => Err(HeadError::AbsentContentType),
        ContentType::Absent => Ok(false),
        ContentType::Valid => Ok(true),
        ContentType::Invalid if ok => Err(HeadError::InvalidContentType),
        ContentType::Invalid => Ok(false),
    }
}

/// The status of a response head: the one given, or `500`.
pub open spec fn head_status(status: Option<Status>) -> Status {
    match status {
        Some(s) => s,
        None => Status { code: 500 },
    }
}

/// Where an authorization request stands.
pub enum AuthState {
    /// Not written yet: the path to call and what the handshake told.
    Init(String, AuthData),
    /// Written; waiting for the head of the response.
    Wait,
    /// The head came with this status.
    Headers(Status),
    /// Done.
    Void,
}

/// The authorization request of a new connection.
pub struct AuthCodec {
    pub state: AuthState,
    pub conn_id: Cid,
    pub server_id: String,
    pub json_content: bool,
    pub weak_content_type: bool,
}

/// The text of `a` followed by `b`.
pub open spec fn join(a: Seq<char>, b: Seq<char>) -> Seq<char> {
    a + b
}

/// The request id header value of the authorization of connection `cid`
/// on server `server`.
pub open spec fn auth_request_id(server: Seq<char>, cid: u64) -> Seq<char> {
    server + "-"@ + decimal_text(cid as nat) + "-auth"@
}

/// What an authorization response tells the connection: a welcome with its
/// session and user info, with the association of the connection to the
/// session; or the error that closes it.
pub struct AuthReply<P> {
    pub message: ConnectionMessage<P>,
    pub associate: Option<Action<P>>,
}

impl AuthCodec {
    /// A request to `path` for connection `cid` with the handshake data
    /// `req`.
    pub fn new(path: String, cid: Cid, req: AuthData, server_id: String, weak_content_type: bool) -> (r: AuthCodec)
        ensures
            r.state matches AuthState::Init(p, d) && p@ == path@ && d == req,
            r.conn_id == cid,
            r.server_id@ == server_id@,
            !r.json_content,
            r.weak_content_type == weak_content_type,
    {
        AuthCodec {
            state: AuthState::Init(path, req),
            conn_id: cid,
            server_id,
            json_content: false,
            weak_content_type,
        }
    }

    /// The request id header value of the request.
    pub fn add_request_id(&self) -> (r: String)
        ensures
            r@ == auth_request_id(self.server_id@, self.conn_id.0),
    {
        let a = concat(self.server_id.as_str(), "-");
        let num = u64_to_text(self.conn_id.0);
        let b = concat(a.as_str(), num.as_str());
        let r = concat(b.as_str(), "-auth");
        proof {
            assert(r@ =~= auth_request_id(self.server_id@, self.conn_id.0));
        }
        r
    }

    /// The metadata object of the request body: the connection id alone.
    pub fn request_meta(&self) -> (r: JsonMap)
        ensures
            r.entries@.len() == 1,
            text_member(
                r.entries@[0],
                "connection_id"@,
                connection_id_text(self.server_id@, self.conn_id.0),
            ),
    {
        connection_meta(&self.server_id, self.conn_id)
    }

    /// Starts writing the request: gives back the path to call and what to
    /// send.
    pub fn start_write(&mut self) -> (r: (String, AuthData))
        requires
            old(self).state is Init,
        ensures
            final(self).state is Wait,
            old(self).state matches AuthState::Init(p, d) && r.0@ == p@ && r.1 == d,
            final(self).conn_id == old(self).conn_id,
            final(self).server_id == old(self).server_id,
            final(self).json_content == old(self).json_content,
            final(self).weak_content_type == old(self).weak_content_type,
    {
        let mut state = AuthState::Wait;
        std::mem::swap(&mut state, &mut self.state);
        match state {
            AuthState::Init(p, d) => (p, d),
            _ => (String::new(), AuthData { http_cookie: None, http_authorization: None, url_querystring: String::new() }),
        }
    }

    /// Takes the head of the response: its status (if it has one) and what
    /// its content type says.
    pub fn headers_received(&mut self, status: Option<Status>, ct: ContentType) -> (r: Result<(), HeadError>)
        requires
            old(self).state is Wait,
        ensures
            final(self).state == AuthState::Headers(head_status(status)),
            final(self).conn_id == old(self).conn_id,
            final(self).server_id == old(self).server_id,
            final(self).weak_content_type == old(self).weak_content_type,
            match content_decision(ct, status == Some(Status { code: 200 }), old(self).weak_content_type) {
                Ok(json) => r is Ok && final(self).json_content == (old(self).json_content || json),
                Err(e) => r == Err::<(), HeadError>(e) && final(self).json_content == old(self).json_content,
            },
    {
        self.state = AuthState::Headers(
            match status {
                Some(s) => s,
                None => Status { code: 500 },
            },
        );
        let ok = match status {
            Some(s) => s.code == 200,
            None => false,
        };
        match response_content(ct, ok, self.weak_content_type) {
            Ok(json) => {
                if json {
                    self.json_content = true;
                }
                Ok(())
            },
            Err(e) => Err(e),
        }
    }

    /// Takes the whole body of the response, given as the user info it
    /// parses to (by its JSON value and as the payload), where it is JSON.
    /// A successful response welcomes the connection to the session its
    /// user info names; any other ends the connection with the backend's
    /// status (or `500` for an unexpected one or unusable user info).
    pub fn data_received<P>(&mut self, body: Option<(&JsonValue, Arc<P>)>, end: bool) -> (r: AuthReply<P>)
        requires
            end,
            old(self).state is Headers,
        ensures
            final(self).state is Void,
            match old(self).state {
                AuthState::Headers(status) => if status.code == 200 {
                    match body {
                        Some((info, payload)) => match userinfo_id(*info) {
                            Some(sid) => {
                                &&& r.message matches ConnectionMessage::Hello(s, u) && s@ == sid && *u == *payload
                                &&& r.associate matches Some(Action::Associate { conn_id, session_id, metadata })
                                    && conn_id == old(self).conn_id && session_id@ == sid && *metadata == *payload
                            },
                            None => r.message matches ConnectionMessage::FatalError(MessageError::HttpError(st, None))
                                && st.code == 500 && r.associate is None,
                        },
                        None => r.message matches ConnectionMessage::FatalError(MessageError::HttpError(st, None))
                            && st.code == 500 && r.associate is None,
                    }
                } else if is_good_status(status.code) {
                    &&& r.associate is None
                    &&& r.message matches ConnectionMessage::FatalError(MessageError::HttpError(st, b))
                    &&& st == status
                    &&& match (body, b) {
                        (Some((_, payload)), Some(x)) => old(self).json_content && *x == *payload,
                        (_, None) => !old(self).json_content || body is None,
                        _ => false,
                    }
                } else {
                    r.message matches ConnectionMessage::FatalError(MessageError::HttpError(st, None))
                        && st.code == 500 && r.associate is None
                },
                _ => false,
            },
    {
        let mut state = AuthState::Void;
        std::mem::swap(&mut state, &mut self.state);
        let status = match state {
            AuthState::Headers(s) => s,
            _ => Status { code: 500 },
        };
        if status.code == 200 {
            match body {
                Some((info, payload)) => match parse_userinfo::<P>(info) {
                    Ok(sid) => {
                        let message = ConnectionMessage::Hello(sid.clone(), crate::arc::share(&payload));
                        let associate = Action::Associate {
                            conn_id: self.conn_id,
                            session_id: sid,
                            metadata: payload,
                        };
                        AuthReply { message, associate: Some(associate) }
                    },
                    Err(_) => AuthReply {
                        message: ConnectionMessage::FatalError(
                            MessageError::HttpError(Status { code: 500 }, None),
                        ),
                        associate: None,
                    },
                },
                None => AuthReply {
                    message: ConnectionMessage::FatalError(
                        MessageError::HttpError(Status { code: 500 }, None),
                    ),
                    associate: None,
                },
            }
        } else if good_status(status) {
            let b = if self.json_content {
                match body {
                    Some((_, payload)) => Some(payload),
                    None => None,
                }
            } else {
                None
            };
            AuthReply {
                message: ConnectionMessage::FatalError(MessageError::HttpError(status, b)),
                associate: None,
            }
        } else {
            AuthReply {
                message: ConnectionMessage::FatalError(
                    MessageError::HttpError(Status { code: 500 }, None),
                ),
                associate: None,
            }
        }
    }

    /// What the connection is told when the request is dropped before its
    /// response came: an internal error, unless it is done.
    pub fn drop_message<P>(&self) -> (r: Option<ConnectionMessage<P>>)
        ensures
            self.state is Void ==> r is None,
            !(self.state is Void) ==> (r matches Some(ConnectionMessage::FatalError(MessageError::HttpError(st, None)))
                && st.code == 500),
    {
        match self.state {
            AuthState::Void => None,
            _ => Some(ConnectionMessage::FatalError(MessageError::HttpError(Status { code: 500 }, None))),
        }
    }
}

/// Where a method call stands.
pub enum CallState<P> {
    /// Not written yet: the authorization to send, the path to call, the
    /// arguments.
    Init { auth: Arc<String>, path: String, args: Vec<P>, kw: Arc<P> },
    /// Written; waiting for the head of the response.
    Wait,
    /// The head came with this status.
    Headers(Status),
    /// Done.
    Void,
}

/// A method call of a websocket connection.
pub struct CallCodec<P> {
    pub state: CallState<P>,
    pub meta: Arc<JsonMap>,
    pub conn_id: Cid,
    pub server_id: String,
    pub json_content: bool,
    pub weak_content_type: bool,
}

/// The request id header value of call `rid` of connection `cid` on server
/// `server`.
pub open spec fn call_request_id(server: Seq<char>, cid: u64, rid: Seq<char>) -> Seq<char> {
    server + "-"@ + decimal_text(cid as nat) + "-"@ + rid
}

/// The request id of a call, as text: a string as it is, a number in
/// decimal.
pub open spec fn request_id_text(meta: JsonMap) -> Seq<char> {
    match meta.lookup("request_id"@) {
        Some(JsonValue::Str(s)) => s@,
        Some(JsonValue::PosInt(n)) => decimal_text(n as nat),
        _ => Seq::empty(),
    }
}

/// Law: the request id header of a call names the server, the connection
/// and the client's own request id, in that order and split by `-`: a
/// string request id as it is, a numeric one in decimal.
pub proof fn law_call_request_id(server: Seq<char>, cid: u64, meta: JsonMap)
    ensures
        meta.lookup("request_id"@) matches Some(JsonValue::Str(s)) ==> call_request_id(
            server,
            cid,
            request_id_text(meta),
        ) == server + "-"@ + decimal_text(cid as nat) + "-"@ + s@,
        meta.lookup("request_id"@) matches Some(JsonValue::PosInt(n)) ==> call_request_id(
            server,
            cid,
            request_id_text(meta),
        ) == server + "-"@ + decimal_text(cid as nat) + "-"@ + decimal_text(n as nat),
{
}

impl<P> CallCodec<P> {
    /// A call to `path` with the arguments, for connection `cid`.
    pub fn new(
        auth: Arc<String>,
        path: String,
        cid: Cid,
        meta: &Arc<JsonMap>,
        args: Vec<P>,
        kw: Arc<P>,
        server_id: String,
        weak_content_type: bool,
    ) -> (r: CallCodec<P>)
        ensures
            r.state == (CallState::Init { auth: auth, path: path, args: args, kw: kw }),
            r.meta == *meta,
            r.conn_id == cid,
            r.server_id@ == server_id@,
            !r.json_content,
            r.weak_content_type == weak_content_type,
    {
        CallCodec {
            state: CallState::Init { auth, path, args, kw },
            meta: crate::arc::share(meta),
            conn_id: cid,
            server_id,
            json_content: false,
            weak_content_type,
        }
    }

    /// The request id header value of the call.
    pub fn add_request_id(&self) -> (r: String)
        requires
            is_valid_request_id(*self.meta),
        ensures
            r@ == call_request_id(self.server_id@, self.conn_id.0, request_id_text(*self.meta)),
            self.meta.lookup("request_id"@) matches Some(JsonValue::Str(s)) ==> r@ == self.server_id@
                + "-"@ + decimal_text(self.conn_id.0 as nat) + "-"@ + s@,
            self.meta.lookup("request_id"@) matches Some(JsonValue::PosInt(n)) ==> r@
                == self.server_id@ + "-"@ + decimal_text(self.conn_id.0 as nat) + "-"@
                + decimal_text(n as nat),
    {
        let rid = match self.meta.get("request_id") {
            Some(JsonValue::Str(s)) => s.clone(),
            Some(JsonValue::PosInt(n)) => u64_to_text(*n),
            _ => String::new(),
        };
        let a = concat(self.server_id.as_str(), "-");
        let num = u64_to_text(self.conn_id.0);
        let b = concat(a.as_str(), num.as_str());
        let c = concat(b.as_str(), "-");
        let r = concat(c.as_str(), rid.as_str());
        proof {
            assert(r@ =~= call_request_id(self.server_id@, self.conn_id.0, request_id_text(*self.meta)));
        }
        r
    }

    /// The metadata object of the request body: the call's own, with the
    /// connection id in front.
    pub fn request_meta(&self) -> (r: MetaWithExtra<'_>)
        ensures
            r.meta == Some(&*self.meta),
            r.extra.entries@.len() == 1,
            text_member(
                r.extra.entries@[0],
                "connection_id"@,
                connection_id_text(self.server_id@, self.conn_id.0),
            ),
    {
        MetaWithExtra { meta: Some(&*self.meta), extra: connection_meta(&self.server_id, self.conn_id) }
    }

    /// Starts writing the call: gives back what to send.
    pub fn start_write(&mut self) -> (r: Option<(Arc<String>, String, Vec<P>, Arc<P>)>)
        requires
            old(self).state is Init,
        ensures
            final(self).state is Wait,
            old(self).state matches CallState::Init { auth, path, args, kw } && r == Some(
                (auth, path, args, kw),
            ),
            final(self).meta == old(self).meta,
            final(self).conn_id == old(self).conn_id,
            final(self).server_id == old(self).server_id,
            final(self).json_content == old(self).json_content,
            final(self).weak_content_type == old(self).weak_content_type,
    {
        let mut state = CallState::Wait;
        std::mem::swap(&mut state, &mut self.state);
        match state {
            CallState::Init { auth, path, args, kw } => Some((auth, path, args, kw)),
            _ => None,
        }
    }

    /// Takes the head of the response: its status (if it has one) and what
    /// its content type says.
    pub fn headers_received(&mut self, status: Option<Status>, ct: ContentType) -> (r: Result<(), HeadError>)
        requires
            old(self).state is Wait,
        ensures
            final(self).state matches CallState::Headers(s) && s == head_status(status),
            final(self).meta == old(self).meta,
            final(self).conn_id == old(self).conn_id,
            final(self).server_id == old(self).server_id,
            final(self).weak_content_type == old(self).weak_content_type,
            match content_decision(ct, status == Some(Status { code: 200 }), old(self).weak_content_type) {
                Ok(json) => r is Ok && final(self).json_content == (old(self).json_content || json),
                Err(e) => r == Err::<(), HeadError>(e) && final(self).json_content == old(self).json_content,
            },
    {
        self.state = CallState::Headers(
            match status {
                Some(s) => s,
                None => Status { code: 500 },
            },
        );
        let ok = match status {
            Some(s) => s.code == 200,
            None => false,
        };
        match response_content(ct, ok, self.weak_content_type) {
            Ok(json) => {
                if json {
                    self.json_content = true;
                }
                Ok(())
            },
            Err(e) => Err(e),
        }
    }

    /// Takes the whole body of the response, given as its JSON value or the
    /// description of why it is not JSON: a successful response is the
    /// call's result; any other is an error with the backend's status (and
    /// its body where it is JSON content).
    pub fn data_received(&mut self, body: Result<P, String>, end: bool) -> (r: ConnectionMessage<P>)
        requires
            end,
            old(self).state is Headers,
        ensures
            final(self).state is Void,
            match old(self).state {
                CallState::Headers(status) => if status.code == 200 {
                    match body {
                        Ok(v) => r matches ConnectionMessage::Result(m, x) && m == old(self).meta && x == v,
                        Err(e) => r matches ConnectionMessage::Error(m, MessageError::JsonError(t)) && m
                            == old(self).meta && t@ == e@,
                    }
                } else {
                    &&& r matches ConnectionMessage::Error(m, MessageError::HttpError(st, b))
                    &&& m == old(self).meta
                    &&& st == status
                    &&& match (body, b) {
                        (Ok(v), Some(x)) => old(self).json_content && *x == v,
                        (_, None) => !old(self).json_content || body is Err,
                        _ => false,
                    }
                },
                _ => false,
            },
    {
        let mut state = CallState::Void;
        std::mem::swap(&mut state, &mut self.state);
        let status = match state {
            CallState::Headers(s) => s,
            _ => Status { code: 500 },
        };
        let meta = crate::arc::share(&self.meta);
        if status.code == 200 {
            match body {
                Ok(v) => ConnectionMessage::Result(meta, v),
                Err(e) => ConnectionMessage::Error(meta, MessageError::JsonError(e)),
            }
        } else {
            let b = if self.json_content {
                match body {
                    Ok(v) => Some(Arc::new(v)),
                    Err(_) => None,
                }
            } else {
                None
            };
            ConnectionMessage::Error(meta, MessageError::HttpError(status, b))
        }
    }

    /// What the connection is told when the call is dropped before its
    /// response came: an internal error for the call, unless it is done.
    pub fn drop_message(&self) -> (r: Option<ConnectionMessage<P>>)
        ensures
            self.state is Void ==> r is None,
            !(self.state is Void) ==> (r matches Some(ConnectionMessage::Error(m, MessageError::HttpError(st, None))) && m
                == self.meta && st.code == 500),
    {
        match self.state {
            CallState::Void => None,
            _ => Some(
                ConnectionMessage::Error(
                    crate::arc::share(&self.meta),
                    MessageError::HttpError(Status { code: 500 }, None),
                ),
            ),
        }
    }
}

} // verus!
