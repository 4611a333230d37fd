//! Messages between the chat processor and the rest of the server.
use vstd::prelude::*;
use std::sync::Arc;
use crate::cid::{Cid, cid_debug};
use crate::dispatcher::concat;
use crate::error::{debug_quote, debug_quoted};
use crate::error::{CloseReason, MessageError};
use crate::json::JsonMap;
use crate::lattice::{Delta, Values, ValuesView};
use crate::map::{KeyMap, MapKey, StrMap, Valid};
use crate::pool::{
    Pool, PoolView, activity_updated, added, associated, attached_to_lattice, can_join,
    cleaned_up, detached_from_lattice, disconnected, empty_pool, lattice_updated_by, published,
    stopped, subscribed, unattached, unsubscribed,
};

verus! {

/// A message to one websocket connection; `P` is the type of JSON data.
#[derive(Debug)]
pub enum ConnectionMessage<P> {
    /// Topic publish message:
    /// `["message", {"topic": topic}, data]`
    Publish(String, Arc<P>),
    /// Auth response message:
    /// `["hello", {}, json_data]`
    ///
    /// Note: the session id here is not serialized, and goes only to dispatcher
    Hello(String, Arc<P>),
    /// Websocket call result;
    Result(Arc<JsonMap>, P),
    /// Lattice update message
    Lattice(String, Arc<StrMap<Values>>),
    /// Error response to websocket call
    Error(Arc<JsonMap>, MessageError<P>),
    /// Force websocket stop by backend
    FatalError(MessageError<P>),
    /// Just stop the socket probably by to close message
    StopSocket(CloseReason),
}

/// A message from a session pool to the server.
#[derive(Debug)]
pub enum PoolMessage<P> {
    InactiveSession {
        session_id: String,
        // This is mostly for debugging for now
        connections_active: usize,
        /// The session's metadata; `None` where the session got none yet
        /// (an empty JSON object).
        metadata: Option<Arc<P>>,
    },
}

/// Something that the processor asks the server to send.
#[derive(Debug)]
pub enum Outgoing<P> {
    /// A message to a websocket connection.
    ToConnection(Cid, ConnectionMessage<P>),
    /// A message to the session pool's owner.
    ToPool(PoolMessage<P>),
}

/// What an outgoing message says, by its parts.
pub enum Note<P> {
    /// A topic message to a connection.
    Publish(u64, Seq<char>, P),
    /// A lattice update to a connection.
    Lattice(u64, Seq<char>, Map<Seq<char>, ValuesView>),
    /// A request to close a connection.
    Stop(u64, CloseReason),
    /// Another message to a connection.
    Other(u64),
    /// A session went inactive: its id, its number of connections and its
    /// metadata.
    Inactive(Seq<char>, nat, Option<P>),
}

/// The value behind an optional shared pointer.
pub open spec fn opt_deref<P>(o: Option<Arc<P>>) -> Option<P> {
    match o {
        Some(a) => Some(*a),
        None => None,
    }
}

impl<P> View for Outgoing<P> {
    type V = Note<P>;

    open spec fn view(&self) -> Note<P> {
        match self {
            Outgoing::ToConnection(c, ConnectionMessage::Publish(t, d)) => Note::Publish(c.0, t@, **d),
            Outgoing::ToConnection(c, ConnectionMessage::Lattice(ns, m)) => Note::Lattice(
                c.0,
                ns@,
                (**m)@,
            ),
            Outgoing::ToConnection(c, ConnectionMessage::StopSocket(r)) => Note::Stop(c.0, *r),
            Outgoing::ToConnection(c, _) => Note::Other(c.0),
            Outgoing::ToPool(
                PoolMessage::InactiveSession { session_id, connections_active, metadata },
            ) => Note::Inactive(session_id@, *connections_active as nat, opt_deref(*metadata)),
        }
    }
}

/// The notes of a list of outgoing messages.
pub open spec fn notes<P>(v: Seq<Outgoing<P>>) -> Seq<Note<P>> {
    v.map_values(|o: Outgoing<P>| o@)
}

/// Something to do in a session pool.
pub enum Action<P> {
    // ------ Session pool management ------
    //   For all actions session pool name is passed in event structure
    NewSessionPool { new_connection_timeout: u64 },
    StopSessionPool,
    // ------ Connection management ------
    NewConnection { conn_id: Cid },
    Associate { conn_id: Cid, session_id: String, metadata: Arc<P> },
    UpdateActivity {
        session_id: String,
        // We receive duration from client, but we expect request handling
        // code to validate and normalize it for us
        timestamp: u64,
    },
    Disconnect { conn_id: Cid },
    // ------ Subscriptions ------
    Subscribe { conn_id: Cid, topic: String },
    Unsubscribe { conn_id: Cid, topic: String },
    Publish { topic: String, data: Arc<P> },
    // ------ Lattices ------
    /// Attaches (subscribes to) lattice for this user
    ///
    /// Sends current lattice data to this connection immediately
    ///
    /// Note: data must *already* be in there
    Attach { namespace: String, conn_id: Cid },
    /// Updates data in lattice
    ///
    /// This works both for initial attach (subscription) of lattice and
    /// for subsequent updates
    ///
    /// Note: this message must be sent *before* Attach when connection
    /// initially attaches to the lattice
    Lattice { namespace: String, delta: Delta },
    Detach { namespace: String, conn_id: Cid },
}

/// `<name>(<inner>)`.
pub open spec fn call_form(name: Seq<char>, inner: Seq<char>) -> Seq<char> {
    name + "("@ + inner + ")"@
}

/// A connection and a name, as the debug forms of the two.
pub open spec fn cid_and_name(c: Cid, name: Seq<char>) -> Seq<char> {
    cid_debug(c.0, false) + ", "@ + debug_quoted(name)
}

/// The text that names an action in logs: the variant, with the
/// connection and the names it concerns in their debug forms (data,
/// deltas and metadata are left out).
pub open spec fn action_text<P>(a: Action<P>) -> Seq<char> {
    match a {
        Action::NewSessionPool { .. } => "Action::NewSessionPool"@,
        Action::StopSessionPool => "Action::StopSessionPool"@,
        Action::NewConnection { conn_id } => call_form("Action::NewConnection"@, cid_debug(conn_id.0, false)),
        Action::Associate { conn_id, session_id, .. } => call_form(
            "Action::Associate"@,
            cid_and_name(conn_id, session_id@),
        ),
        Action::UpdateActivity { session_id, .. } => call_form(
            "Action::UpdateActivity"@,
            debug_quoted(session_id@),
        ),
        Action::Disconnect { conn_id } => call_form("Action::Disconnect"@, cid_debug(conn_id.0, false)),
        Action::Subscribe { conn_id, topic } => call_form("Action::Subscribe"@, cid_and_name(conn_id, topic@)),
        Action::Unsubscribe { conn_id, topic } => call_form(
            "Action::Unsubscribe"@,
            cid_and_name(conn_id, topic@),
        ),
        Action::Publish { topic, .. } => call_form("Action::Publish"@, debug_quoted(topic@)),
        Action::Attach { namespace, conn_id } => call_form("Action::Attach"@, cid_and_name(conn_id, namespace@)),
        Action::Lattice { namespace, .. } => call_form("Action::Lattice"@, debug_quoted(namespace@)),
        Action::Detach { namespace, conn_id } => call_form("Action::Detach"@, cid_and_name(conn_id, namespace@)),
    }
}

fn call_form_text(name: &str, inner: &str) -> (r: String)
    ensures
        r@ == call_form(name@, inner@),
{
    let a = concat(name, "(");
    let b = concat(a.as_str(), inner);
    concat(b.as_str(), ")")
}

fn cid_and_name_text(c: Cid, name: &String) -> (r: String)
    ensures
        r@ == cid_and_name(c, name@),
{
    let a = concat(c.debug_text(false).as_str(), ", ");
    concat(a.as_str(), debug_quote(name.as_str()).as_str())
}

impl<P> Action<P> {
    /// The text that names the action in logs (see `action_text`).
    pub fn describe(&self) -> (r: String)
        ensures
            r@ == action_text(*self),
    {
        match self {
            Action::NewSessionPool { .. } => "Action::NewSessionPool".to_string(),
            Action::StopSessionPool => "Action::StopSessionPool".to_string(),
            Action::NewConnection { conn_id } => call_form_text(
                "Action::NewConnection",
                conn_id.debug_text(false).as_str(),
            ),
            Action::Associate { conn_id, session_id, .. } => call_form_text(
                "Action::Associate",
                cid_and_name_text(*conn_id, session_id).as_str(),
            ),
            Action::UpdateActivity { session_id, .. } => call_form_text(
                "Action::UpdateActivity",
                debug_quote(session_id.as_str()).as_str(),
            ),
            Action::Disconnect { conn_id } => call_form_text(
                "Action::Disconnect",
                conn_id.debug_text(false).as_str(),
            ),
            Action::Subscribe { conn_id, topic } => call_form_text(
                "Action::Subscribe",
                cid_and_name_text(*conn_id, topic).as_str(),
            ),
            Action::Unsubscribe { conn_id, topic } => call_form_text(
                "Action::Unsubscribe",
                cid_and_name_text(*conn_id, topic).as_str(),
            ),
            Action::Publish { topic, .. } => call_form_text(
                "Action::Publish",
                debug_quote(topic.as_str()).as_str(),
            ),
            Action::Attach { namespace, conn_id } => call_form_text(
                "Action::Attach",
                cid_and_name_text(*conn_id, namespace).as_str(),
            ),
            Action::Lattice { namespace, .. } => call_form_text(
                "Action::Lattice",
                debug_quote(namespace.as_str()).as_str(),
            ),
            Action::Detach { namespace, conn_id } => call_form_text(
                "Action::Detach",
                cid_and_name_text(*conn_id, namespace).as_str(),
            ),
        }
    }
}

/// An action for a named session pool, at a time in milliseconds.
pub struct Event<P> {
    pub pool: String,
    pub timestamp: u64,
    pub action: Action<P>,
}

/// The pool can take action `a` at time `ts`: a new connection's id is
/// fresh, a connection that goes is known, a delta is well formed, and a
/// session's deadline fits in 64 bits.
pub open spec fn step_allowed<P>(pre: PoolView<P>, ts: u64, a: Action<P>) -> bool {
    match a {
        Action::NewConnection { conn_id } => !pre.pending.contains_key(conn_id@)
            && !pre.conns.contains_key(conn_id@) && unattached(pre.sessions, conn_id@),
        Action::Associate { conn_id, .. } => can_join(pre, conn_id@) ==> ts + pre.timeout
            <= u64::MAX,
        Action::Disconnect { conn_id } => pre.pending.contains_key(conn_id@)
            || pre.conns.contains_key(conn_id@),
        Action::Lattice { delta, .. } => delta.valid(),
        _ => true,
    }
}

/// The pool `post` and the messages `n` are what action `a` at time `ts`
/// makes of pool `pre`.
pub open spec fn pool_stepped<P>(
    pre: PoolView<P>,
    post: PoolView<P>,
    ts: u64,
    a: Action<P>,
    n: Seq<Note<P>>,
) -> bool {
    match a {
        Action::NewSessionPool { .. } => false,
        Action::StopSessionPool => false,
        Action::NewConnection { conn_id } => added(pre, post, conn_id) && n.len() == 0,
        Action::Associate { conn_id, session_id, metadata } => associated(
            pre,
            post,
            conn_id,
            session_id,
            ts,
            metadata,
            n,
        ),
        Action::UpdateActivity { session_id, timestamp } => activity_updated(
            pre,
            post,
            session_id,
            timestamp,
        ) && n.len() == 0,
        Action::Disconnect { conn_id } => disconnected(pre, post, conn_id) && n.len() == 0,
        Action::Subscribe { conn_id, topic } => subscribed(pre, post, conn_id, topic) && n.len()
            == 0,
        Action::Unsubscribe { conn_id, topic } => unsubscribed(pre, post, conn_id, topic)
            && n.len() == 0,
        Action::Publish { topic, data } => published(pre, post, topic, data, n),
        Action::Attach { namespace, conn_id } => attached_to_lattice(
            pre,
            post,
            conn_id,
            namespace,
            n,
        ),
        Action::Lattice { namespace, delta } => lattice_updated_by(pre, post, namespace, delta, n),
        Action::Detach { namespace, conn_id } => detached_from_lattice(
            pre,
            post,
            conn_id,
            namespace,
        ) && n.len() == 0,
    }
}

/// Takes action `action` at time `ts` in `pool`.
fn pool_action<P>(pool: &mut Pool<P>, ts: u64, action: Action<P>) -> (out: Vec<Outgoing<P>>)
    requires
        old(pool).wf(),
        step_allowed(old(pool)@, ts, action),
        !(action is NewSessionPool),
        !(action is StopSessionPool),
    ensures
        final(pool).wf(),
        pool_stepped(old(pool)@, final(pool)@, ts, action, notes(out@)),
{
    match action {
        Action::NewSessionPool { .. } => Vec::new(),
        Action::StopSessionPool => Vec::new(),
        // Connection management
        Action::NewConnection { conn_id } => {
            pool.add_connection(conn_id);
            Vec::new()
        },
        Action::Associate { session_id, conn_id, metadata } => {
            pool.associate(conn_id, session_id, ts, metadata)
        },
        Action::UpdateActivity { session_id, timestamp } => {
            pool.update_activity(session_id, timestamp);
            Vec::new()
        },
        Action::Disconnect { conn_id } => {
            pool.del_connection(conn_id);
            Vec::new()
        },
        // Subscriptions
        Action::Subscribe { conn_id, topic } => {
            pool.subscribe(conn_id, topic);
            Vec::new()
        },
        Action::Unsubscribe { conn_id, topic } => {
            pool.unsubscribe(conn_id, topic);
            Vec::new()
        },
        Action::Publish { topic, data } => pool.publish(topic, data),
        // Lattices
        Action::Attach { conn_id, namespace } => pool.lattice_attach(conn_id, namespace),
        Action::Lattice { namespace, delta } => pool.lattice_update(namespace, delta),
        Action::Detach { conn_id, namespace } => {
            pool.lattice_detach(conn_id, namespace);
            Vec::new()
        },
    }
}

/// The earlier of two optional times.
pub open spec fn earlier(a: Option<u64>, b: Option<u64>) -> Option<u64> {
    match (a, b) {
        (None, x) => x,
        (x, None) => x,
        (Some(p), Some(q)) => Some(if p <= q { p } else { q }),
    }
}

/// The earliest of the times in `s`.
pub open spec fn earliest(s: Seq<Option<u64>>) -> Option<u64>
    decreases s.len(),
{
    if s.len() == 0 {
        None
    } else {
        earlier(earliest(s.drop_last()), s.last())
    }
}

/// Law: the earliest of some optional times is none exactly where all are
/// none, and else one of them that no other comes before.
pub proof fn law_earliest(s: Seq<Option<u64>>)
    ensures
        earliest(s) is None <==> forall|i: int| 0 <= i < s.len() ==> (#[trigger] s[i]) is None,
        earliest(s) matches Some(t) ==> {
            &&& exists|i: int| 0 <= i < s.len() && #[trigger] s[i] == Some(t)
            &&& forall|i: int| 0 <= i < s.len() && (#[trigger] s[i]) is Some ==> t <= s[i]->Some_0
        },
    decreases s.len(),
{
    if s.len() > 0 {
        let p = s.drop_last();
        law_earliest(p);
        assert(s[s.len() - 1] == s.last());
        assert forall|i: int| 0 <= i < p.len() implies #[trigger] p[i] == s[i] by {}
        if forall|i: int| 0 <= i < s.len() ==> (#[trigger] s[i]) is None {
            assert(forall|i: int| 0 <= i < p.len() ==> (#[trigger] p[i]) is None);
        }
        if earliest(s) is None {
            assert forall|i: int| 0 <= i < s.len() implies (#[trigger] s[i]) is None by {
                if i < p.len() {
                    assert(p[i] == s[i]);
                }
            }
        }
        if earliest(s) is Some {
            let t = earliest(s)->Some_0;
            if earliest(p) == Some(t) {
                let i = choose|i: int| 0 <= i < p.len() && #[trigger] p[i] == Some(t);
                assert(s[i] == Some(t));
            } else {
                assert(s[s.len() - 1] == Some(t));
            }
            assert forall|i: int| 0 <= i < s.len() && (#[trigger] s[i]) is Some implies t
                <= s[i]->Some_0 by {
                if i < p.len() {
                    assert(p[i] == s[i]);
                }
            }
        }
    }
}

/// What the cleanup of one pool gave: the pool's name, its next deadline
/// and its messages.
pub type Cleaned<P> = (String, Option<u64>, Vec<Outgoing<P>>);

/// The session pools of the chat processor, by name; it is driven by events
/// alone and keeps no clock.
pub struct Processor<P> {
    pools: KeyMap<String, Pool<P>>,
}

impl<P> Processor<P> {
    /// The pools by name.
    pub closed spec fn pools(&self) -> Map<Seq<char>, PoolView<P>> {
        self.pools@
    }

    /// Every pool is consistent.
    pub closed spec fn wf(&self) -> bool {
        self.pools.wf()
    }

    /// A processor without pools.
    pub fn new() -> (r: Processor<P>)
        ensures
            r.wf(),
            r.pools() == Map::<Seq<char>, PoolView<P>>::empty(),
    {
        Processor { pools: KeyMap::new() }
    }

    /// Creates session pool `name`, replacing one of that name.
    pub fn create_pool(&mut self, name: String, new_connection_timeout: u64)
        requires
            old(self).wf(),
        ensures
            final(self).wf(),
            final(self).pools() == old(self).pools().insert(name@, empty_pool::<P>(new_connection_timeout)),
    {
        let pool = Pool::new(name.clone(), new_connection_timeout);
        self.pools.insert(name, pool);
    }

    /// Stops session pool `name`, if there is one, telling its connections
    /// to close.
    pub fn destroy_pool(&mut self, name: &String) -> (out: Vec<Outgoing<P>>)
        requires
            old(self).wf(),
        ensures
            final(self).wf(),
            final(self).pools() == old(self).pools().remove(name@),
            old(self).pools().contains_key(name@) ==> stopped(old(self).pools()[name@], notes(out@)),
            !old(self).pools().contains_key(name@) ==> out@.len() == 0,
    {
        match self.pools.remove(name) {
            Some(pool) => pool.stop(),
            None => Vec::new(),
        }
    }

    /// Whether action `action` can go to pool `pool` at time `timestamp`
    /// (see `step_allowed`); any action can go where there is no such pool.
    pub fn allows(&self, pool: &String, timestamp: u64, action: &Action<P>) -> (r: bool)
        requires
            self.wf(),
        ensures
            r == (self.pools().contains_key(pool@) ==> step_allowed(
                self.pools()[pool@],
                timestamp,
                *action,
            )),
    {
        match self.pools.get(pool) {
            Some(p) => p.allows(timestamp, action),
            None => true,
        }
    }

    /// Handles action `action` for pool `pool` at time `timestamp`: pools
    /// are created and stopped, other actions go to their pool (and are
    /// dropped where there is no such pool).
    pub fn send(&mut self, pool: &String, timestamp: u64, action: Action<P>) -> (out: Vec<Outgoing<P>>)
        requires
            old(self).wf(),
            old(self).pools().contains_key(pool@) ==> step_allowed(old(self).pools()[pool@], timestamp, action),
        ensures
            final(self).wf(),
            match action {
                Action::NewSessionPool { new_connection_timeout } => {
                    &&& final(self).pools() == old(self).pools().insert(
                        pool@,
                        empty_pool::<P>(new_connection_timeout),
                    )
                    &&& out@.len() == 0
                },
                Action::StopSessionPool => {
                    &&& final(self).pools() == old(self).pools().remove(pool@)
                    &&& old(self).pools().contains_key(pool@) ==> stopped(old(self).pools()[pool@], notes(out@))
                    &&& !old(self).pools().contains_key(pool@) ==> out@.len() == 0
                },
                _ => {
                    &&& final(self).pools().dom() == old(self).pools().dom()
                    &&& forall|k: Seq<char>| #[trigger] old(self).pools().contains_key(k) && k != pool@
                        ==> final(self).pools()[k] == old(self).pools()[k]
                    &&& old(self).pools().contains_key(pool@) ==> pool_stepped(
                        old(self).pools()[pool@],
                        final(self).pools()[pool@],
                        timestamp,
                        action,
                        notes(out@),
                    )
                    &&& !old(self).pools().contains_key(pool@) ==> out@.len() == 0
                },
            },
    {
        match action {
            Action::NewSessionPool { new_connection_timeout } => {
                self.create_pool(pool.clone(), new_connection_timeout);
                Vec::new()
            },
            Action::StopSessionPool => self.destroy_pool(pool),
            _ => {
                match self.pools.remove(pool) {
                    Some(mut p) => {
                        let out = pool_action(&mut p, timestamp, action);
                        self.pools.insert(pool.clone(), p);
                        proof {
                            assert(self.pools().dom() =~= old(self).pools().dom());
                        }
                        out
                    },
                    None => {
                        proof {
                            assert(self.pools() =~= old(self).pools());
                        }
                        Vec::new()
                    },
                }
            },
        }
    }

    /// Makes the sessions of every pool that are active until before `now`
    /// inactive; gives back, for each pool, what its cleanup gave, and the
    /// earliest of their next deadlines.
    pub fn cleanup(&mut self, now: u64) -> (r: (Option<u64>, Vec<Cleaned<P>>))
        requires
            old(self).wf(),
        ensures
            final(self).wf(),
            final(self).pools().dom() == old(self).pools().dom(),
            r.1@.len() == old(self).pools().dom().len(),
            forall|i: int, j: int| 0 <= i < j < r.1@.len() ==> (#[trigger] r.1@[i]).0@ != (#[trigger] r.1@[j]).0@,
            forall|i: int|
                0 <= i < r.1@.len() ==> {
                    let (name, next, out) = #[trigger] r.1@[i];
                    &&& old(self).pools().contains_key(name@)
                    &&& cleaned_up(old(self).pools()[name@], final(self).pools()[name@], now, next, notes(out@))
                },
            r.0 == earliest(r.1@.map_values(|c: Cleaned<P>| c.1)),
    {
        let ghost p0 = self.pools();
        let ghost names = self.pools.keys();
        let mut results: Vec<Cleaned<P>> = Vec::new();
        let mut next: Option<u64> = None;
        let mut done: KeyMap<String, Pool<P>> = KeyMap::new();
        proof {
            self.pools.lemma_wf();
        }
        loop
            invariant
                self.pools.wf(),
                done.wf(),
                p0.dom().finite(),
                self.pools@.dom().subset_of(p0.dom()),
                forall|k: Seq<char>| #[trigger] self.pools@.contains_key(k) ==> self.pools@[k] == p0[k],
                done@.dom() =~= p0.dom().difference(self.pools@.dom()),
                results@.len() == done@.dom().len(),
                forall|i: int, j: int| 0 <= i < j < results@.len() ==> (#[trigger] results@[i]).0@ != (#[trigger] results@[j]).0@,
                forall|i: int|
                    0 <= i < results@.len() ==> {
                        let (name, nx, out) = #[trigger] results@[i];
                        &&& done@.contains_key(name@)
                        &&& cleaned_up(p0[name@], done@[name@], now, nx, notes(out@))
                    },
                next == earliest(results@.map_values(|c: Cleaned<P>| c.1)),
            ensures
                done.wf(),
                done@.dom() =~= p0.dom(),
                results@.len() == p0.dom().len(),
                forall|i: int, j: int| 0 <= i < j < results@.len() ==> (#[trigger] results@[i]).0@ != (#[trigger] results@[j]).0@,
                forall|i: int|
                    0 <= i < results@.len() ==> {
                        let (name, nx, out) = #[trigger] results@[i];
                        &&& done@.contains_key(name@)
                        &&& cleaned_up(p0[name@], done@[name@], now, nx, notes(out@))
                    },
                next == earliest(results@.map_values(|c: Cleaned<P>| c.1)),
            decreases self.pools.keys().len(),
        {
            let ghost before = self.pools@;
            match self.pools.pop() {
                None => {
                    proof {
                        assert(done@.dom() =~= p0.dom());
                    }
                    break;
                },
                Some((name, mut pool)) => {
                    let ghost k = name@;
                    let (nx, out) = pool.cleanup(now);
                    let ghost r0 = results@;
                    proof {
                        assert(!done@.contains_key(k));
                        vstd::set_lib::lemma_len_subset(done@.dom(), p0.dom());
                    }
                    done.insert(name.clone(), pool);
                    results.push((name, nx, out));
                    next = match (next, nx) {
                        (None, x) => x,
                        (x, None) => x,
                        (Some(a), Some(b)) => Some(if a <= b { a } else { b }),
                    };
                    proof {
                        let f = |c: Cleaned<P>| c.1;
                        assert(results@.map_values(f).drop_last() =~= r0.map_values(f));
                        assert(done@.dom() =~= p0.dom().difference(self.pools@.dom()));
                        assert(done@.dom() =~= done@.dom().remove(k).insert(k));
                        assert forall|i: int, j: int| 0 <= i < j < results@.len() implies (#[trigger] results@[i]).0@
                            != (#[trigger] results@[j]).0@ by {
                            if j == results@.len() - 1 {
                                assert(results@[i] == r0[i]);
                                let (nm, _, _) = r0[i];
                                assert(done@.contains_key(nm@) && nm@ != k);
                            } else {
                                assert(results@[i] == r0[i]);
                                assert(results@[j] == r0[j]);
                            }
                        }
                        assert forall|i: int| 0 <= i < results@.len() implies {
                            let (nm, nx2, o2) = #[trigger] results@[i];
                            &&& done@.contains_key(nm@)
                            &&& cleaned_up(p0[nm@], done@[nm@], now, nx2, notes(o2@))
                        } by {
                            if i < r0.len() {
                                assert(results@[i] == r0[i]);
                                let (nm, _, _) = r0[i];
                                assert(nm@ != k);
                            }
                        }
                    }
                },
            }
        }
        self.pools = done;
        (next, results)
    }
}

/// How long to wait for the next event: until the next deadline, if any.
pub fn wait_time(next: Option<u64>, now: u64) -> (r: Option<u64>)
    ensures
        r == match next {
            Some(t) => Some(if t >= now { (t - now) as u64 } else { 0 }),
            None => None,
        },
{
    match next {
        Some(t) => Some(t.saturating_sub(now)),
        None => None,
    }
}

} // verus!
