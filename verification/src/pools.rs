//! Session pools as the configuration names them, their inactivity
//! handlers, and the server's chat metrics.
use vstd::prelude::*;
use crate::dispatcher::{call_path, method_path};
use crate::map::StrSet;

verus! {

/// Tells a session pool's inactivity handler to stop.
pub struct Shutdown;

/// The texts of a list of strings.
pub open spec fn texts(v: Seq<String>) -> Seq<Seq<char>> {
    v.map_values(|s: String| s@)
}

/// What a new configuration of session pools asks of the running ones:
/// pools to stop, pools to give their new addresses, pools to start.
pub struct PoolsPlan {
    pub delete: Vec<String>,
    pub update: Vec<String>,
    pub create: Vec<String>,
}

/// Plans the update of the running pools `current` to the configured pools
/// `config`: those no longer configured stop, those still configured get
/// their new addresses, the new ones start; each list in the order of the
/// set it comes from.
pub fn update_plan(current: &StrSet, config: &StrSet) -> (r: PoolsPlan)
    requires
        current.wf(),
        config.wf(),
    ensures
        texts(r.delete@).no_duplicates(),
        texts(r.update@).no_duplicates(),
        texts(r.create@).no_duplicates(),
        texts(r.delete@).to_set() == current@.difference(config@),
        texts(r.update@).to_set() == config@.intersect(current@),
        texts(r.create@).to_set() == config@.difference(current@),
{
    let ghost ce = current.elems();
    let ghost ke = config.elems();
    proof {
        current.lemma_unique();
        config.lemma_unique();
    }
    let mut delete: Vec<String> = Vec::new();
    let mut i: usize = 0;
    while i < current.len()
        invariant
            current.wf(),
            config.wf(),
            ce == current.elems(),
            ce.no_duplicates(),
            i <= ce.len(),
            texts(delete@).no_duplicates(),
            forall|x: Seq<char>| #[trigger] texts(delete@).contains(x) <==> (ce.take(i as int).contains(x) && !config@.contains(x)),
        decreases ce.len() - i,
    {
        let name = current.item_at(i);
        proof {
            crate::pool::lemma_take_next(ce, i as int);
            assert(!ce.take(i as int).contains(name@)) by {
                if ce.take(i as int).contains(name@) {
                    let j = ce.take(i as int).index_of(name@);
                    assert(ce[j] == ce[i as int]);
                }
            }
        }
        let ghost d0 = texts(delete@);
        if !config.contains(name) {
            delete.push(name.clone());
            proof {
                assert(!d0.contains(name@));
                crate::pool::lemma_push_contains(d0, name@);
                assert(texts(delete@) =~= d0.push(name@));
                assert forall|a: int, b: int| 0 <= a < b < texts(delete@).len() implies texts(delete@)[a] != texts(delete@)[b] by {
                    if b == d0.len() {
                        assert(d0.contains(d0[a]));
                    }
                }
            }
        }
        i = i + 1;
    }
    let mut update: Vec<String> = Vec::new();
    let mut create: Vec<String> = Vec::new();
    let mut j: usize = 0;
    while j < config.len()
        invariant
            current.wf(),
            config.wf(),
            ke == config.elems(),
            ke.no_duplicates(),
            j <= ke.len(),
            texts(update@).no_duplicates(),
            texts(create@).no_duplicates(),
            forall|x: Seq<char>| #[trigger] texts(update@).contains(x) <==> (ke.take(j as int).contains(x) && current@.contains(x)),
            forall|x: Seq<char>| #[trigger] texts(create@).contains(x) <==> (ke.take(j as int).contains(x) && !current@.contains(x)),
        decreases ke.len() - j,
    {
        let name = config.item_at(j);
        proof {
            crate::pool::lemma_take_next(ke, j as int);
            assert(!ke.take(j as int).contains(name@)) by {
                if ke.take(j as int).contains(name@) {
                    let m = ke.take(j as int).index_of(name@);
                    assert(ke[m] == ke[j as int]);
                }
            }
        }
        let ghost u0 = texts(update@);
        let ghost c0 = texts(create@);
        if current.contains(name) {
            update.push(name.clone());
            proof {
                assert(!u0.contains(name@));
                crate::pool::lemma_push_contains(u0, name@);
                assert(texts(update@) =~= u0.push(name@));
                assert forall|a: int, b: int| 0 <= a < b < texts(update@).len() implies texts(update@)[a] != texts(update@)[b] by {
                    if b == u0.len() {
                        assert(u0.contains(u0[a]));
                    }
                }
            }
        } else {
            create.push(name.clone());
            proof {
                assert(!c0.contains(name@));
                crate::pool::lemma_push_contains(c0, name@);
                assert(texts(create@) =~= c0.push(name@));
                assert forall|a: int, b: int| 0 <= a < b < texts(create@).len() implies texts(create@)[a] != texts(create@)[b] by {
                    if b == c0.len() {
                        assert(c0.contains(c0[a]));
                    }
                }
            }
        }
        j = j + 1;
    }
    proof {
        assert(ce.take(ce.len() as int) =~= ce);
        assert(ke.take(ke.len() as int) =~= ke);
        assert(texts(delete@).to_set() =~= current@.difference(config@));
        assert(texts(update@).to_set() =~= config@.intersect(current@));
        assert(texts(create@).to_set() =~= config@.difference(current@));
    }
    PoolsPlan { delete, update, create }
}

/// The backend method that is told of inactive sessions.
pub open spec fn inactive_method(tangle: bool) -> Seq<char> {
    if tangle {
        "tangle.session_inactive"@
    } else {
        "swindon.session_inactive"@
    }
}

/// The inactivity handlers of a session pool, from its destinations (each
/// a path and an upstream): the path to call on each, with its upstream.
pub fn inactivity_handlers(dests: &[(String, String)], use_tangle_prefix: bool) -> (r: Vec<(String, String)>)
    ensures
        r@.len() == dests@.len(),
        forall|i: int|
            0 <= i < r@.len() ==> (#[trigger] r@[i]).0@ == call_path(
                inactive_method(use_tangle_prefix),
                dests@[i].0@,
            ) && r@[i].1@ == dests@[i].1@,
{
    let method = if use_tangle_prefix {
        "tangle.session_inactive"
    } else {
        "swindon.session_inactive"
    };
    let mut r: Vec<(String, String)> = Vec::new();
    let mut i: usize = 0;
    while i < dests.len()
        invariant
            i <= dests@.len(),
            method@ == inactive_method(use_tangle_prefix),
            r@.len() == i,
            forall|k: int|
                0 <= k < i ==> (#[trigger] r@[k]).0@ == call_path(
                    inactive_method(use_tangle_prefix),
                    dests@[k].0@,
                ) && r@[k].1@ == dests@[k].1@,
        decreases dests@.len() - i,
    {
        let (path, upstream) = &dests[i];
        let p = method_path(method, path.as_str());
        r.push((p, upstream.clone()));
        i = i + 1;
    }
    r
}

/// The names of the chat metrics, each by its group and name.
pub open spec fn metric_names() -> Seq<(Seq<char>, Seq<char>)> {
    seq![
        ("websockets.swindon_chat"@, "connects"@),
        ("websockets.swindon_chat"@, "connections"@),
        ("websockets.swindon_chat"@, "frames_received"@),
        ("websockets.swindon_chat"@, "frames_sent"@),
        ("websockets.swindon_chat"@, "session_pools"@),
        ("websockets.swindon_chat"@, "active_sessions"@),
        ("websockets.swindon_chat"@, "inactive_sessions"@),
        ("websockets.swindon_chat.pubsub"@, "input_messages"@),
        ("websockets.swindon_chat.pubsub"@, "output_messages"@),
        ("websockets.swindon_chat.pubsub"@, "topics"@),
        ("websockets.swindon_chat.lattice"@, "namespaces"@),
        ("websockets.swindon_chat.lattice.shared"@, "keys"@),
        ("websockets.swindon_chat.lattice.shared"@, "counters"@),
        ("websockets.swindon_chat.lattice.shared"@, "sets"@),
        ("websockets.swindon_chat.lattice.shared"@, "registers"@),
        ("websockets.swindon_chat.lattice.private"@, "keys"@),
        ("websockets.swindon_chat.lattice.private"@, "counters"@),
        ("websockets.swindon_chat.lattice.private"@, "sets"@),
        ("websockets.swindon_chat.lattice.private"@, "registers"@),
        ("websockets.swindon_chat.lattice"@, "set_items"@),
        ("replication"@, "connections"@),
        ("replication"@, "frames_sent"@),
        ("replication"@, "frames_received"@),
    ]
}

/// The chat metrics, each by its group and name, in the order in which
/// they are reported.
pub fn metrics() -> (r: Vec<(&'static str, &'static str)>)
    ensures
        r@.map_values(|m: (&'static str, &'static str)| (m.0@, m.1@)) == metric_names(),
{
    let r = vec![
        ("websockets.swindon_chat", "connects"),
        ("websockets.swindon_chat", "connections"),
        ("websockets.swindon_chat", "frames_received"),
        ("websockets.swindon_chat", "frames_sent"),
        ("websockets.swindon_chat", "session_pools"),
        ("websockets.swindon_chat", "active_sessions"),
        ("websockets.swindon_chat", "inactive_sessions"),
        ("websockets.swindon_chat.pubsub", "input_messages"),
        ("websockets.swindon_chat.pubsub", "output_messages"),
        ("websockets.swindon_chat.pubsub", "topics"),
        ("websockets.swindon_chat.lattice", "namespaces"),
        ("websockets.swindon_chat.lattice.shared", "keys"),
        ("websockets.swindon_chat.lattice.shared", "counters"),
        ("websockets.swindon_chat.lattice.shared", "sets"),
        ("websockets.swindon_chat.lattice.shared", "registers"),
        ("websockets.swindon_chat.lattice.private", "keys"),
        ("websockets.swindon_chat.lattice.private", "counters"),
        ("websockets.swindon_chat.lattice.private", "sets"),
        ("websockets.swindon_chat.lattice.private", "registers"),
        ("websockets.swindon_chat.lattice", "set_items"),
        ("replication", "connections"),
        ("replication", "frames_sent"),
        ("replication", "frames_received"),
    ];
    proof {
        assert(r@.map_values(|m: (&'static str, &'static str)| (m.0@, m.1@)) =~= metric_names());
    }
    r
}

} // verus!
