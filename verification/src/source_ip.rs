//! Which address a request comes from, for the source-ip authorizer: the
//! peer's own, or, where the peer is a trusted proxy, the one that a
//! forwarding header names. `A` is an address as the server parsed it.
use vstd::prelude::*;
use crate::text::{ascii_ci_eq, str_eq_ignore_ascii_case};

verus! {

/// What the forwarding headers of a request say of its source.
#[derive(Debug, Clone, Copy, PartialEq, Eq)]
pub enum SourceChoice<A> {
    /// No header names a source: the peer is the source.
    Peer,
    /// The last forwarding header names this address.
    Forwarded(A),
    /// A forwarding header does not hold an address.
    Invalid,
}

/// What the headers `h` (each name with its value parsed as an address,
/// or `None` where it is not one) say of the source under header `name`
/// (compared without ASCII case): an invalid such header makes the whole
/// invalid; else the last one counts.
pub open spec fn forwarded_choice<A>(h: Seq<(String, Option<A>)>, name: Seq<char>) -> SourceChoice<A>
    decreases h.len(),
{
    if h.len() == 0 {
        SourceChoice::Peer
    } else {
        let rest = forwarded_choice(h.drop_last(), name);
        if rest is Invalid {
            SourceChoice::Invalid
        } else if ascii_ci_eq(h.last().0@, name) {
            match h.last().1 {
                Some(a) => SourceChoice::Forwarded(a),
                None => SourceChoice::Invalid,
            }
        } else {
            rest
        }
    }
}

/// Law: the forwarding headers named `name` decide the source. Where one
/// of them does not hold an address, the request is invalid; where there is
/// none, the peer is the source; else the source is the address of the last
/// of them.
pub proof fn law_forwarded_choice<A>(h: Seq<(String, Option<A>)>, name: Seq<char>)
    ensures
        forwarded_choice(h, name) is Invalid <==> exists|i: int|
            0 <= i < h.len() && ascii_ci_eq((#[trigger] h[i]).0@, name) && h[i].1 is None,
        forwarded_choice(h, name) is Peer <==> forall|i: int|
            0 <= i < h.len() ==> !ascii_ci_eq((#[trigger] h[i]).0@, name),
        forwarded_choice(h, name) matches SourceChoice::Forwarded(a) ==> exists|i: int|
            0 <= i < h.len() && ascii_ci_eq((#[trigger] h[i]).0@, name) && h[i].1 == Some(a)
                && forall|j: int| i < j < h.len() ==> !ascii_ci_eq((#[trigger] h[j]).0@, name),
    decreases h.len(),
{
    if h.len() > 0 {
        let p = h.drop_last();
        let x = h.last();
        law_forwarded_choice(p, name);
        assert(h[h.len() - 1] == x);
        assert forall|i: int| 0 <= i < p.len() implies #[trigger] p[i] == h[i] by {}
        if exists|i: int| 0 <= i < h.len() && ascii_ci_eq((#[trigger] h[i]).0@, name) && h[i].1 is None {
            let i = choose|i: int|
                0 <= i < h.len() && ascii_ci_eq((#[trigger] h[i]).0@, name) && h[i].1 is None;
            if i < p.len() {
                assert(ascii_ci_eq(p[i].0@, name) && p[i].1 is None);
            }
        }
        if forwarded_choice(h, name) is Invalid {
            if forwarded_choice(p, name) is Invalid {
                let i = choose|i: int|
                    0 <= i < p.len() && ascii_ci_eq((#[trigger] p[i]).0@, name) && p[i].1 is None;
                assert(h[i] == p[i]);
            }
        }
        if forall|i: int| 0 <= i < h.len() ==> !ascii_ci_eq((#[trigger] h[i]).0@, name) {
            assert(forall|i: int| 0 <= i < p.len() ==> !ascii_ci_eq((#[trigger] p[i]).0@, name));
            assert(!ascii_ci_eq(h[h.len() - 1].0@, name));
        }
        if forwarded_choice(h, name) is Peer {
            assert forall|i: int| 0 <= i < h.len() implies !ascii_ci_eq((#[trigger] h[i]).0@, name) by {
                if i < p.len() {
                    assert(p[i] == h[i]);
                }
            }
        }
        if forwarded_choice(h, name) is Forwarded {
            let a = forwarded_choice(h, name)->Forwarded_0;
            if ascii_ci_eq(x.0@, name) {
                assert(ascii_ci_eq(h[h.len() - 1].0@, name) && h[h.len() - 1].1 == Some(a));
            } else {
                let i = choose|i: int|
                    0 <= i < p.len() && ascii_ci_eq((#[trigger] p[i]).0@, name) && p[i].1 == Some(a)
                        && forall|j: int| i < j < p.len() ==> !ascii_ci_eq((#[trigger] p[j]).0@, name);
                assert(h[i] == p[i]);
                assert forall|j: int| i < j < h.len() implies !ascii_ci_eq((#[trigger] h[j]).0@, name) by {
                    if j < p.len() {
                        assert(p[j] == h[j]);
                    }
                }
            }
        }
    }
}

/// Reads the forwarding headers named `name` among `headers`.
pub fn forwarded_source<A: Copy>(headers: &[(String, Option<A>)], name: &str) -> (r: SourceChoice<A>)
    ensures
        r == forwarded_choice(headers@, name@),
{
    let mut found: SourceChoice<A> = SourceChoice::Peer;
    let mut i: usize = 0;
    while i < headers.len()
        invariant
            i <= headers@.len(),
            found == forwarded_choice(headers@.take(i as int), name@),
            found !is Invalid,
        decreases headers.len() - i,
    {
        proof {
            assert(headers@.take(i + 1).drop_last() =~= headers@.take(i as int));
        }
        let (hname, value) = &headers[i];
        if str_eq_ignore_ascii_case(hname.as_str(), name) {
            match value {
                Some(a) => {
                    found = SourceChoice::Forwarded(*a);
                },
                None => {
                    proof {
                        lemma_invalid_stays(headers@, name@, i as int + 1);
                        assert(headers@.take(headers@.len() as int) =~= headers@);
                    }
                    return SourceChoice::Invalid;
                },
            }
        }
        i = i + 1;
    }
    proof {
        assert(headers@.take(headers@.len() as int) =~= headers@);
    }
    found
}

/// Once a prefix of the headers is invalid, so are all longer ones.
proof fn lemma_invalid_stays<A>(h: Seq<(String, Option<A>)>, name: Seq<char>, k: int)
    requires
        0 <= k <= h.len(),
        forwarded_choice(h.take(k), name) is Invalid,
    ensures
        forwarded_choice(h, name) is Invalid,
    decreases h.len() - k,
{
    if k < h.len() {
        assert(h.take(k + 1).drop_last() =~= h.take(k));
        lemma_invalid_stays(h, name, k + 1);
    } else {
        assert(h.take(k) =~= h);
    }
}

/// The address that the request of peer `peer` comes from, where forwarding
/// headers count only from a trusted peer and where a header is configured;
/// `None` where a forwarding header does not hold an address (the request
/// is denied).
pub open spec fn source_of<A>(
    peer: A,
    trusted_peer: bool,
    header: Option<Seq<char>>,
    headers: Seq<(String, Option<A>)>,
) -> Option<A> {
    match header {
        Some(name) if trusted_peer => match forwarded_choice(headers, name) {
            SourceChoice::Peer => Some(peer),
            SourceChoice::Forwarded(a) => Some(a),
            SourceChoice::Invalid => None,
        },
        _ => Some(peer),
    }
}

/// Picks the address that the request comes from (see `source_of`).
pub fn source_address<A: Copy>(
    peer: A,
    trusted_peer: bool,
    header: Option<&str>,
    headers: &[(String, Option<A>)],
) -> (r: Option<A>)
    ensures
        r == source_of(
            peer,
            trusted_peer,
            match header {
                Some(h) => Some(h@),
                None => None,
            },
            headers@,
        ),
{
    match header {
        Some(name) if trusted_peer => match forwarded_source(headers, name) {
            SourceChoice::Peer => Some(peer),
            SourceChoice::Forwarded(a) => Some(a),
            SourceChoice::Invalid => None,
        },
        _ => Some(peer),
    }
}

/// A range of addresses of a network, both ends included. Addresses are
/// numbers; an IPv4 address stands as its IPv6-mapped form.
#[derive(Debug, Clone, Copy, PartialEq, Eq, Structural)]
pub struct Subnet {
    pub first: u128,
    pub last: u128,
}

/// Whether address `ip` is in one of the subnets of `net`.
pub open spec fn in_network(ip: u128, net: Seq<Subnet>) -> bool {
    exists|i: int| 0 <= i < net.len() && #[trigger] net[i].first <= ip && ip <= net[i].last
}

/// Whether address `ip` is in one of the subnets of `net`.
pub fn network_contains(net: &[Subnet], ip: u128) -> (r: bool)
    ensures
        r == in_network(ip, net@),
{
    let mut i: usize = 0;
    while i < net.len()
        invariant
            i <= net@.len(),
            forall|j: int| 0 <= j < i ==> !(net@[j].first <= ip && ip <= net@[j].last),
        decreases net.len() - i,
    {
        if net[i].first <= ip && ip <= net[i].last {
            proof {
                assert(net@[i as int].first <= ip && ip <= net@[i as int].last);
            }
            return true;
        }
        i = i + 1;
    }
    proof {
        if in_network(ip, net@) {
            let k = choose|k: int| 0 <= k < net@.len() && #[trigger] net@[k].first <= ip && ip
                <= net@[k].last;
            assert(!(net@[k].first <= ip && ip <= net@[k].last));
        }
    }
    false
}

/// Whether the source-ip authorizer lets the request of `peer` in: the
/// source address (see `source_of`; forwarding headers count where the
/// peer is in the network `forwarded_from`) is in the network `allowed`.
/// A missing network lets nothing in.
pub open spec fn source_allowed(
    peer: u128,
    forwarded_from: Option<Seq<Subnet>>,
    header: Option<Seq<char>>,
    headers: Seq<(String, Option<u128>)>,
    allowed: Option<Seq<Subnet>>,
) -> bool {
    let trusted = match forwarded_from {
        Some(n) => in_network(peer, n),
        None => false,
    };
    match source_of(peer, trusted, header, headers) {
        Some(ip) => match allowed {
            Some(n) => in_network(ip, n),
            None => false,
        },
        None => false,
    }
}

/// The source-ip authorizer: whether the request of `peer` with `headers`
/// (values parsed as addresses) is let in (see `source_allowed`).
pub fn check(
    peer: u128,
    forwarded_from: Option<&[Subnet]>,
    header: Option<&str>,
    headers: &[(String, Option<u128>)],
    allowed: Option<&[Subnet]>,
) -> (r: bool)
    ensures
        r == source_allowed(
            peer,
            match forwarded_from {
                Some(n) => Some(n@),
                None => None,
            },
            match header {
                Some(h) => Some(h@),
                None => None,
            },
            headers@,
            match allowed {
                Some(n) => Some(n@),
                None => None,
            },
        ),
{
    let trusted = match forwarded_from {
        Some(n) => network_contains(n, peer),
        None => false,
    };
    match source_address(peer, trusted, header, headers) {
        Some(ip) => match allowed {
            Some(n) => network_contains(n, ip),
            None => false,
        },
        None => false,
    }
}

} // verus!
