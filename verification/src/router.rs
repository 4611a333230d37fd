//! The URLs of backend methods.
use vstd::prelude::*;
use crate::dispatcher::concat;
use crate::map::{StrMap, Valid};
use crate::text::str_chars;

verus! {

/// An HTTP destination: the addresses of its servers.
pub struct Target {
    pub addresses: Vec<String>,
}

impl View for Target {
    type V = Seq<Seq<char>>;

    open spec fn view(&self) -> Seq<Seq<char>> {
        self.addresses@.map_values(|a: String| a@)
    }
}

impl Valid for Target {
    open spec fn valid(&self) -> bool {
        true
    }
}

/// The URL of `path` on the destination `upstream` with path `dest_path`:
/// the first address of the upstream's servers, then the destination's
/// path, then `path` (with a `/` between where the destination's path
/// does not end in one); none where the upstream is unknown or has no
/// address.
pub open spec fn url_spec(
    path: Seq<char>,
    upstream: Seq<char>,
    dest_path: Seq<char>,
    table: Map<Seq<char>, Seq<Seq<char>>>,
) -> Option<Seq<char>> {
    if table.contains_key(upstream) && table[upstream].len() > 0 {
        let addr = table[upstream][0];
        if dest_path.len() > 0 && dest_path.last() == '/' {
            Some("http://"@ + addr + dest_path + path)
        } else {
            Some("http://"@ + addr + dest_path + "/"@ + path)
        }
    } else {
        None
    }
}

/// Builds the URL of `path` on destination `upstream` with path
/// `dest_path`, from the addresses of the upstreams in `table`.
pub fn url_for(path: &str, upstream: &String, dest_path: &str, table: &StrMap<Target>) -> (r: Option<String>)
    requires
        table.wf(),
    ensures
        r matches Some(u) ==> url_spec(path@, upstream@, dest_path@, table@) == Some(u@),
        r is None ==> url_spec(path@, upstream@, dest_path@, table@) is None,
{
    let target = match table.get(upstream) {
        Some(t) => t,
        None => {
            return None;
        },
    };
    if target.addresses.len() == 0 {
        return None;
    }
    let addr = &target.addresses[0];
    let dc = str_chars(dest_path);
    let ends_with_slash = dc.len() > 0 && dc[dc.len() - 1] == '/';
    let a = concat("http://", addr.as_str());
    let b = concat(a.as_str(), dest_path);
    let url = if ends_with_slash {
        concat(b.as_str(), path)
    } else {
        let c = concat(b.as_str(), "/");
        concat(c.as_str(), path)
    };
    proof {
        assert(target@[0] == addr@);
        if ends_with_slash {
            assert(url@ =~= "http://"@ + addr@ + dest_path@ + path@);
        } else {
            assert(url@ =~= "http://"@ + addr@ + dest_path@ + "/"@ + path@);
        }
    }
    Some(url)
}

} // verus!
