use vstd::prelude::*;
use vstd::std_specs::iter::IteratorSpec;
use vstd::string::StringExecFns;
use crate::model::request::Cluster;

verus! {

broadcast use vstd::string::group_string_axioms;

/// The node index a node holds before it is told its place in a cluster.
pub const UNSET_IDX: usize = 999;

/// Number of node addresses a node keeps.
pub const NODE_SLOTS: usize = 3;

/// What a node knows of its cluster: its own index, the base URL of each
/// node, and whether its data has been loaded from disk.
pub struct ClusterState {
    pub idx: usize,
    pub urls: Vec<String>,
    pub loaded: bool,
}

/// The base URL of a node at `host`: `http://` and the host, with the
/// default port `:8080` appended when the host names no port.
pub open spec fn host_url_spec(host: Seq<char>) -> Seq<char> {
    seq!['h', 't', 't', 'p', ':', '/', '/'] + host + if host.contains(':') {
        Seq::<char>::empty()
    } else {
        seq![':', '8', '0', '8', '0']
    }
}

/// Whether `host` holds a `:`, that is, names a port.
fn names_port(host: &str) -> (r: bool)
    ensures
        r == host@.contains(':'),
{
    let mut found = false;
    let chars = host.chars();
    proof {
        assert(host@.take(0) =~= Seq::<char>::empty());
    }
    for c in it: chars
        invariant
            it.seq() == host@,
            found == host@.take(it.index()).contains(':'),
    {
        proof {
            let n = it.index();
            assert(host@.take(n + 1) =~= host@.take(n).push(c));
            assert(host@.take(n + 1)[n] == c);
        }
        if c == ':' {
            found = true;
        }
    }
    proof {
        assert(host@.take(host@.len() as int) =~= host@);
    }
    found
}

/// The base URL of the node at `host`.
pub fn host_url(host: &str) -> (r: String)
    ensures
        r@ == host_url_spec(host@),
{
    let mut url = String::from_str("http://");
    url.append(host);
    if !names_port(host) {
        url.append(":8080");
    }
    proof {
        reveal_strlit("http://");
        reveal_strlit(":8080");
        assert(url@ =~= host_url_spec(host@));
    }
    url
}

impl ClusterState {
    /// A node that knows nothing of its cluster yet.
    pub fn new() -> (r: Self)
        ensures
            r.idx == UNSET_IDX,
            r.urls@.len() == NODE_SLOTS,
            forall|i: int| 0 <= i < NODE_SLOTS ==> (#[trigger] r.urls@[i])@ == Seq::<char>::empty(),
            !r.loaded,
    {
        let mut urls: Vec<String> = Vec::new();
        urls.push(String::new());
        urls.push(String::new());
        urls.push(String::new());
        ClusterState { idx: UNSET_IDX, urls, loaded: false }
    }
}

/// Records the cluster `c`: this node's index becomes `c.index - 1`, and the
/// first URLs become the base URLs of `c.hosts`, in order; the other URLs
/// stay.
pub fn set_cluster(state: &mut ClusterState, c: Cluster)
    requires
        c.index >= 1,
        c.hosts@.len() <= old(state).urls@.len(),
    ensures
        final(state).idx == c.index - 1,
        final(state).loaded == old(state).loaded,
        final(state).urls@.len() == old(state).urls@.len(),
        forall|i: int| 0 <= i < c.hosts@.len() ==> (#[trigger] final(state).urls@[i])@ == host_url_spec(c.hosts@[i]@),
        forall|i: int| c.hosts@.len() <= i < old(state).urls@.len() ==> #[trigger] final(state).urls@[i] == old(state).urls@[i],
{
    state.idx = c.index - 1;
    let mut i: usize = 0;
    while i < c.hosts.len()
        invariant
            i <= c.hosts@.len(),
            c.hosts@.len() <= state.urls@.len(),
            state.idx == c.index - 1,
            state.loaded == old(state).loaded,
            state.urls@.len() == old(state).urls@.len(),
            forall|j: int| 0 <= j < i ==> (#[trigger] state.urls@[j])@ == host_url_spec(c.hosts@[j]@),
            forall|j: int| i <= j < old(state).urls@.len() ==> #[trigger] state.urls@[j] == old(state).urls@[j],
        decreases c.hosts@.len() - i,
    {
        let url = host_url(c.hosts[i].as_str());
        state.urls.set(i, url);
        i = i + 1;
    }
}

/// The reply to a request to load the data from disk when there is nothing
/// to load: `ok` once loaded, `no cluster info` before the node knows its
/// index. `None` when the data is to be loaded now.
pub fn load_precheck(state: &ClusterState) -> (r: Option<String>)
    ensures
        state.loaded ==> (r matches Some(s) && s@ == seq!['o', 'k']),
        !state.loaded && state.idx == UNSET_IDX ==> (r matches Some(s) && s@ == load_unset_reply()),
        !state.loaded && state.idx != UNSET_IDX ==> r is None,
{
    if state.loaded {
        let s = String::from_str("ok");
        proof {
            reveal_strlit("ok");
            assert(s@ =~= seq!['o', 'k']);
        }
        return Some(s);
    }
    if state.idx == UNSET_IDX {
        let s = String::from_str("no cluster info");
        proof {
            reveal_strlit("no cluster info");
            assert(s@ =~= load_unset_reply());
        }
        return Some(s);
    }
    None
}

/// Ends a load from disk. When every database opened, the node is marked
/// loaded and the reply is `ok`; otherwise the node stays unloaded and the
/// reply is `open failed`.
pub fn finish_load(state: &mut ClusterState, all_opened: bool) -> (r: String)
    ensures
        final(state).loaded == (old(state).loaded || all_opened),
        final(state).idx == old(state).idx,
        final(state).urls == old(state).urls,
        all_opened ==> r@ == seq!['o', 'k'],
        !all_opened ==> r@ == open_failed_reply(),
{
    if all_opened {
        state.loaded = true;
        let s = String::from_str("ok");
        proof {
            reveal_strlit("ok");
            assert(s@ =~= seq!['o', 'k']);
        }
        s
    } else {
        let s = String::from_str("open failed");
        proof {
            reveal_strlit("open failed");
            assert(s@ =~= open_failed_reply());
        }
        s
    }
}

/// The text `open failed`.
pub open spec fn open_failed_reply() -> Seq<char> {
    seq!['o', 'p', 'e', 'n', ' ', 'f', 'a', 'i', 'l', 'e', 'd']
}

/// The text `no cluster info`.
pub open spec fn load_unset_reply() -> Seq<char> {
    seq!['n', 'o', ' ', 'c', 'l', 'u', 's', 't', 'e', 'r', ' ', 'i', 'n', 'f', 'o']
}

} // verus!
