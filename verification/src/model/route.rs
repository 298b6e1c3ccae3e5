//! Where a request is answered. A configured node answers the requests for
//! the keys it serves and sends every other request on to the key's owner,
//! which answers it with its node-local operation.
use vstd::prelude::*;
use crate::model::cluster::{ClusterState, NODE_SLOTS, UNSET_IDX};
use crate::model::evn::{cluster_idx, law_one_server_per_key, mask_serves, owner_idx, owner_spec};
use crate::model::http_req::{request_url, request_url_spec};
use crate::model::request::{InsrtRequest, ScoreRange, ScoreValue};
use crate::model::sort_values::{is_range_of, listing, members, texts};
use crate::model::store::{listed, lru_put, pairs, serves, touch, without_key, zset_or_empty, Store};

verus! {

/// Where a request is answered.
pub enum Routed<T> {
    /// This node's answer.
    Here(T),
    /// The URL, at the key's owner, that the request is to be sent to; the
    /// owner's reply is the answer.
    Forward(String),
}

/// Whether a node sends a request for `key` on to the key's owner: it
/// knows its place in the cluster and does not serve the key.
pub open spec fn forwards(state: ClusterState, key: Seq<char>) -> bool {
    state.idx != UNSET_IDX && !serves(state.idx, key)
}

/// The URL of `route` with the path parameters `params` at the owner of
/// `key`.
pub open spec fn forward_url(state: ClusterState, key: Seq<char>, route: Seq<char>, params: Seq<Seq<char>>) -> Seq<char> {
    request_url_spec(state.urls@[owner_spec(key)]@, route, params)
}

/// A cluster of three configured nodes: node `i` has index `i`, and all
/// know the same node URLs.
pub open spec fn cluster_configured(states: Seq<ClusterState>) -> bool {
    &&& states.len() == NODE_SLOTS
    &&& forall|i: int| 0 <= i < NODE_SLOTS ==> (#[trigger] states[i]).idx == i && states[i].urls@.len() == NODE_SLOTS
    &&& forall|i: int, j: int| 0 <= i < NODE_SLOTS && 0 <= j < NODE_SLOTS
        ==> (#[trigger] states[i].urls@[j])@ == states[0].urls@[j]@
}

/// In a configured cluster every request for a key is answered by the key's
/// owner, in one hop: the owner answers it itself, and every other node
/// sends it to the same URL, the owner's, where it is not sent on again.
/// With `route_get`, `route_range` and `route_list`, which answer here
/// exactly when they do not forward, every node thus answers a read with the
/// owner's local answer.
pub proof fn law_cluster_routes_to_owner(
    states: Seq<ClusterState>,
    k: Seq<char>,
    i: int,
    route: Seq<char>,
    params: Seq<Seq<char>>,
)
    requires
        cluster_configured(states),
        0 <= i < NODE_SLOTS,
    ensures
        0 <= owner_spec(k) < NODE_SLOTS,
        forwards(states[i], k) <==> i != owner_spec(k),
        !forwards(states[owner_spec(k)], k),
        serves(states[owner_spec(k)].idx, k),
        forward_url(states[i], k, route, params) == forward_url(states[owner_spec(k)], k, route, params),
{
    let o = owner_spec(k);
    law_one_server_per_key(k, i);
    law_one_server_per_key(k, o);
    assert(states[i].idx == i);
    assert(states[o].idx == o);
    assert(states[i].urls@[o]@ == states[0].urls@[o]@);
    assert(states[o].urls@[o]@ == states[0].urls@[o]@);
}

/// The owner's local answer to a lookup of `k`, over the values `kvs[n]`
/// of each node `n`.
pub open spec fn owner_answer(kvs: Seq<Map<Seq<char>, Seq<char>>>, k: Seq<char>) -> Option<Seq<char>> {
    if kvs[owner_spec(k)].contains_key(k) {
        Some(kvs[owner_spec(k)][k])
    } else {
        None
    }
}

/// The owners' answers to a lookup of each of `keys`.
pub open spec fn owner_answers(kvs: Seq<Map<Seq<char>, Seq<char>>>, keys: Seq<Seq<char>>) -> Seq<Option<Seq<char>>> {
    keys.map_values(|k: Seq<char>| owner_answer(kvs, k))
}

/// A node's own answer to a lookup of `k` from its values `kv`, as
/// `route_get` gives it when it does not forward: the value, if the node
/// serves the key and holds it.
pub open spec fn local_answer(state: ClusterState, kv: Map<Seq<char>, Seq<char>>, k: Seq<char>) -> Option<Seq<char>> {
    if serves(state.idx, k) && kv.contains_key(k) {
        Some(kv[k])
    } else {
        None
    }
}

/// The answer node `i` of a cluster gives to a lookup of `k`: its own, or,
/// when it forwards, the owner's own answer.
pub open spec fn routed_answer(states: Seq<ClusterState>, kvs: Seq<Map<Seq<char>, Seq<char>>>, i: int, k: Seq<char>) -> Option<Seq<char>> {
    if forwards(states[i], k) {
        local_answer(states[owner_spec(k)], kvs[owner_spec(k)], k)
    } else {
        local_answer(states[i], kvs[i], k)
    }
}

/// In a configured cluster every node answers a lookup of a key with the
/// value its owner holds, or with none when the owner holds none.
pub proof fn law_cluster_lookup(states: Seq<ClusterState>, kvs: Seq<Map<Seq<char>, Seq<char>>>, k: Seq<char>, i: int)
    requires
        cluster_configured(states),
        kvs.len() == NODE_SLOTS,
        0 <= i < NODE_SLOTS,
    ensures
        routed_answer(states, kvs, i, k) == owner_answer(kvs, k),
{
    law_cluster_routes_to_owner(states, k, i, Seq::empty(), Seq::empty());
}

/// A multi-key read assembled from the owners' answers lists only pairs
/// that their owners hold, at most one per key asked; when every key asked
/// is held by its owner, it lists all of them, in the order asked.
pub proof fn law_cluster_list_complete(kvs: Seq<Map<Seq<char>, Seq<char>>>, keys: Seq<Seq<char>>)
    requires
        kvs.len() == NODE_SLOTS,
    ensures
        gathered(keys, owner_answers(kvs, keys)).len() <= keys.len(),
        forall|i: int| 0 <= i < gathered(keys, owner_answers(kvs, keys)).len() ==> owner_answer(
            kvs,
            (#[trigger] gathered(keys, owner_answers(kvs, keys))[i]).0,
        ) == Some(gathered(keys, owner_answers(kvs, keys))[i].1),
        (forall|i: int| 0 <= i < keys.len() ==> kvs[owner_spec(keys[i])].contains_key(#[trigger] keys[i])) ==> (
            gathered(keys, owner_answers(kvs, keys)).len() == keys.len()
            && forall|i: int| 0 <= i < keys.len() ==> (#[trigger] gathered(keys, owner_answers(kvs, keys))[i]) == (keys[i], kvs[owner_spec(keys[i])][keys[i]])),
    decreases keys.len(),
{
    if keys.len() > 0 {
        let init = keys.drop_last();
        law_cluster_list_complete(kvs, init);
        assert(owner_answers(kvs, keys).drop_last() =~= owner_answers(kvs, init));
        assert(owner_answers(kvs, keys).last() == owner_answer(kvs, keys.last()));
        if forall|i: int| 0 <= i < keys.len() ==> kvs[owner_spec(keys[i])].contains_key(#[trigger] keys[i]) {
            assert forall|i: int| 0 <= i < init.len() implies kvs[owner_spec(init[i])].contains_key(#[trigger] init[i]) by {
                assert(init[i] == keys[i]);
            }
            assert(kvs[owner_spec(keys[keys.len() - 1])].contains_key(keys[keys.len() - 1]));
            assert forall|i: int| 0 <= i < keys.len() implies (#[trigger] gathered(keys, owner_answers(kvs, keys))[i])
                == (keys[i], kvs[owner_spec(keys[i])][keys[i]]) by {
                if i < init.len() {
                    assert(init[i] == keys[i]);
                }
            }
        }
    }
}

/// Whether this node sends a request for `k` on to its owner.
fn forwards_key(state: &ClusterState, k: &String) -> (r: bool)
    ensures
        r == forwards(*state, k@),
{
    state.idx != UNSET_IDX && !mask_serves(cluster_idx(k.as_str()), state.idx)
}

/// The URL of `route` with the path parameters `params` at the owner of `k`.
fn owner_url(state: &ClusterState, k: &String, route: &str, params: &Vec<String>) -> (r: String)
    requires
        state.urls@.len() == NODE_SLOTS,
    ensures
        r@ == forward_url(*state, k@, route@, texts(params@)),
{
    let owner = owner_idx(k.as_str());
    request_url(state.urls[owner].as_str(), route, params)
}

/// Stores a value: here when this node serves the key (or does not know
/// its cluster yet, in which case it stores nothing, as `Store::insert`),
/// else by sending the request, as JSON, to the URL returned.
pub fn route_insert(store: &mut Store, state: &ClusterState, req: InsrtRequest) -> (r: Option<String>)
    requires
        old(store).wf(),
        state.urls@.len() == NODE_SLOTS,
    ensures
        final(store).wf(),
        final(store).cap() == old(store).cap(),
        final(store).zsets() == old(store).zsets(),
        forwards(*state, req.key@) ==> (r matches Some(u) && u@ == forward_url(*state, req.key@, "add2"@, seq![]))
            && final(store).kv() == old(store).kv() && final(store).order() == old(store).order(),
        !forwards(*state, req.key@) ==> r is None
            && (final(store).kv(), final(store).order()) == if serves(state.idx, req.key@) {
                lru_put(old(store).kv(), old(store).order(), old(store).cap(), req.key@, req.value@)
            } else {
                (old(store).kv(), old(store).order())
            },
{
    if forwards_key(state, &req.key) {
        let url = owner_url(state, &req.key, "add2", &Vec::new());
        proof {
            assert(texts(Seq::<String>::empty()) =~= Seq::<Seq<char>>::empty());
        }
        Some(url)
    } else {
        store.insert(state.idx, req);
        None
    }
}

/// Reads a value: here when this node serves the key (or does not know its
/// cluster yet, in which case the answer is `None`), else at its owner.
pub fn route_get(store: &mut Store, state: &ClusterState, k: &String) -> (r: Routed<Option<String>>)
    requires
        old(store).wf(),
        state.urls@.len() == NODE_SLOTS,
    ensures
        final(store).wf(),
        final(store).kv() == old(store).kv(),
        final(store).cap() == old(store).cap(),
        final(store).zsets() == old(store).zsets(),
        forwards(*state, k@) ==> (r matches Routed::Forward(u) && u@ == forward_url(*state, k@, "query"@, seq![k@]))
            && final(store).order() == old(store).order(),
        !forwards(*state, k@) ==> (r matches Routed::Here(v) && match v {
            Some(s) => serves(state.idx, k@) && old(store).kv().contains_key(k@) && s@ == old(store).kv()[k@],
            None => !serves(state.idx, k@) || !old(store).kv().contains_key(k@),
        }) && final(store).order() == if serves(state.idx, k@) { touch(old(store).order(), k@) } else { old(store).order() },
{
    if forwards_key(state, k) {
        let mut params: Vec<String> = Vec::new();
        params.push(k.clone());
        let url = owner_url(state, k, "query", &params);
        proof {
            assert(texts(params@) =~= seq![k@]);
        }
        Routed::Forward(url)
    } else {
        Routed::Here(store.get(state.idx, k))
    }
}

/// Deletes a value: here when this node serves the key (or does not know
/// its cluster yet, in which case it deletes nothing), else at its owner.
pub fn route_del(store: &mut Store, state: &ClusterState, k: &String) -> (r: Option<String>)
    requires
        old(store).wf(),
        state.urls@.len() == NODE_SLOTS,
    ensures
        final(store).wf(),
        final(store).cap() == old(store).cap(),
        final(store).zsets() == old(store).zsets(),
        forwards(*state, k@) ==> (r matches Some(u) && u@ == forward_url(*state, k@, "del2"@, seq![k@]))
            && final(store).kv() == old(store).kv() && final(store).order() == old(store).order(),
        !forwards(*state, k@) ==> r is None
            && (final(store).kv(), final(store).order()) == if serves(state.idx, k@) {
                (old(store).kv().remove(k@), without_key(old(store).order(), k@))
            } else {
                (old(store).kv(), old(store).order())
            },
{
    if forwards_key(state, k) {
        let mut params: Vec<String> = Vec::new();
        params.push(k.clone());
        let url = owner_url(state, k, "del2", &params);
        proof {
            assert(texts(params@) =~= seq![k@]);
        }
        Some(url)
    } else {
        store.del(state.idx, k);
        None
    }
}

/// Adds a member to a sorted set: here when this node serves the key or
/// does not know its cluster yet, else by sending the member, as JSON, to
/// the URL returned.
pub fn route_zadd(store: &mut Store, state: &ClusterState, k: String, v: ScoreValue) -> (r: Option<String>)
    requires
        old(store).wf(),
        state.urls@.len() == NODE_SLOTS,
    ensures
        final(store).wf(),
        final(store).kv() == old(store).kv(),
        final(store).order() == old(store).order(),
        final(store).cap() == old(store).cap(),
        forwards(*state, k@) ==> (r matches Some(u) && u@ == forward_url(*state, k@, "zadd2"@, seq![k@]))
            && final(store).zsets() == old(store).zsets(),
        !forwards(*state, k@) ==> r is None && final(store).zsets() == old(store).zsets().insert(
            k@,
            zset_or_empty(old(store).zsets(), k@).insert(v.value@, v.score),
        ),
{
    if forwards_key(state, &k) {
        let mut params: Vec<String> = Vec::new();
        params.push(k.clone());
        let url = owner_url(state, &k, "zadd2", &params);
        proof {
            assert(texts(params@) =~= seq![k@]);
        }
        Some(url)
    } else {
        store.zset_insert(k, v);
        None
    }
}

/// Removes a member from a sorted set: here when this node serves the key
/// (or does not know its cluster yet, in which case it removes nothing),
/// else at its owner.
pub fn route_zrmv(store: &mut Store, state: &ClusterState, k: &String, v: &String) -> (r: Option<String>)
    requires
        old(store).wf(),
        state.urls@.len() == NODE_SLOTS,
    ensures
        final(store).wf(),
        final(store).kv() == old(store).kv(),
        final(store).order() == old(store).order(),
        final(store).cap() == old(store).cap(),
        forwards(*state, k@) ==> (r matches Some(u) && u@ == forward_url(*state, k@, "zrmv2"@, seq![k@, v@]))
            && final(store).zsets() == old(store).zsets(),
        !forwards(*state, k@) ==> r is None && final(store).zsets() == if serves(state.idx, k@)
            && old(store).zsets().contains_key(k@) {
            old(store).zsets().insert(k@, old(store).zsets()[k@].remove(v@))
        } else {
            old(store).zsets()
        },
{
    if forwards_key(state, k) {
        let mut params: Vec<String> = Vec::new();
        params.push(k.clone());
        params.push(v.clone());
        let url = owner_url(state, k, "zrmv2", &params);
        proof {
            assert(texts(params@) =~= seq![k@, v@]);
        }
        Some(url)
    } else {
        store.remove(state.idx, k, v);
        None
    }
}

/// Queries a sorted set by score: here when this node serves the key (or
/// does not know its cluster yet, in which case the answer is empty), else
/// by sending the range, as JSON, to its owner.
pub fn route_range(store: &Store, state: &ClusterState, k: &String, range: ScoreRange) -> (r: Routed<Vec<ScoreValue>>)
    requires
        store.wf(),
        state.urls@.len() == NODE_SLOTS,
        serves(state.idx, k@) && store.zsets().contains_key(k@) ==> range.min_score <= range.max_score,
    ensures
        forwards(*state, k@) ==> (r matches Routed::Forward(u) && u@ == forward_url(*state, k@, "zrange"@, seq![k@])),
        !forwards(*state, k@) ==> (r matches Routed::Here(out) && if serves(state.idx, k@) && store.zsets().contains_key(k@) {
            &&& is_range_of(store.zsets()[k@], range.min_score, range.max_score, out@)
            &&& members(out@) == listing(store.zset_buckets()[k@], range.min_score as int, range.max_score as int)
        } else {
            out@.len() == 0
        }),
{
    if forwards_key(state, k) {
        let mut params: Vec<String> = Vec::new();
        params.push(k.clone());
        let url = owner_url(state, k, "zrange", &params);
        proof {
            assert(texts(params@) =~= seq![k@]);
        }
        Routed::Forward(url)
    } else {
        Routed::Here(store.range(state.idx, k, range))
    }
}

/// The order of use after this node reads, in turn, the keys among `keys`
/// that it serves.
pub open spec fn touch_served(order: Seq<Seq<char>>, keys: Seq<Seq<char>>, node: usize) -> Seq<Seq<char>>
    decreases keys.len(),
{
    if keys.len() == 0 {
        order
    } else {
        let before = touch_served(order, keys.drop_last(), node);
        if serves(node, keys.last()) {
            touch(before, keys.last())
        } else {
            before
        }
    }
}

/// The answer for `k` in a multi-key read routed by `state` over the
/// values `kv`.
pub open spec fn list_step_ok(state: ClusterState, kv: Map<Seq<char>, Seq<char>>, k: Seq<char>, step: Routed<Option<String>>) -> bool {
    if forwards(state, k) {
        step matches Routed::Forward(u) && u@ == forward_url(state, k, "query"@, seq![k])
    } else {
        step matches Routed::Here(v) && match v {
            Some(s) => serves(state.idx, k) && kv.contains_key(k) && s@ == kv[k],
            None => !serves(state.idx, k) || !kv.contains_key(k),
        }
    }
}

/// Plans a multi-key read: each key is read here or at its owner, as
/// `route_get` does. The answers, in order, go to `assemble_list`.
pub fn route_list(store: &mut Store, state: &ClusterState, keys: &Vec<String>) -> (r: Vec<Routed<Option<String>>>)
    requires
        old(store).wf(),
        state.urls@.len() == NODE_SLOTS,
    ensures
        final(store).wf(),
        final(store).kv() == old(store).kv(),
        final(store).cap() == old(store).cap(),
        final(store).zsets() == old(store).zsets(),
        final(store).order() == touch_served(old(store).order(), texts(keys@), state.idx),
        r@.len() == keys@.len(),
        forall|i: int| 0 <= i < keys@.len() ==> list_step_ok(*state, old(store).kv(), keys@[i]@, #[trigger] r@[i]),
{
    let mut steps: Vec<Routed<Option<String>>> = Vec::new();
    let mut i: usize = 0;
    proof {
        assert(texts(keys@.take(0)) =~= Seq::<Seq<char>>::empty());
    }
    while i < keys.len()
        invariant
            store.wf(),
            state.urls@.len() == NODE_SLOTS,
            i <= keys@.len(),
            steps@.len() == i,
            store.kv() == old(store).kv(),
            store.cap() == old(store).cap(),
            store.zsets() == old(store).zsets(),
            store.order() == touch_served(old(store).order(), texts(keys@.take(i as int)), state.idx),
            forall|j: int| 0 <= j < i ==> list_step_ok(*state, old(store).kv(), keys@[j]@, #[trigger] steps@[j]),
        decreases keys@.len() - i,
    {
        let step = route_get(store, state, &keys[i]);
        proof {
            assert(texts(keys@.take(i + 1)).drop_last() =~= texts(keys@.take(i as int)));
            assert(texts(keys@.take(i + 1)).last() == keys@[i as int]@);
        }
        steps.push(step);
        i = i + 1;
    }
    assert(keys@.take(keys@.len() as int) =~= keys@);
    steps
}

/// The texts of a sequence of optional strings.
pub open spec fn answer_texts(answers: Seq<Option<String>>) -> Seq<Option<Seq<char>>> {
    answers.map_values(|a: Option<String>| match a {
        Some(s) => Some(s@),
        None => None,
    })
}

/// The pairs of `keys` whose answers carry a value, in order.
pub open spec fn gathered(keys: Seq<Seq<char>>, answers: Seq<Option<Seq<char>>>) -> Seq<(Seq<char>, Seq<char>)>
    decreases keys.len(),
{
    if keys.len() == 0 || answers.len() == 0 {
        Seq::empty()
    } else {
        let rest = gathered(keys.drop_last(), answers.drop_last());
        match answers.last() {
            Some(v) => rest.push((keys.last(), v)),
            None => rest,
        }
    }
}

/// The number of answers that carry a value.
pub open spec fn answered_count(answers: Seq<Option<Seq<char>>>) -> nat
    decreases answers.len(),
{
    if answers.len() == 0 {
        0
    } else {
        answered_count(answers.drop_last()) + (if answers.last() is Some { 1nat } else { 0nat })
    }
}

/// The reply to a multi-key read holds one pair for each answer that
/// carries a value, whether or not other answers are empty: the answer at
/// position `i`, when it carries a value, is paired with `keys[i]` and comes
/// right after the pairs of the earlier answers that carry one.
pub proof fn law_list_assembly(keys: Seq<Seq<char>>, answers: Seq<Option<Seq<char>>>)
    requires
        keys.len() == answers.len(),
    ensures
        gathered(keys, answers).len() == answered_count(answers),
        forall|i: int| 0 <= i < answers.len() && (#[trigger] answers[i]) is Some
            ==> answered_count(answers.take(i)) < answered_count(answers)
            && gathered(keys, answers)[answered_count(answers.take(i)) as int] == (keys[i], answers[i]->0),
    decreases keys.len(),
{
    if keys.len() > 0 {
        let n = answers.len() as int;
        let ks = keys.drop_last();
        let an = answers.drop_last();
        law_list_assembly(ks, an);
        assert forall|i: int| 0 <= i < answers.len() && (#[trigger] answers[i]) is Some
            implies answered_count(answers.take(i)) < answered_count(answers)
            && gathered(keys, answers)[answered_count(answers.take(i)) as int] == (keys[i], answers[i]->0) by {
            if i < n - 1 {
                assert(answers.take(i) =~= an.take(i));
                assert(an[i] == answers[i]);
                assert(ks[i] == keys[i]);
            } else {
                assert(answers.take(i) =~= an);
            }
        }
    }
}

/// The reply to a multi-key read: the keys whose answers carry a value,
/// each with its value, in the order of `keys`.
pub fn assemble_list(keys: Vec<String>, answers: Vec<Option<String>>) -> (r: Vec<InsrtRequest>)
    requires
        keys@.len() == answers@.len(),
    ensures
        pairs(r@) == gathered(texts(keys@), answer_texts(answers@)),
        r@.len() == answered_count(answer_texts(answers@)),
{
    let ghost ks = texts(keys@);
    let ghost ans = answer_texts(answers@);
    let mut ret: Vec<InsrtRequest> = Vec::new();
    let mut i: usize = 0;
    proof {
        assert(ks.take(0) =~= Seq::<Seq<char>>::empty());
    }
    while i < keys.len()
        invariant
            keys@.len() == answers@.len(),
            i <= keys@.len(),
            ks == texts(keys@),
            ans == answer_texts(answers@),
            pairs(ret@) == gathered(ks.take(i as int), ans.take(i as int)),
        decreases keys@.len() - i,
    {
        match &answers[i] {
            Some(v) => {
                ret.push(InsrtRequest::new(keys[i].clone(), v.clone()));
            },
            None => {},
        }
        proof {
            assert(ks.take(i + 1).drop_last() =~= ks.take(i as int));
            assert(ans.take(i + 1).drop_last() =~= ans.take(i as int));
            assert(ks.take(i + 1).last() == keys@[i as int]@);
            assert(ans.take(i + 1).last() == ans[i as int]);
            assert(pairs(ret@) =~= gathered(ks.take(i + 1), ans.take(i + 1)));
        }
        i = i + 1;
    }
    assert(ks.take(keys@.len() as int) =~= ks);
    assert(ans.take(keys@.len() as int) =~= ans);
    proof {
        law_list_assembly(ks, ans);
    }
    ret
}

} // verus!
