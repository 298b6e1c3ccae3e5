use vstd::prelude::*;
use dashmap::DashMap;
use crate::model::evn::{cluster_idx, cluster_spec, mask_has_node, mask_serves, shard_idx, shard_spec, DEFAULT_KV_SIZE, DEFAULT_SIZE, SHARD_NUM};
use crate::model::request::{InsrtRequest, ScoreRange, ScoreValue};
use crate::model::sort_values::{is_range_of, listing, members, remove_text, texts, SortValues};

verus! {

/// `dashmap::DashMap`, a concurrent hash map.
#[verifier::external_type_specification]
#[verifier::external_body]
#[verifier::reject_recursive_types(K)]
#[verifier::reject_recursive_types(V)]
#[verifier::reject_recursive_types(S)]
pub struct ExDashMap<K, V, S>(DashMap<K, V, S>);

/// A shard of plain values.
pub type KvShard = DashMap<String, String>;

/// A shard of sorted sets.
pub type ZsetShard = DashMap<String, SortValues>;

/// What a key-value shard holds: each key's text mapped to its value's text.
/// The shards change only through the wrappers below that take them by
/// `&mut`.
pub uninterp spec fn kv_shard_contents(m: KvShard) -> Map<Seq<char>, Seq<char>>;

/// What a sorted-set shard holds: each key's text mapped to its set, read
/// by its members (`SortValues@`) and by its score index
/// (`SortValues::buckets`). The shards change only through the wrappers
/// below that take them by `&mut`.
pub uninterp spec fn zset_shard_contents(m: ZsetShard) -> Map<Seq<char>, (Map<Seq<char>, u32>, Map<u32, Seq<Seq<char>>>)>;

/// Calls `DashMap::with_capacity`, which makes an empty map.
#[verifier::external_body]
fn kv_shard_with_capacity(capacity: usize) -> (m: KvShard)
    ensures
        kv_shard_contents(m).dom() == Set::<Seq<char>>::empty(),
{
    DashMap::with_capacity(capacity)
}

/// Calls `DashMap::insert`, which maps `k` to `v`, replacing any former
/// value of `k` and leaving the other keys as they were.
#[verifier::external_body]
fn kv_shard_insert(m: &mut KvShard, k: String, v: String)
    ensures
        kv_shard_contents(*final(m)) == kv_shard_contents(*old(m)).insert(k@, v@),
{
    m.insert(k, v);
}

/// Calls `DashMap::get` and copies out the value found, if any.
#[verifier::external_body]
fn kv_shard_get(m: &KvShard, k: &String) -> (r: Option<String>)
    ensures
        match r {
            Some(v) => kv_shard_contents(*m).contains_key(k@) && v@ == kv_shard_contents(*m)[k@],
            None => !kv_shard_contents(*m).contains_key(k@),
        },
{
    m.get(k).map(|e| e.value().clone())
}

/// Calls `DashMap::remove`, which drops `k` and its value, if present.
#[verifier::external_body]
fn kv_shard_remove(m: &mut KvShard, k: &String)
    ensures
        kv_shard_contents(*final(m)) == kv_shard_contents(*old(m)).remove(k@),
{
    m.remove(k);
}

/// Calls `DashMap::with_capacity`, which makes an empty map.
#[verifier::external_body]
fn zset_shard_with_capacity(capacity: usize) -> (m: ZsetShard)
    ensures
        zset_shard_contents(m).dom() == Set::<Seq<char>>::empty(),
{
    DashMap::with_capacity(capacity)
}

/// Calls `DashMap::insert`, which maps `k` to the set `v`, replacing any
/// former set of `k` and leaving the other keys as they were.
#[verifier::external_body]
fn zset_shard_insert(m: &mut ZsetShard, k: String, v: SortValues)
    ensures
        zset_shard_contents(*final(m)) == zset_shard_contents(*old(m)).insert(k@, (v@, v.buckets())),
{
    m.insert(k, v);
}

/// Calls `DashMap::remove`, which takes `k` and its set out of the map, and
/// hands back the set.
#[verifier::external_body]
fn zset_shard_remove(m: &mut ZsetShard, k: &String) -> (r: Option<SortValues>)
    ensures
        zset_shard_contents(*final(m)) == zset_shard_contents(*old(m)).remove(k@),
        match r {
            Some(v) => zset_shard_contents(*old(m)).contains_key(k@)
                && (v@, v.buckets()) == zset_shard_contents(*old(m))[k@],
            None => !zset_shard_contents(*old(m)).contains_key(k@),
        },
{
    m.remove(k).map(|kv| kv.1)
}

/// Calls `DashMap::contains_key`, which tells whether `k` has a set.
#[verifier::external_body]
fn zset_shard_contains(m: &ZsetShard, k: &String) -> (r: bool)
    ensures
        r == zset_shard_contents(*m).contains_key(k@),
{
    m.contains_key(k)
}

/// Calls `DashMap::view`, which hands the set found under `k`, if any, to
/// the closure; the closure queries it with the verified `SortValues::range`,
/// whose contract the result then meets.
#[verifier::external_body]
fn zset_shard_range(m: &ZsetShard, k: &String, min: u32, max: u32) -> (r: Option<Vec<ScoreValue>>)
    ensures
        match r {
            Some(out) => zset_shard_contents(*m).contains_key(k@)
                && is_range_of(zset_shard_contents(*m)[k@].0, min, max, out@)
                && members(out@) == listing(zset_shard_contents(*m)[k@].1, min as int, max as int),
            None => !zset_shard_contents(*m).contains_key(k@),
        },
{
    m.view(k, |_k, v| v.range(min, max))
}

/// `order` with the key `k` taken out, if it is there.
pub open spec fn without_key(order: Seq<Seq<char>>, k: Seq<char>) -> Seq<Seq<char>> {
    if order.contains(k) {
        order.remove(order.index_of(k))
    } else {
        order
    }
}

/// The order of use after a use of `k`: a key held moves to the end, as the
/// most recently used; a key not held leaves the order as it was.
pub open spec fn touch(order: Seq<Seq<char>>, k: Seq<char>) -> Seq<Seq<char>> {
    if order.contains(k) {
        without_key(order, k).push(k)
    } else {
        order
    }
}

/// The order of use after a use of each of `keys`, in turn.
pub open spec fn touch_all(order: Seq<Seq<char>>, keys: Seq<Seq<char>>) -> Seq<Seq<char>>
    decreases keys.len(),
{
    if keys.len() == 0 {
        order
    } else {
        touch(touch_all(order, keys.drop_last()), keys.last())
    }
}

/// The values and the order of use after `v` is stored under `k`, on a node
/// that holds at most `cap` values. A key held takes the new value and
/// becomes the most recently used. A new key is added as the most recently
/// used, after the least recently used key, `order[0]`, is evicted when the
/// node is full.
pub open spec fn lru_put(
    kv: Map<Seq<char>, Seq<char>>,
    order: Seq<Seq<char>>,
    cap: nat,
    k: Seq<char>,
    v: Seq<char>,
) -> (Map<Seq<char>, Seq<char>>, Seq<Seq<char>>) {
    if kv.contains_key(k) {
        (kv.insert(k, v), without_key(order, k).push(k))
    } else if order.len() < cap {
        (kv.insert(k, v), order.push(k))
    } else {
        (kv.remove(order[0]).insert(k, v), order.drop_first().push(k))
    }
}

/// The values and order of use after storing each pair of `ps`, in order.
pub open spec fn put_all(
    kv: Map<Seq<char>, Seq<char>>,
    order: Seq<Seq<char>>,
    cap: nat,
    ps: Seq<(Seq<char>, Seq<char>)>,
) -> (Map<Seq<char>, Seq<char>>, Seq<Seq<char>>)
    decreases ps.len(),
{
    if ps.len() == 0 {
        (kv, order)
    } else {
        let before = put_all(kv, order, cap, ps.drop_last());
        lru_put(before.0, before.1, cap, ps.last().0, ps.last().1)
    }
}

/// The order of use lists exactly the keys held, each once, and no more
/// than `cap` of them.
pub open spec fn lru_ok(kv: Map<Seq<char>, Seq<char>>, order: Seq<Seq<char>>, cap: nat) -> bool {
    &&& cap > 0
    &&& order.no_duplicates()
    &&& order.len() <= cap
    &&& forall|x: Seq<char>| kv.contains_key(x) <==> order.contains(x)
}

/// Taking the key at `j` out of an order without repeats: `j` is the key's
/// position, the rest keeps no repeats, and only that key is gone.
proof fn lemma_take_key(order: Seq<Seq<char>>, j: int)
    requires
        order.no_duplicates(),
        0 <= j < order.len(),
    ensures
        order.index_of(order[j]) == j,
        order.remove(j).no_duplicates(),
        forall|x: Seq<char>| order.remove(j).contains(x) <==> (order.contains(x) && x != order[j]),
{
    let k = order[j];
    assert(order.contains(k));
    let i = order.index_of(k);
    assert(order[i] == k);
    let r = order.remove(j);
    assert forall|x: Seq<char>| r.contains(x) <==> (order.contains(x) && x != k) by {
        if r.contains(x) {
            let a = choose|a: int| 0 <= a < r.len() && r[a] == x;
            if a < j {
                assert(order[a] == x);
            } else {
                assert(order[a + 1] == x);
            }
        }
        if order.contains(x) && x != k {
            let a = choose|a: int| 0 <= a < order.len() && order[a] == x;
            if a < j {
                assert(r[a] == x);
            } else {
                assert(a != j);
                assert(r[a - 1] == x);
            }
        }
    }
    assert forall|a: int, b: int| 0 <= a < b < r.len() implies r[a] != r[b] by {
        let a2 = if a < j { a } else { a + 1 };
        let b2 = if b < j { b } else { b + 1 };
        assert(r[a] == order[a2]);
        assert(r[b] == order[b2]);
    }
}

/// Appending a key that is absent keeps an order free of repeats.
proof fn lemma_push_new(order: Seq<Seq<char>>, k: Seq<char>)
    requires
        order.no_duplicates(),
        !order.contains(k),
    ensures
        order.push(k).no_duplicates(),
        forall|x: Seq<char>| order.push(k).contains(x) <==> (order.contains(x) || x == k),
{
    let p = order.push(k);
    assert forall|x: Seq<char>| p.contains(x) <==> (order.contains(x) || x == k) by {
        if p.contains(x) {
            let a = choose|a: int| 0 <= a < p.len() && p[a] == x;
            if a < order.len() {
                assert(order[a] == x);
            }
        }
        if order.contains(x) {
            let a = choose|a: int| 0 <= a < order.len() && order[a] == x;
            assert(p[a] == x);
        }
        if x == k {
            assert(p[order.len() as int] == x);
        }
    }
    assert forall|a: int, b: int| 0 <= a < b < p.len() implies p[a] != p[b] by {
        if b == order.len() {
            assert(order.contains(p[a]));
        } else {
            assert(p[a] == order[a] && p[b] == order[b]);
        }
    }
}

/// The keys of `order` other than `k`, in the order they stand.
pub open spec fn others(order: Seq<Seq<char>>, k: Seq<char>) -> Seq<Seq<char>> {
    order.filter(|x: Seq<char>| x != k)
}

/// Leaving out a key that is absent leaves the order as it is.
proof fn lemma_others_absent(order: Seq<Seq<char>>, k: Seq<char>)
    requires
        !order.contains(k),
    ensures
        others(order, k) == order,
    decreases order.len(),
{
    reveal(Seq::filter);
    if order.len() > 0 {
        let init = order.drop_last();
        if init.contains(k) {
            let a = choose|a: int| 0 <= a < init.len() && init[a] == k;
            assert(order[a] == k);
        }
        lemma_others_absent(init, k);
        assert(order[order.len() - 1] == order.last());
        assert(order.last() != k);
        assert(others(order, k) == others(init, k).push(order.last()));
        assert(init.push(order.last()) =~= order);
    }
}

/// In an order without repeats, taking out the key at `j` leaves the other
/// keys in the order they stood.
proof fn lemma_others_remove(order: Seq<Seq<char>>, j: int)
    requires
        order.no_duplicates(),
        0 <= j < order.len(),
    ensures
        order.remove(j) == others(order, order[j]),
    decreases order.len(),
{
    reveal(Seq::filter);
    let k = order[j];
    let n = order.len() as int;
    let init = order.drop_last();
    if j == n - 1 {
        assert(order.remove(j) =~= init);
        if init.contains(k) {
            let a = choose|a: int| 0 <= a < init.len() && init[a] == k;
            assert(order[a] == order[j]);
        }
        lemma_others_absent(init, k);
        assert(others(order, k) == others(init, k));
    } else {
        assert forall|a: int, b: int| 0 <= a < b < init.len() implies init[a] != init[b] by {
            assert(init[a] == order[a] && init[b] == order[b]);
        }
        assert(init[j] == k);
        lemma_others_remove(init, j);
        assert(order[n - 1] != k);
        assert(others(order, k) == others(init, k).push(order.last()));
        assert(order.remove(j) =~= init.remove(j).push(order.last()));
    }
}

/// A read of a held key makes it the most recently used key and leaves the
/// other keys in the order of use they had, wherever the key stood; a read
/// of a key not held leaves the order as it was. Either way the order keeps
/// the same keys, each once.
pub proof fn law_read_refreshes(order: Seq<Seq<char>>, k: Seq<char>)
    requires
        order.no_duplicates(),
    ensures
        order.contains(k) ==> touch(order, k).len() == order.len() && touch(order, k).last() == k
            && touch(order, k).drop_last() == others(order, k),
        !order.contains(k) ==> touch(order, k) == order,
        touch(order, k).no_duplicates(),
        forall|x: Seq<char>| #[trigger] touch(order, k).contains(x) <==> order.contains(x),
{
    if order.contains(k) {
        let j = order.index_of(k);
        assert(order[j] == k);
        lemma_take_key(order, j);
        lemma_others_remove(order, j);
        assert(!order.remove(j).contains(k));
        lemma_push_new(order.remove(j), k);
        assert(touch(order, k) == order.remove(j).push(k));
        assert(touch(order, k).drop_last() =~= order.remove(j));
    }
}

/// A multi-key read changes the order of use as single reads of the same
/// keys, one after another, would: reading one more key is one more read.
/// The keys held stay the same, each once, and the last key read, if held,
/// ends as the most recently used.
pub proof fn law_list_reads_in_turn(order: Seq<Seq<char>>, keys: Seq<Seq<char>>, k: Seq<char>)
    requires
        order.no_duplicates(),
    ensures
        touch_all(order, Seq::empty()) == order,
        touch_all(order, keys.push(k)) == touch(touch_all(order, keys), k),
        touch_all(order, keys).no_duplicates(),
        forall|x: Seq<char>| #[trigger] touch_all(order, keys).contains(x) <==> order.contains(x),
        order.contains(k) ==> touch_all(order, keys.push(k)).last() == k,
    decreases keys.len(),
{
    assert(keys.push(k).drop_last() =~= keys);
    if keys.len() > 0 {
        law_list_reads_in_turn(order, keys.drop_last(), keys.last());
        assert(keys.drop_last().push(keys.last()) =~= keys);
        law_read_refreshes(touch_all(order, keys.drop_last()), keys.last());
    }
    law_read_refreshes(touch_all(order, keys), k);
}

/// Storing a value keeps the order of use consistent with the values held
/// and within the bound; the key stored holds its value and is the most
/// recently used; when a new key finds the node full, the least recently
/// used key, and it alone, is evicted; otherwise no key is lost.
pub proof fn law_lru_put(kv: Map<Seq<char>, Seq<char>>, order: Seq<Seq<char>>, cap: nat, k: Seq<char>, v: Seq<char>)
    requires
        lru_ok(kv, order, cap),
    ensures
        lru_ok(lru_put(kv, order, cap, k, v).0, lru_put(kv, order, cap, k, v).1, cap),
        lru_put(kv, order, cap, k, v).0.contains_key(k),
        lru_put(kv, order, cap, k, v).0[k] == v,
        lru_put(kv, order, cap, k, v).1.last() == k,
        !kv.contains_key(k) && order.len() == cap ==> !lru_put(kv, order, cap, k, v).0.contains_key(order[0])
            && forall|x: Seq<char>| kv.contains_key(x) && x != order[0]
                ==> #[trigger] lru_put(kv, order, cap, k, v).0.contains_key(x),
        kv.contains_key(k) || order.len() < cap ==> forall|x: Seq<char>|
            kv.contains_key(x) ==> #[trigger] lru_put(kv, order, cap, k, v).0.contains_key(x),
        forall|x: Seq<char>| x != k && #[trigger] lru_put(kv, order, cap, k, v).0.contains_key(x)
            ==> kv.contains_key(x) && lru_put(kv, order, cap, k, v).0[x] == kv[x],
{
    let r = lru_put(kv, order, cap, k, v);
    if kv.contains_key(k) {
        let j = order.index_of(k);
        assert(order.contains(k));
        assert(order[j] == k);
        lemma_take_key(order, j);
        lemma_push_new(order.remove(j), k);
        assert forall|x: Seq<char>| r.0.contains_key(x) <==> r.1.contains(x) by {
            assert(order.remove(j).push(k).contains(x) <==> (order.remove(j).contains(x) || x == k));
            assert(order.remove(j).contains(x) <==> (order.contains(x) && x != k));
        }
    } else if order.len() < cap {
        assert(!order.contains(k));
        lemma_push_new(order, k);
        assert forall|x: Seq<char>| r.0.contains_key(x) <==> r.1.contains(x) by {
            assert(order.push(k).contains(x) <==> (order.contains(x) || x == k));
        }
    } else {
        lemma_take_key(order, 0);
        assert(order.remove(0) =~= order.drop_first());
        assert(order.contains(order[0]));
        assert(!order.contains(k));
        assert(!order.remove(0).contains(k));
        lemma_push_new(order.drop_first(), k);
        assert forall|x: Seq<char>| r.0.contains_key(x) <==> r.1.contains(x) by {
            assert(order.drop_first().push(k).contains(x) <==> (order.drop_first().contains(x) || x == k));
            assert(order.remove(0).contains(x) <==> (order.contains(x) && x != order[0]));
        }
    }
}

/// After a batch is stored, a key still held that the batch names holds the
/// value of the last request for it, and a key the batch does not name is
/// held, if at all, with the value it had.
pub proof fn law_batch_last_write_wins(
    kv: Map<Seq<char>, Seq<char>>,
    order: Seq<Seq<char>>,
    cap: nat,
    reqs: Seq<(Seq<char>, Seq<char>)>,
    k: Seq<char>,
)
    ensures
        forall|i: int| 0 <= i < reqs.len() && (#[trigger] reqs[i]).0 == k
            && (forall|j: int| i < j < reqs.len() ==> reqs[j].0 != k)
            && put_all(kv, order, cap, reqs).0.contains_key(k)
            ==> put_all(kv, order, cap, reqs).0[k] == reqs[i].1,
        (forall|i: int| 0 <= i < reqs.len() ==> (#[trigger] reqs[i]).0 != k)
            && put_all(kv, order, cap, reqs).0.contains_key(k)
            ==> kv.contains_key(k) && put_all(kv, order, cap, reqs).0[k] == kv[k],
    decreases reqs.len(),
{
    if reqs.len() > 0 {
        let init = reqs.drop_last();
        law_batch_last_write_wins(kv, order, cap, init, k);
        let before = put_all(kv, order, cap, init);
        let after = put_all(kv, order, cap, reqs);
        assert(after == lru_put(before.0, before.1, cap, reqs.last().0, reqs.last().1));
        assert forall|i: int| 0 <= i < reqs.len() && (#[trigger] reqs[i]).0 == k
            && (forall|j: int| i < j < reqs.len() ==> reqs[j].0 != k)
            && after.0.contains_key(k)
            implies after.0[k] == reqs[i].1 by {
            if i < reqs.len() - 1 {
                assert(reqs[reqs.len() - 1].0 != k);
                assert(init[i] == reqs[i]);
                assert forall|j: int| i < j < init.len() implies init[j].0 != k by {
                    assert(init[j] == reqs[j]);
                }
            }
        }
        if (forall|i: int| 0 <= i < reqs.len() ==> (#[trigger] reqs[i]).0 != k) && after.0.contains_key(k) {
            assert(reqs[reqs.len() - 1].0 != k);
            assert forall|i: int| 0 <= i < init.len() implies (#[trigger] init[i]).0 != k by {
                assert(init[i] == reqs[i]);
            }
        }
    }
}

/// A multi-key read lists only stored pairs, at most one per key asked, and
/// when every key asked is stored it lists all of them, in the order asked.
pub proof fn law_list_finds_stored_keys(kv: Map<Seq<char>, Seq<char>>, keys: Seq<Seq<char>>)
    ensures
        listed(kv, keys).len() <= keys.len(),
        forall|i: int| 0 <= i < listed(kv, keys).len() ==> kv.contains_key((#[trigger] listed(kv, keys)[i]).0)
            && kv[listed(kv, keys)[i].0] == listed(kv, keys)[i].1,
        (forall|i: int| 0 <= i < keys.len() ==> kv.contains_key(#[trigger] keys[i])) ==> (
            listed(kv, keys).len() == keys.len()
            && forall|i: int| 0 <= i < keys.len() ==> (#[trigger] listed(kv, keys)[i]).0 == keys[i]),
    decreases keys.len(),
{
    if keys.len() > 0 {
        let init = keys.drop_last();
        law_list_finds_stored_keys(kv, init);
        if forall|i: int| 0 <= i < keys.len() ==> kv.contains_key(#[trigger] keys[i]) {
            assert forall|i: int| 0 <= i < init.len() implies kv.contains_key(#[trigger] init[i]) by {
                assert(init[i] == keys[i]);
            }
            assert(kv.contains_key(keys[keys.len() - 1]));
            assert forall|i: int| 0 <= i < keys.len() implies (#[trigger] listed(kv, keys)[i]).0 == keys[i] by {
                if i < init.len() {
                    assert(init[i] == keys[i]);
                }
            }
        }
    }
}

/// Loading records from disk stores no key that the node does not serve,
/// unless the key was already stored.
pub proof fn law_load_keeps_served_keys(
    kv: Map<Seq<char>, Seq<char>>,
    order: Seq<Seq<char>>,
    cap: nat,
    node: usize,
    records: Seq<(Seq<char>, Seq<char>)>,
    k: Seq<char>,
)
    ensures
        put_all(kv, order, cap, served_pairs(node, records)).0.contains_key(k) ==> kv.contains_key(k) || serves(node, k),
{
    let ps = served_pairs(node, records);
    lemma_put_all_keys(kv, order, cap, ps, k);
    if put_all(kv, order, cap, ps).0.contains_key(k) && !kv.contains_key(k) {
        let i = choose|i: int| 0 <= i < ps.len() && ps[i].0 == k;
        records.lemma_filter_pred(|p: (Seq<char>, Seq<char>)| serves(node, p.0), i);
    }
}

/// Storing a batch on a node with room for all of it evicts nothing: the
/// order of use stays consistent with the values held, grows by at most one
/// key per pair, and every key held before is still held.
proof fn lemma_put_all_room(
    kv: Map<Seq<char>, Seq<char>>,
    order: Seq<Seq<char>>,
    cap: nat,
    ps: Seq<(Seq<char>, Seq<char>)>,
)
    requires
        lru_ok(kv, order, cap),
        order.len() + ps.len() <= cap,
    ensures
        lru_ok(put_all(kv, order, cap, ps).0, put_all(kv, order, cap, ps).1, cap),
        put_all(kv, order, cap, ps).1.len() <= order.len() + ps.len(),
        forall|x: Seq<char>| kv.contains_key(x) ==> #[trigger] put_all(kv, order, cap, ps).0.contains_key(x),
    decreases ps.len(),
{
    if ps.len() > 0 {
        let init = ps.drop_last();
        lemma_put_all_room(kv, order, cap, init);
        let b = put_all(kv, order, cap, init);
        let k = ps.last().0;
        law_lru_put(b.0, b.1, cap, k, ps.last().1);
        if b.0.contains_key(k) {
            let j = b.1.index_of(k);
            assert(b.1.contains(k));
            assert(b.1[j] == k);
        }
        assert forall|x: Seq<char>| kv.contains_key(x) implies #[trigger] put_all(kv, order, cap, ps).0.contains_key(x) by {
            assert(b.0.contains_key(x));
        }
    }
}

/// Loading records on a node with room for them keeps every record whose
/// key the node serves: each such key is held afterwards with the value of
/// its last record, no key held before is lost, and the order of use stays
/// consistent with the values held.
pub proof fn law_load_keeps_served_records(
    kv: Map<Seq<char>, Seq<char>>,
    order: Seq<Seq<char>>,
    cap: nat,
    node: usize,
    records: Seq<(Seq<char>, Seq<char>)>,
)
    requires
        lru_ok(kv, order, cap),
        order.len() + records.len() <= cap,
    ensures
        lru_ok(
            put_all(kv, order, cap, served_pairs(node, records)).0,
            put_all(kv, order, cap, served_pairs(node, records)).1,
            cap,
        ),
        forall|x: Seq<char>| kv.contains_key(x)
            ==> #[trigger] put_all(kv, order, cap, served_pairs(node, records)).0.contains_key(x),
        forall|i: int| 0 <= i < records.len() && serves(node, (#[trigger] records[i]).0)
            && (forall|j: int| i < j < records.len() ==> records[j].0 != records[i].0)
            ==> put_all(kv, order, cap, served_pairs(node, records)).0.contains_key(records[i].0)
            && put_all(kv, order, cap, served_pairs(node, records)).0[records[i].0] == records[i].1,
    decreases records.len(),
{
    let ps = served_pairs(node, records);
    records.lemma_filter_len(|p: (Seq<char>, Seq<char>)| serves(node, p.0));
    lemma_put_all_room(kv, order, cap, ps);
    if records.len() > 0 {
        let n = records.len() as int;
        let init = records.drop_last();
        let l = records.last();
        law_load_keeps_served_records(kv, order, cap, node, init);
        let ps0 = served_pairs(node, init);
        init.lemma_filter_len(|p: (Seq<char>, Seq<char>)| serves(node, p.0));
        lemma_put_all_room(kv, order, cap, ps0);
        let b = put_all(kv, order, cap, ps0);
        let r = put_all(kv, order, cap, ps);
        reveal(Seq::filter);
        if serves(node, l.0) {
            assert(ps == ps0.push(l));
            assert(ps.drop_last() =~= ps0);
            assert(r == lru_put(b.0, b.1, cap, l.0, l.1));
            law_lru_put(b.0, b.1, cap, l.0, l.1);
        } else {
            assert(ps == ps0);
        }
        assert forall|i: int| 0 <= i < records.len() && serves(node, (#[trigger] records[i]).0)
            && (forall|j: int| i < j < records.len() ==> records[j].0 != records[i].0)
            implies r.0.contains_key(records[i].0) && r.0[records[i].0] == records[i].1 by {
            if i < n - 1 {
                assert(init[i] == records[i]);
                assert forall|j: int| i < j < init.len() implies init[j].0 != init[i].0 by {
                    assert(init[j] == records[j]);
                }
                assert(records[n - 1].0 != records[i].0);
                assert(b.0.contains_key(records[i].0));
            }
        }
    }
}

/// A key held after a batch was held before it or is named in it.
proof fn lemma_put_all_keys(
    kv: Map<Seq<char>, Seq<char>>,
    order: Seq<Seq<char>>,
    cap: nat,
    ps: Seq<(Seq<char>, Seq<char>)>,
    k: Seq<char>,
)
    ensures
        put_all(kv, order, cap, ps).0.contains_key(k) ==> kv.contains_key(k) || exists|i: int|
            0 <= i < ps.len() && ps[i].0 == k,
    decreases ps.len(),
{
    if ps.len() > 0 {
        lemma_put_all_keys(kv, order, cap, ps.drop_last(), k);
        if put_all(kv, order, cap, ps).0.contains_key(k) && !kv.contains_key(k) && ps.last().0 != k {
            let i = choose|i: int| 0 <= i < ps.drop_last().len() && ps.drop_last()[i].0 == k;
            assert(ps[i] == ps.drop_last()[i]);
        }
    }
}

/// A node's share of the data: plain values by key, and sorted sets by key,
/// each spread over `SHARD_NUM` shards by `shard_idx`. The node holds at
/// most `capacity` plain values and keeps their keys in order of use, least
/// recently used first.
pub struct Store {
    map_arr: Vec<KvShard>,
    zset_arr: Vec<ZsetShard>,
    capacity: usize,
    recency: Vec<String>,
}

/// The key-value pairs from `keys` that `kv` holds, in the order of `keys`.
pub open spec fn listed(kv: Map<Seq<char>, Seq<char>>, keys: Seq<Seq<char>>) -> Seq<(Seq<char>, Seq<char>)>
    decreases keys.len(),
{
    if keys.len() == 0 {
        Seq::empty()
    } else {
        let rest = listed(kv, keys.drop_last());
        let k = keys.last();
        if kv.contains_key(k) {
            rest.push((k, kv[k]))
        } else {
            rest
        }
    }
}

/// The pairs of `reqs` whose keys node `node` serves, in order.
pub open spec fn served_pairs(node: usize, reqs: Seq<(Seq<char>, Seq<char>)>) -> Seq<(Seq<char>, Seq<char>)> {
    reqs.filter(|p: (Seq<char>, Seq<char>)| serves(node, p.0))
}

/// The key and value texts of a sequence of requests.
pub open spec fn pairs(reqs: Seq<InsrtRequest>) -> Seq<(Seq<char>, Seq<char>)> {
    reqs.map_values(|r: InsrtRequest| (r.key@, r.value@))
}

/// The set stored under `key`, or the empty set.
pub open spec fn zset_or_empty(zsets: Map<Seq<char>, Map<Seq<char>, u32>>, key: Seq<char>) -> Map<Seq<char>, u32> {
    if zsets.contains_key(key) {
        zsets[key]
    } else {
        Map::empty()
    }
}

/// Whether the node with 0-based index `node` serves `key`: its bit is set
/// in the key's owner mask.
pub open spec fn serves(node: usize, key: Seq<char>) -> bool {
    mask_has_node(cluster_spec(key), node as int)
}

/// A well-formed store holds at most its capacity of plain values, and its
/// order of use lists exactly the keys of those values, each once.
pub proof fn law_store_within_capacity(s: Store)
    requires
        s.wf(),
    ensures
        lru_ok(s.kv(), s.order(), s.cap()),
        s.order().len() <= s.cap(),
{
}

/// Number of plain values a node holds before it evicts.
pub const KV_CAPACITY: usize = 1024 * 1024;

impl Store {
    /// The shards are `SHARD_NUM` of each kind, each key lives in the shard
    /// that `shard_idx` gives it, and the order of use lists exactly the
    /// keys of the plain values held, each once, within the capacity.
    pub closed spec fn wf(&self) -> bool {
        &&& self.map_arr@.len() == SHARD_NUM
        &&& self.zset_arr@.len() == SHARD_NUM
        &&& forall|i: int, k: Seq<char>|
            0 <= i < SHARD_NUM && #[trigger] kv_shard_contents(self.map_arr@[i]).contains_key(k)
                ==> shard_spec(k) == i
        &&& forall|i: int, k: Seq<char>|
            0 <= i < SHARD_NUM && #[trigger] zset_shard_contents(self.zset_arr@[i]).contains_key(k)
                ==> shard_spec(k) == i
        &&& lru_ok(self.kv(), self.order(), self.cap())
    }

    /// The plain values held, by key.
    pub closed spec fn kv(&self) -> Map<Seq<char>, Seq<char>> {
        Map::new(
            |k: Seq<char>| kv_shard_contents(self.map_arr@[shard_spec(k)]).contains_key(k),
            |k: Seq<char>| kv_shard_contents(self.map_arr@[shard_spec(k)])[k],
        )
    }

    /// The keys of the plain values held, least recently used first.
    pub closed spec fn order(&self) -> Seq<Seq<char>> {
        texts(self.recency@)
    }

    /// The most plain values the node holds.
    pub closed spec fn cap(&self) -> nat {
        self.capacity as nat
    }

    /// The sorted sets held, by key.
    pub closed spec fn zsets(&self) -> Map<Seq<char>, Map<Seq<char>, u32>> {
        Map::new(
            |k: Seq<char>| zset_shard_contents(self.zset_arr@[shard_spec(k)]).contains_key(k),
            |k: Seq<char>| zset_shard_contents(self.zset_arr@[shard_spec(k)])[k].0,
        )
    }

    /// The score index of each sorted set held, by key.
    pub closed spec fn zset_buckets(&self) -> Map<Seq<char>, Map<u32, Seq<Seq<char>>>> {
        Map::new(
            |k: Seq<char>| zset_shard_contents(self.zset_arr@[shard_spec(k)]).contains_key(k),
            |k: Seq<char>| zset_shard_contents(self.zset_arr@[shard_spec(k)])[k].1,
        )
    }

    /// An empty store that holds up to `KV_CAPACITY` plain values.
    pub fn new() -> (r: Store)
        ensures
            r.wf(),
            r.kv() == Map::<Seq<char>, Seq<char>>::empty(),
            r.order() == Seq::<Seq<char>>::empty(),
            r.cap() == KV_CAPACITY,
            r.zsets() == Map::<Seq<char>, Map<Seq<char>, u32>>::empty(),
    {
        Store::with_capacity(KV_CAPACITY)
    }

    /// An empty store that holds up to `capacity` plain values.
    pub fn with_capacity(capacity: usize) -> (r: Store)
        requires
            capacity > 0,
        ensures
            r.wf(),
            r.kv() == Map::<Seq<char>, Seq<char>>::empty(),
            r.order() == Seq::<Seq<char>>::empty(),
            r.cap() == capacity,
            r.zsets() == Map::<Seq<char>, Map<Seq<char>, u32>>::empty(),
    {
        let mut vec: Vec<KvShard> = Vec::new();
        for _i in 0..SHARD_NUM
            invariant
                vec@.len() == _i,
                forall|j: int| 0 <= j < vec@.len() ==> kv_shard_contents(#[trigger] vec@[j]) == Map::<Seq<char>, Seq<char>>::empty(),
        {
            vec.push(kv_shard_with_capacity(DEFAULT_KV_SIZE));
        }
        let mut set_vec: Vec<ZsetShard> = Vec::new();
        for _i in 0..SHARD_NUM
            invariant
                set_vec@.len() == _i,
                forall|j: int| 0 <= j < set_vec@.len() ==> zset_shard_contents(#[trigger] set_vec@[j]).dom() == Set::<Seq<char>>::empty(),
        {
            set_vec.push(zset_shard_with_capacity(DEFAULT_SIZE));
        }
        let r = Store { map_arr: vec, zset_arr: set_vec, capacity, recency: Vec::new() };
        assert(r.kv() =~= Map::<Seq<char>, Seq<char>>::empty());
        assert(r.zsets() =~= Map::<Seq<char>, Map<Seq<char>, u32>>::empty());
        assert(r.order() =~= Seq::<Seq<char>>::empty());
        r
    }

    /// Stores `req.value` under `req.key` on this node, whatever node serves
    /// the key, evicting the least recently used value when a new key finds
    /// the node full.
    pub fn insert_local(&mut self, req: InsrtRequest)
        requires
            old(self).wf(),
        ensures
            final(self).wf(),
            (final(self).kv(), final(self).order()) == lru_put(old(self).kv(), old(self).order(), old(self).cap(), req.key@, req.value@),
            final(self).cap() == old(self).cap(),
            final(self).zsets() == old(self).zsets(),
    {
        let ghost k = req.key@;
        let ghost v = req.value@;
        let ghost kv0 = self.kv();
        let ghost ord0 = self.order();
        let ghost expected = lru_put(kv0, ord0, self.cap(), k, v);
        proof {
            law_lru_put(kv0, ord0, self.cap(), k, v);
        }
        let found = remove_text(&mut self.recency, &req.key);
        proof {
            if found is Some {
                lemma_take_key(ord0, found.unwrap() as int);
                assert(texts(self.recency@) =~= ord0.remove(found.unwrap() as int));
                assert(ord0.contains(k));
            } else {
                assert(!ord0.contains(k)) by {
                    if ord0.contains(k) {
                        let a = choose|a: int| 0 <= a < ord0.len() && ord0[a] == k;
                        assert(texts(old(self).recency@)[a] == k);
                    }
                }
            }
        }
        if found.is_none() && self.recency.len() >= self.capacity {
            let victim = self.recency.remove(0);
            proof {
                assert(texts(self.recency@) =~= ord0.drop_first());
                assert(victim@ == ord0[0]);
            }
            let vi = shard_idx(&victim);
            kv_shard_remove(&mut self.map_arr[vi], &victim);
            proof {
                assert(self.kv() =~= kv0.remove(ord0[0]));
            }
        }
        let ghost kv1 = self.kv();
        let i = shard_idx(&req.key);
        self.recency.push(req.key.clone());
        kv_shard_insert(&mut self.map_arr[i], req.key, req.value);
        proof {
            assert(self.kv() =~= kv1.insert(k, v));
            assert(self.kv() =~= expected.0);
            assert(self.order() =~= expected.1);
            assert(self.zsets() =~= old(self).zsets());
        }
    }

    /// The value stored under `k` on this node, if any; reading a key held
    /// makes it the most recently used.
    pub fn local_get(&mut self, k: &String) -> (r: Option<String>)
        requires
            old(self).wf(),
        ensures
            final(self).wf(),
            match r {
                Some(v) => old(self).kv().contains_key(k@) && v@ == old(self).kv()[k@],
                None => !old(self).kv().contains_key(k@),
            },
            final(self).kv() == old(self).kv(),
            final(self).order() == touch(old(self).order(), k@),
            final(self).cap() == old(self).cap(),
            final(self).zsets() == old(self).zsets(),
    {
        let ghost ord0 = self.order();
        let r = kv_shard_get(&self.map_arr[shard_idx(k)], k);
        if r.is_some() {
            let found = remove_text(&mut self.recency, k);
            proof {
                assert(ord0.contains(k@));
                if found is None {
                    let a = choose|a: int| 0 <= a < ord0.len() && ord0[a] == k@;
                    assert(texts(old(self).recency@)[a] == k@);
                }
            }
            let ghost j = found.unwrap() as int;
            proof {
                lemma_take_key(ord0, j);
                assert(texts(self.recency@) =~= ord0.remove(j));
                lemma_push_new(ord0.remove(j), k@);
            }
            self.recency.push(k.clone());
            proof {
                assert(self.order() =~= ord0.remove(j).push(k@));
                assert(self.order() =~= touch(ord0, k@));
                assert forall|x: Seq<char>| self.kv().contains_key(x) <==> self.order().contains(x) by {
                    assert(self.kv() == old(self).kv());
                    assert(ord0.remove(j).push(k@).contains(x) <==> (ord0.remove(j).contains(x) || x == k@));
                    assert(ord0.remove(j).contains(x) <==> (ord0.contains(x) && x != k@));
                }
            }
        }
        proof {
            assert(self.kv() =~= old(self).kv());
        }
        r
    }

    /// Deletes the value stored under `k` on this node, whatever node
    /// serves the key.
    pub fn del_local(&mut self, k: &String)
        requires
            old(self).wf(),
        ensures
            final(self).wf(),
            final(self).kv() == old(self).kv().remove(k@),
            final(self).order() == without_key(old(self).order(), k@),
            final(self).cap() == old(self).cap(),
            final(self).zsets() == old(self).zsets(),
    {
        let ghost ord0 = self.order();
        let found = remove_text(&mut self.recency, k);
        proof {
            if found is Some {
                lemma_take_key(ord0, found.unwrap() as int);
                assert(texts(self.recency@) =~= ord0.remove(found.unwrap() as int));
            } else {
                if ord0.contains(k@) {
                    let a = choose|a: int| 0 <= a < ord0.len() && ord0[a] == k@;
                    assert(texts(old(self).recency@)[a] == k@);
                }
                assert(texts(self.recency@) =~= ord0);
            }
        }
        let i = shard_idx(k);
        kv_shard_remove(&mut self.map_arr[i], k);
        assert(self.kv() =~= old(self).kv().remove(k@));
        assert(self.zsets() =~= old(self).zsets());
        assert forall|x: Seq<char>| self.kv().contains_key(x) <==> self.order().contains(x) by {
            assert(old(self).kv().contains_key(x) <==> ord0.contains(x));
        }
    }

    /// Stores `req.value` under `req.key` if node `node` serves the key, as
    /// `insert_local` does; otherwise leaves the store as it is.
    pub fn insert(&mut self, node: usize, req: InsrtRequest)
        requires
            old(self).wf(),
        ensures
            final(self).wf(),
            (final(self).kv(), final(self).order()) == if serves(node, req.key@) {
                lru_put(old(self).kv(), old(self).order(), old(self).cap(), req.key@, req.value@)
            } else {
                (old(self).kv(), old(self).order())
            },
            final(self).cap() == old(self).cap(),
            final(self).zsets() == old(self).zsets(),
    {
        if mask_serves(cluster_idx(req.key.as_str()), node) {
            self.insert_local(req);
        }
    }

    /// Deletes the value stored under `k` if node `node` serves the key;
    /// otherwise leaves the store as it is.
    pub fn del(&mut self, node: usize, k: &String)
        requires
            old(self).wf(),
        ensures
            final(self).wf(),
            (final(self).kv(), final(self).order()) == if serves(node, k@) {
                (old(self).kv().remove(k@), without_key(old(self).order(), k@))
            } else {
                (old(self).kv(), old(self).order())
            },
            final(self).cap() == old(self).cap(),
            final(self).zsets() == old(self).zsets(),
    {
        if mask_serves(cluster_idx(k.as_str()), node) {
            self.del_local(k);
        }
    }

    /// The value stored under `k` if node `node` serves the key, else `None`.
    pub fn get(&mut self, node: usize, k: &String) -> (r: Option<String>)
        requires
            old(self).wf(),
        ensures
            final(self).wf(),
            match r {
                Some(v) => serves(node, k@) && old(self).kv().contains_key(k@) && v@ == old(self).kv()[k@],
                None => !serves(node, k@) || !old(self).kv().contains_key(k@),
            },
            final(self).kv() == old(self).kv(),
            final(self).order() == if serves(node, k@) { touch(old(self).order(), k@) } else { old(self).order() },
            final(self).cap() == old(self).cap(),
            final(self).zsets() == old(self).zsets(),
    {
        if mask_serves(cluster_idx(k.as_str()), node) {
            self.local_get(k)
        } else {
            None
        }
    }

    /// The stored key-value pairs among `keys`, in the order of `keys`, read
    /// on this node whatever node serves each key; each key read is used.
    pub fn list(&mut self, keys: Vec<String>) -> (r: Vec<InsrtRequest>)
        requires
            old(self).wf(),
        ensures
            final(self).wf(),
            pairs(r@) == listed(old(self).kv(), texts(keys@)),
            final(self).kv() == old(self).kv(),
            final(self).order() == touch_all(old(self).order(), texts(keys@)),
            final(self).cap() == old(self).cap(),
            final(self).zsets() == old(self).zsets(),
    {
        let mut ret: Vec<InsrtRequest> = Vec::new();
        let mut i: usize = 0;
        proof {
            assert(texts(keys@.take(0)) =~= Seq::<Seq<char>>::empty());
        }
        while i < keys.len()
            invariant
                self.wf(),
                i <= keys@.len(),
                self.kv() == old(self).kv(),
                self.cap() == old(self).cap(),
                self.zsets() == old(self).zsets(),
                self.order() == touch_all(old(self).order(), texts(keys@.take(i as int))),
                pairs(ret@) == listed(self.kv(), texts(keys@.take(i as int))),
            decreases keys@.len() - i,
        {
            let k = &keys[i];
            match self.local_get(k) {
                None => {},
                Some(v) => {
                    ret.push(InsrtRequest::new(k.clone(), v));
                },
            }
            proof {
                assert(texts(keys@.take(i + 1)).drop_last() =~= texts(keys@.take(i as int)));
                assert(texts(keys@.take(i + 1)).last() == keys@[i as int]@);
                assert(pairs(ret@) =~= listed(self.kv(), texts(keys@.take(i + 1))));
            }
            i = i + 1;
        }
        assert(keys@.take(keys@.len() as int) =~= keys@);
        ret
    }

    /// Stores each request of `reqs` on this node, in order, as
    /// `insert_local` does.
    pub fn batch_insert(&mut self, reqs: Vec<InsrtRequest>)
        requires
            old(self).wf(),
        ensures
            final(self).wf(),
            (final(self).kv(), final(self).order()) == put_all(old(self).kv(), old(self).order(), old(self).cap(), pairs(reqs@)),
            final(self).cap() == old(self).cap(),
            final(self).zsets() == old(self).zsets(),
    {
        let ghost all = reqs@;
        let iter = reqs.into_iter();
        proof {
            assert(all.take(0) =~= Seq::<InsrtRequest>::empty());
            assert(pairs(all.take(0)) =~= Seq::<(Seq<char>, Seq<char>)>::empty());
        }
        for req in it: iter
            invariant
                it.seq() == all,
                self.wf(),
                (self.kv(), self.order()) == put_all(old(self).kv(), old(self).order(), old(self).cap(), pairs(all.take(it.index()))),
                self.cap() == old(self).cap(),
                self.zsets() == old(self).zsets(),
        {
            let ghost n = it.index();
            proof {
                assert(req == all[n]);
                assert(pairs(all.take(n + 1)).drop_last() =~= pairs(all.take(n)));
                assert(pairs(all.take(n + 1)).last() == (req.key@, req.value@));
            }
            self.insert_local(req);
        }
        assert(all.take(all.len() as int) =~= all);
    }

    /// Stores the records read from disk whose keys node `node` serves, in
    /// order, as `insert_local` does, and skips the others.
    pub fn load_records(&mut self, node: usize, records: Vec<InsrtRequest>)
        requires
            old(self).wf(),
        ensures
            final(self).wf(),
            (final(self).kv(), final(self).order()) == put_all(old(self).kv(), old(self).order(), old(self).cap(), served_pairs(node, pairs(records@))),
            final(self).cap() == old(self).cap(),
            final(self).zsets() == old(self).zsets(),
    {
        let ghost all = records@;
        let iter = records.into_iter();
        proof {
            assert(all.take(0) =~= Seq::<InsrtRequest>::empty());
            assert(pairs(all.take(0)) =~= Seq::<(Seq<char>, Seq<char>)>::empty());
            reveal(Seq::filter);
        }
        for req in it: iter
            invariant
                it.seq() == all,
                self.wf(),
                (self.kv(), self.order()) == put_all(old(self).kv(), old(self).order(), old(self).cap(), served_pairs(node, pairs(all.take(it.index())))),
                self.cap() == old(self).cap(),
                self.zsets() == old(self).zsets(),
        {
            let ghost n = it.index();
            proof {
                assert(req == all[n]);
                assert(pairs(all.take(n + 1)).drop_last() =~= pairs(all.take(n)));
                assert(pairs(all.take(n + 1)).last() == (req.key@, req.value@));
                reveal(Seq::filter);
                let p0 = pairs(all.take(n));
                let p1 = pairs(all.take(n + 1));
                if serves(node, req.key@) {
                    assert(served_pairs(node, p1) == served_pairs(node, p0).push((req.key@, req.value@)));
                    assert(served_pairs(node, p1).drop_last() =~= served_pairs(node, p0));
                } else {
                    assert(served_pairs(node, p1) == served_pairs(node, p0));
                }
            }
            if mask_serves(cluster_idx(req.key.as_str()), node) {
                self.insert_local(req);
            }
        }
        assert(all.take(all.len() as int) =~= all);
    }

    /// Gives `v.value` the score `v.score` in the set stored under `k`,
    /// making the set if there is none.
    pub fn do_insert(&mut self, k: String, v: ScoreValue)
        requires
            old(self).wf(),
        ensures
            final(self).wf(),
            final(self).zsets() == old(self).zsets().insert(
                k@,
                zset_or_empty(old(self).zsets(), k@).insert(v.value@, v.score),
            ),
            final(self).kv() == old(self).kv(),
            final(self).order() == old(self).order(),
            final(self).cap() == old(self).cap(),
    {
        let i = shard_idx(&k);
        let mut members = match zset_shard_remove(&mut self.zset_arr[i], &k) {
            Some(m) => m,
            None => SortValues::new(),
        };
        members.insert(v.value, v.score);
        let ghost key = k@;
        zset_shard_insert(&mut self.zset_arr[i], k, members);
        assert(self.zsets() =~= old(self).zsets().insert(key, zset_or_empty(old(self).zsets(), key).insert(v.value@, v.score)));
        assert(self.kv() =~= old(self).kv());
    }

    /// Gives `v.value` the score `v.score` in the set stored under `k`, on
    /// this node whatever node serves the key.
    pub fn zset_insert(&mut self, k: String, v: ScoreValue)
        requires
            old(self).wf(),
        ensures
            final(self).wf(),
            final(self).zsets() == old(self).zsets().insert(
                k@,
                zset_or_empty(old(self).zsets(), k@).insert(v.value@, v.score),
            ),
            final(self).kv() == old(self).kv(),
            final(self).order() == old(self).order(),
            final(self).cap() == old(self).cap(),
    {
        self.do_insert(k, v);
    }

    /// Removes `v` from the set stored under `k`, if the set exists, on this
    /// node whatever node serves the key; the set stays, even when emptied.
    pub fn remove_local(&mut self, k: &String, v: &String)
        requires
            old(self).wf(),
        ensures
            final(self).wf(),
            final(self).zsets() == if old(self).zsets().contains_key(k@) {
                old(self).zsets().insert(k@, old(self).zsets()[k@].remove(v@))
            } else {
                old(self).zsets()
            },
            final(self).kv() == old(self).kv(),
            final(self).order() == old(self).order(),
            final(self).cap() == old(self).cap(),
    {
        let i = shard_idx(k);
        if let Some(mut members) = zset_shard_remove(&mut self.zset_arr[i], k) {
            members.remove(v);
            zset_shard_insert(&mut self.zset_arr[i], k.clone(), members);
            assert(self.zsets() =~= old(self).zsets().insert(k@, old(self).zsets()[k@].remove(v@)));
        } else {
            assert(self.zsets() =~= old(self).zsets());
        }
        assert(self.kv() =~= old(self).kv());
    }

    /// Removes `v` from the set stored under `k`, if node `node` serves the
    /// key and the set exists; the set stays, even when emptied.
    pub fn remove(&mut self, node: usize, k: &String, v: &String)
        requires
            old(self).wf(),
        ensures
            final(self).wf(),
            final(self).zsets() == if serves(node, k@) && old(self).zsets().contains_key(k@) {
                old(self).zsets().insert(k@, old(self).zsets()[k@].remove(v@))
            } else {
                old(self).zsets()
            },
            final(self).kv() == old(self).kv(),
            final(self).order() == old(self).order(),
            final(self).cap() == old(self).cap(),
    {
        if mask_serves(cluster_idx(k.as_str()), node) {
            self.remove_local(k, v);
        }
    }

    /// Whether a sorted set is stored under `k`.
    pub fn has_zset(&self, k: &String) -> (r: bool)
        requires
            self.wf(),
        ensures
            r == self.zsets().contains_key(k@),
    {
        zset_shard_contains(&self.zset_arr[shard_idx(k)], k)
    }

    /// The members of the set stored under `k` whose score lies in the
    /// range, in order of score; empty when there is no such set. Read on
    /// this node whatever node serves the key.
    #[allow(non_snake_case)]
    pub fn range_Local(&self, k: &String, range: ScoreRange) -> (r: Vec<ScoreValue>)
        requires
            self.wf(),
            self.zsets().contains_key(k@) ==> range.min_score <= range.max_score,
        ensures
            if self.zsets().contains_key(k@) {
                &&& is_range_of(self.zsets()[k@], range.min_score, range.max_score, r@)
                &&& members(r@) == listing(self.zset_buckets()[k@], range.min_score as int, range.max_score as int)
            } else {
                r@.len() == 0
            },
    {
        match zset_shard_range(&self.zset_arr[shard_idx(k)], k, range.min_score, range.max_score) {
            Some(out) => out,
            None => Vec::new(),
        }
    }

    /// The members of the set stored under `k` whose score lies in the
    /// range, in order of score, if node `node` serves the key; else empty.
    pub fn range(&self, node: usize, k: &String, range: ScoreRange) -> (r: Vec<ScoreValue>)
        requires
            self.wf(),
            serves(node, k@) && self.zsets().contains_key(k@) ==> range.min_score <= range.max_score,
        ensures
            if serves(node, k@) && self.zsets().contains_key(k@) {
                &&& is_range_of(self.zsets()[k@], range.min_score, range.max_score, r@)
                &&& members(r@) == listing(self.zset_buckets()[k@], range.min_score as int, range.max_score as int)
            } else {
                r@.len() == 0
            },
    {
        if mask_serves(cluster_idx(k.as_str()), node) {
            self.range_Local(k, range)
        } else {
            Vec::new()
        }
    }
}

} // verus!
