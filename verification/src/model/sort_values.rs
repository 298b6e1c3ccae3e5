use vstd::prelude::*;
use std::collections::BTreeMap;
use vstd::hash_map::StringHashMap;
use crate::model::request::ScoreValue;
use vstd::std_specs::iter::IteratorSpec;

verus! {

broadcast use vstd::std_specs::btree::group_btree_axioms, vstd::laws_cmp::group_laws_cmp;

/// The texts of a sequence of strings.
pub open spec fn texts(vs: Seq<String>) -> Seq<Seq<char>> {
    vs.map_values(|s: String| s@)
}

/// `out` lists the members of `m` whose score lies in `[min, max]`, each
/// once, in order of score.
pub open spec fn is_range_of(m: Map<Seq<char>, u32>, min: u32, max: u32, out: Seq<ScoreValue>) -> bool {
    &&& forall|i: int, j: int|
        0 <= i < j < out.len() ==> out[i].score <= out[j].score && out[i].value@ != out[j].value@
    &&& forall|i: int|
        0 <= i < out.len() ==> min <= #[trigger] out[i].score <= max && m.contains_key(out[i].value@)
            && m[out[i].value@] == out[i].score
    &&& forall|v: Seq<char>|
        #![trigger m.contains_key(v)]
        m.contains_key(v) && min <= m[v] <= max ==> exists|i: int|
            0 <= i < out.len() && out[i].value@ == v
}

/// The scores and values of a range query's answer, in order.
pub open spec fn members(out: Seq<ScoreValue>) -> Seq<(u32, Seq<char>)> {
    out.map_values(|sv: ScoreValue| (sv.score, sv.value@))
}

/// The members in the bucket of score `s`, in bucket order.
pub open spec fn bucket_entries(b: Map<u32, Seq<Seq<char>>>, s: int) -> Seq<(u32, Seq<char>)> {
    if 0 <= s <= u32::MAX && b.contains_key(s as u32) {
        b[s as u32].map_values(|x: Seq<char>| (s as u32, x))
    } else {
        Seq::empty()
    }
}

/// The members of the buckets with scores from `lo` to `hi`, in order of
/// score and, within a bucket, in bucket order.
pub open spec fn listing(b: Map<u32, Seq<Seq<char>>>, lo: int, hi: int) -> Seq<(u32, Seq<char>)>
    decreases hi - lo + 1,
{
    if hi < lo {
        Seq::empty()
    } else {
        listing(b, lo, hi - 1) + bucket_entries(b, hi)
    }
}

/// Scores with no bucket add nothing to a listing.
proof fn lemma_listing_gap(b: Map<u32, Seq<Seq<char>>>, lo: int, a: int, c: int)
    requires
        a <= c,
        forall|s: int| a < s <= c ==> bucket_entries(b, s) == Seq::<(u32, Seq<char>)>::empty(),
    ensures
        listing(b, lo, c) == listing(b, lo, a),
    decreases c - a,
{
    if c > a {
        lemma_listing_gap(b, lo, a, c - 1);
        if c >= lo {
            assert(bucket_entries(b, c) == Seq::<(u32, Seq<char>)>::empty());
            assert(listing(b, lo, c) =~= listing(b, lo, c - 1));
        }
    }
}

/// How far a listing reaches before the `idx`-th key: up to the score just
/// below that key, or up to `max`, whichever is lower; all of `max` past the
/// last key.
pub open spec fn listing_bound(keys: Seq<u32>, idx: int, max: u32) -> int {
    if idx < keys.len() && (keys[idx] as int) - 1 < max as int {
        (keys[idx] as int) - 1
    } else {
        max as int
    }
}

/// `keys` lists the scores of `b` in increasing order.
pub open spec fn keys_of(b: Map<u32, Seq<Seq<char>>>, keys: Seq<u32>) -> bool {
    &&& forall|i: int, j: int| 0 <= i < j < keys.len() ==> keys[i] < keys[j]
    &&& forall|i: int| 0 <= i < keys.len() ==> b.contains_key(#[trigger] keys[i])
    &&& forall|s: u32| b.contains_key(s) ==> exists|i: int| 0 <= i < keys.len() && keys[i] == s
}

/// Before any key is visited, the listing up to the first bound is empty.
proof fn lemma_listing_start(b: Map<u32, Seq<Seq<char>>>, keys: Seq<u32>, min: u32, max: u32)
    requires
        keys_of(b, keys),
    ensures
        listing(b, min as int, listing_bound(keys, 0, max)) == Seq::<(u32, Seq<char>)>::empty(),
{
    let bound = listing_bound(keys, 0, max);
    if bound >= min as int {
        assert forall|s: int| (min as int) - 1 < s <= bound implies bucket_entries(b, s) == Seq::<(u32, Seq<char>)>::empty() by {
            if 0 <= s <= u32::MAX && b.contains_key(s as u32) {
                let i = choose|i: int| 0 <= i < keys.len() && keys[i] == s as u32;
                if i > 0 {
                    assert(keys[0] < keys[i]);
                }
            }
        }
        lemma_listing_gap(b, min as int, (min as int) - 1, bound);
    }
}

/// Visiting the `idx`-th key extends the listing by its bucket when the key
/// lies in `[min, max]`, and by nothing otherwise.
proof fn lemma_listing_next(b: Map<u32, Seq<Seq<char>>>, keys: Seq<u32>, idx: int, min: u32, max: u32)
    requires
        keys_of(b, keys),
        0 <= idx < keys.len(),
    ensures
        listing(b, min as int, listing_bound(keys, idx + 1, max)) == listing(b, min as int, listing_bound(keys, idx, max))
            + if min <= keys[idx] <= max { bucket_entries(b, keys[idx] as int) } else { Seq::<(u32, Seq<char>)>::empty() },
{
    let k = keys[idx] as int;
    let b0 = listing_bound(keys, idx, max);
    let b1 = listing_bound(keys, idx + 1, max);
    let lo = min as int;
    assert forall|s: int| k < s <= b1 implies bucket_entries(b, s) == Seq::<(u32, Seq<char>)>::empty() by {
        if 0 <= s <= u32::MAX && b.contains_key(s as u32) {
            let i = choose|i: int| 0 <= i < keys.len() && keys[i] == s as u32;
            if i <= idx {
                if i < idx {
                    assert(keys[i] < keys[idx]);
                }
            } else if i > idx + 1 {
                assert(keys[idx + 1] < keys[i]);
            }
        }
    }
    if min <= keys[idx] <= max {
        assert(b0 == k - 1);
        assert(listing(b, lo, k) == listing(b, lo, k - 1) + bucket_entries(b, k));
        if idx + 1 < keys.len() {
            assert(keys[idx] < keys[idx + 1]);
        }
        lemma_listing_gap(b, lo, k, b1);
    } else if keys[idx] > max {
        if idx + 1 < keys.len() {
            assert(keys[idx] < keys[idx + 1]);
        }
        assert(b0 == b1);
        assert(listing(b, lo, b1) + Seq::<(u32, Seq<char>)>::empty() =~= listing(b, lo, b1));
    } else {
        assert(listing(b, lo, b0) == Seq::<(u32, Seq<char>)>::empty());
        if b1 >= lo {
            if idx + 1 < keys.len() {
                assert(keys[idx] < keys[idx + 1]);
            }
            lemma_listing_gap(b, lo, k, b1);
        }
        assert(listing(b, lo, b1) + Seq::<(u32, Seq<char>)>::empty() =~= listing(b, lo, b1));
        assert(listing(b, lo, b1) =~= Seq::<(u32, Seq<char>)>::empty());
    }
}

/// The values listed by a range query, in order.
pub open spec fn listed_values(out: Seq<ScoreValue>) -> Seq<Seq<char>> {
    out.map_values(|sv: ScoreValue| sv.value@)
}

/// `out` lists `v` with score `s`.
pub open spec fn has_member(out: Seq<ScoreValue>, v: Seq<char>, s: u32) -> bool {
    exists|j: int| 0 <= j < out.len() && out[j].value@ == v && out[j].score == s
}

/// A range query is answered up to the order of members with equal scores:
/// any two answers for the same set and range have the same length and the
/// same members, each with the same score.
pub proof fn law_range_determined(
    m: Map<Seq<char>, u32>,
    min: u32,
    max: u32,
    out1: Seq<ScoreValue>,
    out2: Seq<ScoreValue>,
)
    requires
        is_range_of(m, min, max, out1),
        is_range_of(m, min, max, out2),
    ensures
        out1.len() == out2.len(),
        forall|i: int| 0 <= i < out1.len() ==> has_member(out2, (#[trigger] out1[i]).value@, out1[i].score),
{
    let v1 = listed_values(out1);
    let v2 = listed_values(out2);
    assert forall|i: int, j: int| 0 <= i < j < v1.len() implies v1[i] != v1[j] by {}
    assert forall|i: int, j: int| 0 <= i < j < v2.len() implies v2[i] != v2[j] by {}
    assert(v1.no_duplicates());
    assert(v2.no_duplicates());
    assert forall|x: Seq<char>| v1.to_set().contains(x) <==> v2.to_set().contains(x) by {
        if v1.to_set().contains(x) {
            let i = choose|i: int| 0 <= i < v1.len() && v1[i] == x;
            assert(min <= out1[i].score <= max);
            assert(m.contains_key(out1[i].value@));
            assert(m.contains_key(x));
            let j = choose|j: int| 0 <= j < out2.len() && out2[j].value@ == x;
            assert(v2[j] == x);
        }
        if v2.to_set().contains(x) {
            let j = choose|j: int| 0 <= j < v2.len() && v2[j] == x;
            assert(min <= out2[j].score <= max);
            assert(m.contains_key(out2[j].value@));
            assert(m.contains_key(x));
            let i = choose|i: int| 0 <= i < out1.len() && out1[i].value@ == x;
            assert(v1[i] == x);
        }
    }
    assert(v1.to_set() =~= v2.to_set());
    v1.unique_seq_to_set();
    v2.unique_seq_to_set();
    assert forall|i: int| 0 <= i < out1.len() implies has_member(out2, (#[trigger] out1[i]).value@, out1[i].score) by {
        assert(min <= out1[i].score <= max);
        assert(m.contains_key(out1[i].value@));
        let j = choose|j: int| 0 <= j < out2.len() && out2[j].value@ == out1[i].value@;
        assert(min <= out2[j].score <= max);
        assert(out2[j].value@ == out1[i].value@ && out2[j].score == out1[i].score);
    }
}

/// A set answers a range query with exactly its members whose score lies in
/// the range: a member moved to a new score is found at that score only,
/// and a removed member is found at none.
pub proof fn law_range_follows_updates(m: Map<Seq<char>, u32>, v: Seq<char>, s: u32, min: u32, max: u32, out: Seq<ScoreValue>)
    ensures
        is_range_of(m.insert(v, s), min, max, out) ==> (
            (min <= s <= max <==> exists|i: int| 0 <= i < out.len() && (#[trigger] out[i]).value@ == v)
            && forall|i: int| 0 <= i < out.len() && (#[trigger] out[i]).value@ == v ==> out[i].score == s),
        is_range_of(m.remove(v), min, max, out) ==> forall|i: int| 0 <= i < out.len() ==> (#[trigger] out[i]).value@ != v,
{
    if is_range_of(m.insert(v, s), min, max, out) {
        let m1 = m.insert(v, s);
        assert(m1.contains_key(v));
        if exists|i: int| 0 <= i < out.len() && (#[trigger] out[i]).value@ == v {
            let i = choose|i: int| 0 <= i < out.len() && (#[trigger] out[i]).value@ == v;
            assert(min <= out[i].score <= max);
        }
    }
    if is_range_of(m.remove(v), min, max, out) {
        assert forall|i: int| 0 <= i < out.len() implies (#[trigger] out[i]).value@ != v by {
            assert(min <= out[i].score <= max);
            assert(m.remove(v).contains_key(out[i].value@));
        }
    }
}

/// The members of one sorted set: each value, with its score.
///
/// Members are indexed both by value and by score. Each score maps to the
/// values that carry it, with no value twice.
pub struct SortValues {
    score_map: BTreeMap<u32, Vec<String>>,
    value_map: StringHashMap<u32>,
}

/// The two indexes describe the same members: each value sits in the bucket
/// of its score, each bucket holds only values with that score, and no
/// bucket holds a value twice.
pub open spec fn indexes_agree(vm: Map<Seq<char>, u32>, sm: Map<u32, Vec<String>>) -> bool {
    &&& forall|v: Seq<char>| #[trigger]
        vm.contains_key(v) ==> sm.contains_key(vm[v]) && texts(sm[vm[v]]@).contains(v)
    &&& forall|s: u32| #[trigger] sm.contains_key(s) ==> bucket_ok(vm, s, sm[s]@)
}

/// Every value in the bucket of score `s` has score `s`, and none occurs
/// twice.
pub open spec fn bucket_ok(vm: Map<Seq<char>, u32>, s: u32, bucket: Seq<String>) -> bool {
    &&& forall|i: int|
        0 <= i < bucket.len() ==> vm.contains_key(#[trigger] bucket[i]@) && vm[bucket[i]@] == s
    &&& texts(bucket).no_duplicates()
}

impl View for SortValues {
    type V = Map<Seq<char>, u32>;

    closed spec fn view(&self) -> Map<Seq<char>, u32> {
        self.value_map@
    }
}

impl SortValues {
    #[verifier::type_invariant]
    spec fn inv(self) -> bool {
        indexes_agree(self.value_map@, self.score_map@)
    }

    /// The scores that have a bucket in the score index.
    pub closed spec fn scores(&self) -> Set<u32> {
        self.score_map@.dom()
    }

    /// The score index: the values in the bucket of each score, in bucket
    /// order.
    pub closed spec fn buckets(&self) -> Map<u32, Seq<Seq<char>>> {
        Map::new(|s: u32| self.score_map@.contains_key(s), |s: u32| texts(self.score_map@[s]@))
    }

    /// The score index and the value index describe the same members: each
    /// value sits, once, in the bucket of its score, and each bucket holds
    /// only values with that score.
    pub closed spec fn indexes_in_agreement(&self) -> bool {
        indexes_agree(self.value_map@, self.score_map@)
    }

    /// An empty set: both indexes are empty.
    pub fn new() -> (r: Self)
        ensures
            r@ == Map::<Seq<char>, u32>::empty(),
            r.scores() == Set::<u32>::empty(),
            r.indexes_in_agreement(),
    {
        SortValues { score_map: BTreeMap::new(), value_map: StringHashMap::new() }
    }

    /// Sets the score of `value` to `score`, adding it if absent.
    pub fn insert(&mut self, value: String, score: u32)
        ensures
            final(self)@ == old(self)@.insert(value@, score),
            final(self).indexes_in_agreement(),
    {
        let mut members = SortValues::new();
        std::mem::swap(self, &mut members);
        *self = members.with_member(value, score);
        proof {
            use_type_invariant(&*self);
        }
    }

    /// Removes `value` from the set, if it is there.
    pub fn remove(&mut self, value: &String)
        ensures
            final(self)@ == old(self)@.remove(value@),
            final(self).indexes_in_agreement(),
    {
        let mut members = SortValues::new();
        std::mem::swap(self, &mut members);
        *self = members.without_member(value);
        proof {
            use_type_invariant(&*self);
        }
    }

    /// The set without `value`.
    fn without_member(self, value: &String) -> (r: Self)
        ensures
            r@ == self@.remove(value@),
    {
        proof {
            use_type_invariant(&self);
        }
        let SortValues { mut score_map, mut value_map } = self;
        take_out(&mut score_map, &mut value_map, value);
        SortValues { score_map, value_map }
    }

    /// The members whose score lies in `[min, max]`, in order of score and,
    /// within a score, in the order of its bucket.
    pub fn range(&self, min: u32, max: u32) -> (out: Vec<ScoreValue>)
        ensures
            is_range_of(self@, min, max, out@),
            members(out@) == listing(self.buckets(), min as int, max as int),
    {
        proof {
            use_type_invariant(self);
        }
        let ghost vm = self.value_map@;
        let ghost sm = self.score_map@;
        let mut ret: Vec<ScoreValue> = Vec::new();
        let iter = self.score_map.iter();
        let ghost items = iter.remaining();
        let ghost keys = items.map_values(|kv: (&u32, &Vec<String>)| *kv.0);
        let ghost bk = self.buckets();
        proof {
            lemma_score_keys_ordered();
            lemma_keys_increase(keys);
            assert forall|i: int, j: int| 0 <= i < j < items.len() implies *items[i].0 < *items[j].0 by {
                assert(keys[i] == *items[i].0);
                assert(keys[j] == *items[j].0);
            }
            assert forall|k: u32| sm.contains_key(k) implies exists|i: int|
                0 <= i < items.len() && *items[i].0 == k by {
                assert(items.contains((&k, &sm[k])));
            }
            assert forall|s: u32| bk.contains_key(s) implies exists|i: int| 0 <= i < keys.len() && keys[i] == s by {
                let i = choose|i: int| 0 <= i < items.len() && *items[i].0 == s;
                assert(keys[i] == s);
            }
            assert(keys_of(bk, keys));
            lemma_listing_start(bk, keys, min, max);
            assert(members(ret@) =~= Seq::<(u32, Seq<char>)>::empty());
        }
        for entry in it: iter
            invariant
                it.seq() == items,
                keys == items.map_values(|kv: (&u32, &Vec<String>)| *kv.0),
                bk == self.buckets(),
                keys_of(bk, keys),
                members(ret@) == listing(bk, min as int, listing_bound(keys, it.index(), max)),
                vm == self.value_map@,
                sm == self.score_map@,
                indexes_agree(vm, sm),
                forall|i: int, j: int| 0 <= i < j < items.len() ==> *items[i].0 < *items[j].0,
                forall|i: int| 0 <= i < items.len() ==> sm.contains_key(#[trigger] *items[i].0)
                    && sm[*items[i].0] == *items[i].1,
                forall|k: u32| sm.contains_key(k) ==> exists|i: int| 0 <= i < items.len() && *items[i].0 == k,
                forall|i: int, j: int| 0 <= i < j < ret@.len() ==> ret@[i].score <= ret@[j].score
                    && ret@[i].value@ != ret@[j].value@,
                forall|i: int| 0 <= i < ret@.len() ==> min <= #[trigger] ret@[i].score <= max
                    && vm.contains_key(ret@[i].value@) && vm[ret@[i].value@] == ret@[i].score,
                forall|i: int, k: int| 0 <= i < ret@.len() && it.index() <= k < items.len()
                    ==> ret@[i].score < *items[k].0,
                forall|v: Seq<char>| #![trigger vm.contains_key(v)]
                    vm.contains_key(v) && min <= vm[v] <= max
                    && (it.index() < items.len() ==> vm[v] < *items[it.index()].0)
                    ==> exists|i: int| 0 <= i < ret@.len() && ret@[i].value@ == v,
        {
            let ghost idx = it.index();
            let ghost prev = ret@;
            let (score_ref, bucket) = entry;
            let score = *score_ref;
            proof {
                assert(entry == items[idx]);
                assert(sm.contains_key(score) && sm[score] == *bucket);
                assert(bucket_ok(vm, score, bucket@));
                assert(keys[idx] == score);
                assert(bk[score] == texts(bucket@));
                lemma_listing_next(bk, keys, idx, min, max);
            }
            if min <= score && score <= max {
                push_bucket(&mut ret, score, bucket);
            }
            proof {
                let n = prev.len();
                if min <= score && score <= max {
                    let e = bucket_entries(bk, score as int);
                    assert(bk.contains_key(score));
                    assert(e == texts(bucket@).map_values(|x: Seq<char>| (score, x)));
                    assert(ret@.len() == n + bucket@.len());
                    assert forall|j: int| 0 <= j < ret@.len() implies #[trigger] members(ret@)[j]
                        == (members(prev) + e)[j] by {
                        if j < n {
                            assert(ret@[j] == prev[j]);
                        } else {
                            let jj = j - n;
                            assert(ret@[n + jj].score == score && ret@[n + jj].value@ == bucket@[jj]@);
                            assert(e[j - n] == (score, texts(bucket@)[j - n]));
                        }
                    }
                    assert(members(ret@) =~= members(prev) + e);
                } else {
                    assert(members(ret@) =~= members(prev) + Seq::<(u32, Seq<char>)>::empty());
                }
                assert(forall|i: int| 0 <= i < n ==> ret@[i] == prev[i]);
                assert(ret@.len() == n || ret@.len() == n + bucket@.len());
                assert forall|j: int| n <= j < ret@.len() implies ret@[j].score == score
                    && ret@[j].value@ == bucket@[j - n]@ by {
                    let jj = j - n;
                    assert(ret@[n + jj].score == score);
                }
                assert forall|i: int, j: int| 0 <= i < j < ret@.len() implies ret@[i].score <= ret@[j].score
                    && ret@[i].value@ != ret@[j].value@ by {
                    if j >= n {
                        assert(ret@[j].score == score);
                        assert(vm[bucket@[j - n]@] == score);
                        if i < n {
                            assert(prev[i].score < *items[idx].0);
                        } else {
                            assert(texts(bucket@)[i - n] != texts(bucket@)[j - n]);
                        }
                    }
                }
                assert forall|i: int| 0 <= i < ret@.len() implies min <= #[trigger] ret@[i].score <= max
                    && vm.contains_key(ret@[i].value@) && vm[ret@[i].value@] == ret@[i].score by {
                    if i >= n {
                        assert(vm.contains_key(bucket@[i - n]@));
                    }
                }
                assert forall|i: int, k: int| 0 <= i < ret@.len() && idx + 1 <= k < items.len()
                    implies ret@[i].score < *items[k].0 by {
                    assert(*items[idx].0 < *items[k].0);
                }
                assert forall|v: Seq<char>| #![trigger vm.contains_key(v)]
                    vm.contains_key(v) && min <= vm[v] <= max
                    && (idx + 1 < items.len() ==> vm[v] < *items[idx + 1].0)
                    implies exists|i: int| 0 <= i < ret@.len() && ret@[i].value@ == v by {
                    if vm[v] < score {
                        let i = choose|i: int| 0 <= i < prev.len() && prev[i].value@ == v;
                        assert(ret@[i].value@ == v);
                    } else if vm[v] == score {
                        assert(texts(sm[vm[v]]@).contains(v));
                        let j = choose|j: int| 0 <= j < texts(bucket@).len() && texts(bucket@)[j] == v;
                        assert(ret@[n + j].value@ == v);
                    } else {
                        assert(sm.contains_key(vm[v]));
                        let k = choose|k: int| 0 <= k < items.len() && *items[k].0 == vm[v];
                        if k <= idx {
                            if k < idx {
                                assert(*items[k].0 < *items[idx].0);
                            }
                        } else {
                            if k > idx + 1 {
                                assert(*items[idx + 1].0 < *items[k].0);
                            }
                        }
                    }
                }
            }
        }
        ret
    }

    /// The set with `value` given `score`.
    fn with_member(self, value: String, score: u32) -> (r: Self)
        ensures
            r@ == self@.insert(value@, score),
    {
        proof {
            use_type_invariant(&self);
        }
        let SortValues { mut score_map, mut value_map } = self;
        take_out(&mut score_map, &mut value_map, &value);
        let ghost vm1 = value_map@;
        let ghost sm1 = score_map@;
        let mut bucket = match score_map.remove(&score) {
            Some(b) => b,
            None => Vec::new(),
        };
        let ghost before = bucket@;
        bucket.push(value.clone());
        proof {
            assert(bucket@.drop_last() =~= before);
            lemma_put_in(vm1, sm1, value@, score, before, bucket@);
        }
        let ghost b = bucket;
        score_map.insert(score, bucket);
        assert(score_map@ =~= sm1.insert(score, b));
        value_map.insert(value, score);
        SortValues { score_map, value_map }
    }
}


/// Scores compare as the ordered index expects.
proof fn lemma_score_keys_ordered()
    ensures
        vstd::std_specs::btree::key_obeys_cmp_spec::<u32>(),
{
    assert(vstd::laws_cmp::obeys_cmp::<u32>());
}

/// The keys that a map's iterator yields strictly increase.
proof fn lemma_keys_increase(keys: Seq<u32>)
    requires
        vstd::std_specs::btree::increasing_seq(keys),
    ensures
        forall|i: int, j: int| 0 <= i < j < keys.len() ==> keys[i] < keys[j],
{
    assert(vstd::laws_cmp::obeys_cmp::<u32>());
    assert forall|i: int, j: int| 0 <= i < j < keys.len() implies keys[i] < keys[j] by {
        assert(vstd::std_specs::cmp::OrdSpec::cmp_spec(&keys[i], &keys[j]) is Less);
    }
}

/// Appends the members of `bucket`, each with score `score`, in bucket order.
fn push_bucket(ret: &mut Vec<ScoreValue>, score: u32, bucket: &Vec<String>)
    ensures
        final(ret)@.len() == old(ret)@.len() + bucket@.len(),
        forall|i: int| 0 <= i < old(ret)@.len() ==> final(ret)@[i] == old(ret)@[i],
        forall|j: int| 0 <= j < bucket@.len() ==> (#[trigger] final(ret)@[old(ret)@.len() + j]).score == score
            && final(ret)@[old(ret)@.len() + j].value@ == bucket@[j]@,
{
    let mut j: usize = 0;
    while j < bucket.len()
        invariant
            0 <= j <= bucket@.len(),
            ret@.len() == old(ret)@.len() + j,
            forall|i: int| 0 <= i < old(ret)@.len() ==> ret@[i] == old(ret)@[i],
            forall|k: int| 0 <= k < j ==> (#[trigger] ret@[old(ret)@.len() + k]).score == score
                && ret@[old(ret)@.len() + k].value@ == bucket@[k]@,
        decreases bucket@.len() - j,
    {
        ret.push(ScoreValue::new(score, bucket[j].clone()));
        j = j + 1;
    }
}

/// Takes `value` out of both indexes, if it is there.
fn take_out(score_map: &mut BTreeMap<u32, Vec<String>>, value_map: &mut StringHashMap<u32>, value: &String)
    requires
        indexes_agree(old(value_map)@, old(score_map)@),
    ensures
        indexes_agree(final(value_map)@, final(score_map)@),
        final(value_map)@ == old(value_map)@.remove(value@),
{
    let old_score: Option<u32> = match value_map.get(value.as_str()) {
        Some(s) => Some(*s),
        None => None,
    };
    if let Some(os) = old_score {
        let ghost vm0 = value_map@;
        let ghost sm0 = score_map@;
        let mut bucket = score_map.remove(&os).unwrap();
        let r = remove_text(&mut bucket, value);
        proof {
            if r is None {
                assert(texts(sm0[vm0[value@]]@).contains(value@));
            }
            lemma_take_out(vm0, sm0, value@, os, r.unwrap() as int, bucket@);
        }
        let ghost b = bucket;
        score_map.insert(os, bucket);
        assert(score_map@ =~= sm0.insert(os, b));
        value_map.remove(value.as_str());
    } else {
        assert(value_map@.remove(value@) == value_map@);
    }
}

/// Taking a value out of its bucket and out of the value index keeps the
/// two indexes in agreement.
proof fn lemma_take_out(
    vm: Map<Seq<char>, u32>,
    sm: Map<u32, Vec<String>>,
    v: Seq<char>,
    os: u32,
    j: int,
    rest: Seq<String>,
)
    requires
        indexes_agree(vm, sm),
        vm.contains_key(v),
        vm[v] == os,
        0 <= j < sm[os]@.len(),
        sm[os]@[j]@ == v,
        rest == sm[os]@.remove(j),
    ensures
        forall|b: Vec<String>| b@ == rest ==> indexes_agree(vm.remove(v), #[trigger] sm.insert(os, b)),
{
    assert forall|b: Vec<String>| b@ == rest implies indexes_agree(vm.remove(v), #[trigger] sm.insert(os, b)) by {
        let vm1 = vm.remove(v);
        let sm1 = sm.insert(os, b);
        let old_bucket = sm[os]@;
        assert(bucket_ok(vm, os, old_bucket));
        assert forall|w: Seq<char>| #[trigger] vm1.contains_key(w) implies sm1.contains_key(vm1[w])
            && texts(sm1[vm1[w]]@).contains(w) by {
            assert(texts(sm[vm[w]]@).contains(w));
            if vm[w] == os {
                let k = choose|k: int| 0 <= k < texts(old_bucket).len() && texts(old_bucket)[k] == w;
                assert(k != j);
                if k < j {
                    assert(texts(rest)[k] == w);
                } else {
                    assert(texts(rest)[k - 1] == w);
                }
            }
        }
        assert forall|s: u32| #[trigger] sm1.contains_key(s) implies bucket_ok(vm1, s, sm1[s]@) by {
            assert(bucket_ok(vm, s, sm[s]@));
            if s == os {
                assert forall|i: int| 0 <= i < rest.len() implies vm1.contains_key(#[trigger] rest[i]@)
                    && vm1[rest[i]@] == s by {
                    if i < j {
                        assert(rest[i] == old_bucket[i]);
                        assert(texts(old_bucket)[i] != texts(old_bucket)[j]);
                    } else {
                        assert(rest[i] == old_bucket[i + 1]);
                        assert(texts(old_bucket)[i + 1] != texts(old_bucket)[j]);
                    }
                }
                assert(texts(rest) == texts(old_bucket).remove(j));
            } else {
                assert forall|i: int| 0 <= i < sm[s]@.len() implies vm1.contains_key(#[trigger] sm[s]@[i]@)
                    && vm1[sm[s]@[i]@] == s by {
                    assert(vm[sm[s]@[i]@] == s);
                }
            }
        }
    }
}

/// Appending a value that is in neither index to the bucket of `s` and giving
/// it score `s` keeps the two indexes in agreement.
proof fn lemma_put_in(
    vm: Map<Seq<char>, u32>,
    sm: Map<u32, Vec<String>>,
    v: Seq<char>,
    s: u32,
    before: Seq<String>,
    after: Seq<String>,
)
    requires
        indexes_agree(vm, sm),
        !vm.contains_key(v),
        before == (if sm.contains_key(s) { sm[s]@ } else { Seq::<String>::empty() }),
        after.len() == before.len() + 1,
        after.drop_last() == before,
        after.last()@ == v,
    ensures
        forall|b: Vec<String>| b@ == after ==> indexes_agree(vm.insert(v, s), #[trigger] sm.insert(s, b)),
{
    assert forall|b: Vec<String>| b@ == after implies indexes_agree(vm.insert(v, s), #[trigger] sm.insert(s, b)) by {
        let vm1 = vm.insert(v, s);
        let sm1 = sm.insert(s, b);
        assert forall|i: int| 0 <= i < before.len() implies #[trigger] after[i] == before[i] by {
            assert(after.drop_last()[i] == before[i]);
        }
        if sm.contains_key(s) {
            assert(bucket_ok(vm, s, sm[s]@));
        }
        assert forall|w: Seq<char>| #[trigger] vm1.contains_key(w) implies sm1.contains_key(vm1[w])
            && texts(sm1[vm1[w]]@).contains(w) by {
            if w == v {
                assert(texts(after)[after.len() - 1] == v);
            } else {
                assert(texts(sm[vm[w]]@).contains(w));
                if vm[w] == s {
                    let k = choose|k: int| 0 <= k < texts(before).len() && texts(before)[k] == w;
                    assert(texts(after)[k] == w);
                }
            }
        }
        assert forall|t: u32| #[trigger] sm1.contains_key(t) implies bucket_ok(vm1, t, sm1[t]@) by {
            if t == s {
                assert forall|i: int| 0 <= i < after.len() implies vm1.contains_key(#[trigger] after[i]@)
                    && vm1[after[i]@] == t by {
                    if i < before.len() {
                        assert(vm.contains_key(before[i]@));
                    }
                }
                assert forall|i: int, k: int| 0 <= i < k < after.len() implies texts(after)[i] != texts(after)[k] by {
                    if k == after.len() - 1 {
                        assert(vm.contains_key(before[i]@));
                    } else {
                        assert(texts(before)[i] != texts(before)[k]);
                    }
                }
            } else {
                assert(bucket_ok(vm, t, sm[t]@));
                assert forall|i: int| 0 <= i < sm[t]@.len() implies vm1.contains_key(#[trigger] sm[t]@[i]@)
                    && vm1[sm[t]@[i]@] == t by {
                    assert(vm[sm[t]@[i]@] == t);
                }
            }
        }
    }
}

/// Removes the string whose text is that of `value`, if there is one, and
/// gives its former position.
pub(crate) fn remove_text(bucket: &mut Vec<String>, value: &String) -> (r: Option<usize>)
    ensures
        match r {
            Some(j) => {
                &&& j < old(bucket)@.len()
                &&& old(bucket)@[j as int]@ == value@
                &&& final(bucket)@ == old(bucket)@.remove(j as int)
            },
            None => {
                &&& !texts(old(bucket)@).contains(value@)
                &&& final(bucket)@ == old(bucket)@
            },
        },
{
    let mut i: usize = 0;
    while i < bucket.len()
        invariant
            bucket@ == old(bucket)@,
            i <= bucket.len(),
            forall|k: int| 0 <= k < i ==> bucket@[k]@ != value@,
        decreases bucket.len() - i,
    {
        if bucket[i] == *value {
            bucket.remove(i);
            return Some(i);
        }
        i = i + 1;
    }
    proof {
        if texts(old(bucket)@).contains(value@) {
            let k = choose|k: int| 0 <= k < texts(old(bucket)@).len() && texts(old(bucket)@)[k] == value@;
            assert(bucket@[k]@ == value@);
        }
    }
    None
}

} // verus!
