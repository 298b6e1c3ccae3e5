use kvs::model::request::{InsrtRequest, ScoreRange, ScoreValue};
use kvs::model::store::Store;

fn req(k: &str, v: &str) -> InsrtRequest {
    InsrtRequest::new(k.to_string(), v.to_string())
}

fn s(x: &str) -> String {
    x.to_string()
}

#[test]
fn local_insert_then_get() {
    let mut store = Store::new();
    assert_eq!(store.local_get(&s("k")), None);
    store.insert_local(req("k", "v1"));
    assert_eq!(store.local_get(&s("k")), Some(s("v1")));
    store.insert_local(req("k", "v2"));
    assert_eq!(store.local_get(&s("k")), Some(s("v2")));
    assert_eq!(store.local_get(&s("other")), None);
    store.insert_local(req("", "empty key"));
    assert_eq!(store.local_get(&s("")), Some(s("empty key")));
}

#[test]
fn routed_insert_get_del() {
    let mut store = Store::new();
    // "abc" falls in the first third of the slots (node 0), "a" in the second (node 1).
    store.insert(0, req("abc", "x"));
    store.insert(0, req("a", "y"));
    assert_eq!(store.local_get(&s("abc")), Some(s("x")));
    assert_eq!(store.local_get(&s("a")), None);
    assert_eq!(store.get(0, &s("abc")), Some(s("x")));
    assert_eq!(store.get(1, &s("abc")), None);
    store.insert(1, req("a", "y"));
    assert_eq!(store.get(1, &s("a")), Some(s("y")));
    store.del(1, &s("abc"));
    assert_eq!(store.get(0, &s("abc")), Some(s("x")));
    store.del(0, &s("abc"));
    assert_eq!(store.get(0, &s("abc")), None);
    assert_eq!(store.get(1, &s("a")), Some(s("y")));
}

#[test]
fn list_returns_found_pairs_in_order() {
    let mut store = Store::new();
    store.insert_local(req("k1", "v1"));
    store.insert_local(req("k3", "v3"));
    let got = store.list(vec![s("k3"), s("k2"), s("k1")]);
    assert_eq!(got, vec![req("k3", "v3"), req("k1", "v1")]);
    assert_eq!(store.list(vec![]), vec![]);
}

#[test]
fn list_of_stored_keys_has_one_pair_per_key() {
    let mut store = Store::new();
    let mut keys = Vec::new();
    for i in 0..10 {
        store.insert_local(req(&format!("key{}", i), &format!("val{}", i)));
        keys.push(format!("key{}", i));
    }
    let got = store.list(keys.clone());
    assert_eq!(got.len(), keys.len());
    for (i, r) in got.iter().enumerate() {
        assert_eq!(r.key, keys[i]);
        assert_eq!(r.value, format!("val{}", i));
    }
}

#[test]
fn batch_insert_last_write_wins() {
    let mut store = Store::new();
    store.insert_local(req("keep", "old"));
    store.batch_insert(vec![req("a", "1"), req("b", "2"), req("a", "3")]);
    assert_eq!(store.local_get(&s("a")), Some(s("3")));
    assert_eq!(store.local_get(&s("b")), Some(s("2")));
    assert_eq!(store.local_get(&s("keep")), Some(s("old")));
}

#[test]
fn load_records_keeps_served_keys_only() {
    let mut store = Store::new();
    store.load_records(0, vec![req("abc", "1"), req("a", "2"), req("key0", "3")]);
    assert_eq!(store.local_get(&s("abc")), Some(s("1")));
    assert_eq!(store.local_get(&s("a")), None);
    assert_eq!(store.local_get(&s("key0")), None);
    store.load_records(2, vec![req("abc", "4"), req("key0", "3")]);
    assert_eq!(store.local_get(&s("abc")), Some(s("1")));
    assert_eq!(store.local_get(&s("key0")), Some(s("3")));
}

#[test]
fn range_scenario_of_ten_members() {
    // Ten members scored 0..9: scores 0..=5 hold six of them, 0..=10 all ten.
    let mut store = Store::new();
    for j in 0..10u32 {
        store.do_insert(s("key1"), ScoreValue::new(j, j.to_string()));
    }
    let half = store.range_Local(&s("key1"), ScoreRange::new(0, 5));
    assert_eq!(half.len(), 6);
    let all = store.range_Local(&s("key1"), ScoreRange::new(0, 10));
    assert_eq!(all.len(), 10);
    for (i, m) in all.iter().enumerate() {
        assert_eq!(m.score, i as u32);
        assert_eq!(m.value, i.to_string());
    }
}

#[test]
fn remove_then_range_scenario() {
    let mut store = Store::new();
    // "abc" is served by node 0.
    for j in 0..10u32 {
        store.zset_insert(s("abc"), ScoreValue::new(j, j.to_string()));
    }
    store.remove(0, &s("abc"), &s("0"));
    let got = store.range(0, &s("abc"), ScoreRange::new(0, 5));
    assert_eq!(got.len(), 5);
    assert!(got.iter().all(|m| m.value != "0"));
    // A node that does not serve the key neither removes nor answers.
    store.remove(1, &s("abc"), &s("1"));
    assert!(store.range(1, &s("abc"), ScoreRange::new(0, 5)).is_empty());
    assert_eq!(store.range(0, &s("abc"), ScoreRange::new(1, 1)).len(), 1);
}

#[test]
fn moving_a_member_to_a_new_score() {
    let mut store = Store::new();
    store.do_insert(s("key1"), ScoreValue::new(1, s("a")));
    store.do_insert(s("key1"), ScoreValue::new(1, s("b")));
    // Within a score, members come in the order they were given it.
    let ones: Vec<String> = store.range_Local(&s("key1"), ScoreRange::new(1, 1)).into_iter().map(|m| m.value).collect();
    assert_eq!(ones, vec![s("a"), s("b")]);
    store.do_insert(s("key1"), ScoreValue::new(2, s("b")));
    let got = store.range_Local(&s("key1"), ScoreRange::new(1, 2));
    assert_eq!(got, vec![ScoreValue::new(1, s("a")), ScoreValue::new(2, s("b"))]);
    assert_eq!(store.range_Local(&s("key1"), ScoreRange::new(1, 1)), vec![ScoreValue::new(1, s("a"))]);
}

#[test]
fn range_of_missing_set_or_empty_window() {
    let mut store = Store::new();
    assert!(store.range_Local(&s("none"), ScoreRange::new(0, 100)).is_empty());
    assert!(store.range_Local(&s("none"), ScoreRange::new(5, 1)).is_empty());
    store.do_insert(s("z"), ScoreValue::new(50, s("m")));
    assert!(store.range_Local(&s("z"), ScoreRange::new(0, 49)).is_empty());
    assert!(store.range_Local(&s("z"), ScoreRange::new(51, u32::MAX)).is_empty());
    assert_eq!(store.range_Local(&s("z"), ScoreRange::new(50, 50)).len(), 1);
}

#[test]
fn emptied_set_answers_empty() {
    let mut store = Store::new();
    store.do_insert(s("abc"), ScoreValue::new(3, s("m")));
    store.remove(0, &s("abc"), &s("m"));
    assert!(store.range(0, &s("abc"), ScoreRange::new(0, 10)).is_empty());
    store.remove(0, &s("abc"), &s("absent"));
    assert!(store.range(0, &s("abc"), ScoreRange::new(0, 10)).is_empty());
}

#[test]
fn has_zset_tells_whether_a_set_exists() {
    let mut store = Store::new();
    assert!(!store.has_zset(&s("z")));
    store.do_insert(s("z"), ScoreValue::new(1, s("m")));
    assert!(store.has_zset(&s("z")));
    assert!(!store.has_zset(&s("y")));
}

#[test]
fn only_one_node_serves_a_key() {
    let mut store = Store::new();
    store.insert_local(req("abc", "x"));
    store.insert_local(req("a", "y"));
    store.insert_local(req("key0", "z"));
    store.insert_local(req("", "e"));
    for (key, owner) in [("abc", 0usize), ("a", 1), ("key0", 2), ("", 0)] {
        let servers: Vec<usize> = (0..3).filter(|n| store.get(*n, &s(key)).is_some()).collect();
        assert_eq!(servers, vec![owner], "{}", key);
    }
}

#[test]
fn del_local_ignores_routing() {
    let mut store = Store::new();
    store.insert_local(req("a", "y"));
    store.del_local(&s("a"));
    assert_eq!(store.local_get(&s("a")), None);
}

#[test]
fn lru_evicts_the_least_recently_used() {
    let mut store = Store::with_capacity(2);
    store.insert_local(req("a", "1"));
    store.insert_local(req("b", "2"));
    // Reading "a" makes "b" the least recently used.
    assert_eq!(store.local_get(&s("a")), Some(s("1")));
    store.insert_local(req("c", "3"));
    assert_eq!(store.local_get(&s("b")), None);
    assert_eq!(store.local_get(&s("a")), Some(s("1")));
    assert_eq!(store.local_get(&s("c")), Some(s("3")));
    // Overwriting a held key evicts nothing, and makes it the most recent.
    store.insert_local(req("a", "4"));
    store.insert_local(req("d", "5"));
    assert_eq!(store.local_get(&s("c")), None);
    assert_eq!(store.local_get(&s("a")), Some(s("4")));
    assert_eq!(store.local_get(&s("d")), Some(s("5")));
}

#[test]
fn lru_holds_at_most_its_capacity() {
    let mut store = Store::with_capacity(3);
    let keys: Vec<String> = (0..10).map(|i| format!("key{}", i)).collect();
    for k in &keys {
        store.insert_local(req(k, "v"));
    }
    let held = store.list(keys.clone());
    assert_eq!(held.len(), 3);
    assert_eq!(held.iter().map(|r| r.key.clone()).collect::<Vec<_>>(), vec![s("key7"), s("key8"), s("key9")]);
}

#[test]
fn deleting_frees_room() {
    let mut store = Store::with_capacity(2);
    store.insert_local(req("a", "1"));
    store.insert_local(req("b", "2"));
    store.del_local(&s("a"));
    store.insert_local(req("c", "3"));
    assert_eq!(store.local_get(&s("b")), Some(s("2")));
    assert_eq!(store.local_get(&s("c")), Some(s("3")));
}

#[test]
fn range_and_range_local_agree() {
    let mut store = Store::new();
    for (score, v) in [(2u32, "x"), (1, "y"), (2, "z"), (1, "w")] {
        store.do_insert(s("abc"), ScoreValue::new(score, s(v)));
    }
    let local = store.range_Local(&s("abc"), ScoreRange::new(0, 9));
    assert_eq!(store.range(0, &s("abc"), ScoreRange::new(0, 9)), local);
    assert_eq!(
        local,
        vec![
            ScoreValue::new(1, s("y")),
            ScoreValue::new(1, s("w")),
            ScoreValue::new(2, s("x")),
            ScoreValue::new(2, s("z"))
        ]
    );
}

#[test]
fn remove_local_ignores_routing() {
    let mut store = Store::new();
    store.do_insert(s("a"), ScoreValue::new(1, s("m")));
    store.do_insert(s("a"), ScoreValue::new(2, s("n")));
    store.remove_local(&s("a"), &s("m"));
    assert_eq!(store.range_Local(&s("a"), ScoreRange::new(0, 9)), vec![ScoreValue::new(2, s("n"))]);
    store.remove_local(&s("none"), &s("m"));
    assert!(!store.has_zset(&s("none")));
}
