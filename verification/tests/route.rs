use kvs::model::cluster::{set_cluster, ClusterState};
use kvs::model::request::{Cluster, InsrtRequest, ScoreRange, ScoreValue};
use kvs::model::route::{
    assemble_list, route_del, route_get, route_insert, route_list, route_range, route_zadd, route_zrmv, Routed,
};
use kvs::model::store::Store;

fn s(x: &str) -> String {
    x.to_string()
}

/// A node with the given 0-based index in a three-node cluster.
fn node(idx: usize) -> ClusterState {
    let mut state = ClusterState::new();
    set_cluster(
        &mut state,
        Cluster { hosts: vec![s("h0"), s("h1:81"), s("h2")], index: idx + 1 },
    );
    state
}

fn forward_of<T>(r: Routed<T>) -> Option<String> {
    match r {
        Routed::Forward(u) => Some(u),
        Routed::Here(_) => None,
    }
}

#[test]
fn owner_answers_here_others_forward() {
    // "abc" is owned by node 0, "a" by node 1, "key0" by node 2.
    let mut store = Store::new();
    let n0 = node(0);
    assert_eq!(route_insert(&mut store, &n0, InsrtRequest::new(s("abc"), s("v"))), None);
    match route_get(&mut store, &n0, &s("abc")) {
        Routed::Here(v) => assert_eq!(v, Some(s("v"))),
        Routed::Forward(_) => panic!("the owner answers"),
    }
    assert_eq!(
        route_insert(&mut store, &n0, InsrtRequest::new(s("a"), s("w"))),
        Some(s("http://h1:81/add2"))
    );
    assert_eq!(store.local_get(&s("a")), None);
    assert_eq!(forward_of(route_get(&mut store, &n0, &s("a"))), Some(s("http://h1:81/query/a")));
    assert_eq!(forward_of(route_get(&mut store, &n0, &s("key0"))), Some(s("http://h2:8080/query/key0")));
    assert_eq!(route_del(&mut store, &n0, &s("key0")), Some(s("http://h2:8080/del2/key0")));
    assert_eq!(route_del(&mut store, &n0, &s("abc")), None);
    assert_eq!(store.local_get(&s("abc")), None);
}

#[test]
fn every_node_routes_a_key_to_the_same_owner() {
    for idx in 0..3 {
        let mut store = Store::new();
        let st = node(idx);
        let r = forward_of(route_get(&mut store, &st, &s("a")));
        if idx == 1 {
            assert_eq!(r, None);
        } else {
            assert_eq!(r, Some(s("http://h1:81/query/a")));
        }
    }
}

#[test]
fn sorted_set_requests_route_to_the_owner() {
    let mut store = Store::new();
    let n2 = node(2);
    assert_eq!(route_zadd(&mut store, &n2, s("key0"), ScoreValue::new(1, s("m"))), None);
    assert_eq!(route_zadd(&mut store, &n2, s("abc"), ScoreValue::new(1, s("m"))), Some(s("http://h0:8080/zadd2/abc")));
    assert_eq!(route_zrmv(&mut store, &n2, &s("abc"), &s("m")), Some(s("http://h0:8080/zrmv2/abc/m")));
    assert_eq!(
        forward_of(route_range(&store, &n2, &s("abc"), ScoreRange::new(0, 5))),
        Some(s("http://h0:8080/zrange/abc"))
    );
    match route_range(&store, &n2, &s("key0"), ScoreRange::new(0, 5)) {
        Routed::Here(out) => assert_eq!(out, vec![ScoreValue::new(1, s("m"))]),
        Routed::Forward(_) => panic!("the owner answers"),
    }
    assert_eq!(route_zrmv(&mut store, &n2, &s("key0"), &s("m")), None);
    match route_range(&store, &n2, &s("key0"), ScoreRange::new(0, 5)) {
        Routed::Here(out) => assert!(out.is_empty()),
        Routed::Forward(_) => panic!("the owner answers"),
    }
}

#[test]
fn unconfigured_node_answers_locally() {
    let mut store = Store::new();
    let st = ClusterState::new();
    assert_eq!(route_insert(&mut store, &st, InsrtRequest::new(s("a"), s("v"))), None);
    match route_get(&mut store, &st, &s("a")) {
        Routed::Here(v) => assert_eq!(v, None),
        Routed::Forward(_) => panic!("no cluster to forward to"),
    }
}

#[test]
fn list_plan_and_assembly() {
    let mut store = Store::new();
    let n0 = node(0);
    store.insert_local(InsrtRequest::new(s("abc"), s("1")));
    let keys = vec![s("abc"), s("a"), s("missing0")];
    let plan = route_list(&mut store, &n0, &keys);
    assert_eq!(plan.len(), 3);
    let mut answers = Vec::new();
    for step in plan {
        match step {
            Routed::Here(v) => answers.push(v),
            // The owner's reply, as the server would fetch it.
            Routed::Forward(u) => {
                assert!(u.starts_with("http://"));
                answers.push(if u.ends_with("/a") { Some(s("2")) } else { None })
            }
        }
    }
    let listed = assemble_list(keys, answers);
    assert_eq!(listed, vec![InsrtRequest::new(s("abc"), s("1")), InsrtRequest::new(s("a"), s("2"))]);
}
