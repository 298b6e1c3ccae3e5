//! A three-node cluster run in one process: each forwarded request is
//! delivered to the node whose URL it names, which answers it locally.
use kvs::model::cluster::{set_cluster, ClusterState};
use kvs::model::request::{Cluster, InsrtRequest, ScoreRange, ScoreValue};
use kvs::model::route::{assemble_list, route_get, route_insert, route_list, route_range, route_zadd, Routed};
use kvs::model::store::Store;

fn s(x: &str) -> String {
    x.to_string()
}

struct Cluster3 {
    stores: Vec<Store>,
    states: Vec<ClusterState>,
}

impl Cluster3 {
    fn new() -> Self {
        let hosts = vec![s("n0"), s("n1"), s("n2")];
        let mut states = Vec::new();
        for i in 0..3 {
            let mut st = ClusterState::new();
            set_cluster(&mut st, Cluster { hosts: hosts.clone(), index: i + 1 });
            states.push(st);
        }
        Cluster3 { stores: vec![Store::new(), Store::new(), Store::new()], states }
    }

    fn node_of(url: &str) -> usize {
        ["http://n0:8080/", "http://n1:8080/", "http://n2:8080/"].iter().position(|p| url.starts_with(p)).unwrap()
    }

    fn key_of(url: &str) -> String {
        url.rsplit('/').next().unwrap().to_string()
    }

    fn add(&mut self, via: usize, k: &str, v: &str) {
        let req = InsrtRequest::new(s(k), s(v));
        if let Some(url) = route_insert(&mut self.stores[via], &self.states[via], req.clone()) {
            self.stores[Self::node_of(&url)].insert_local(req);
        }
    }

    fn query(&mut self, via: usize, k: &str) -> Option<String> {
        match route_get(&mut self.stores[via], &self.states[via], &s(k)) {
            Routed::Here(v) => v,
            Routed::Forward(url) => {
                let owner = Self::node_of(&url);
                self.stores[owner].local_get(&Self::key_of(&url))
            }
        }
    }

    fn zadd(&mut self, via: usize, k: &str, v: ScoreValue) {
        if let Some(url) = route_zadd(&mut self.stores[via], &self.states[via], s(k), v.clone()) {
            self.stores[Self::node_of(&url)].do_insert(Self::key_of(&url), v);
        }
    }

    fn range(&mut self, via: usize, k: &str, r: ScoreRange) -> Vec<ScoreValue> {
        match route_range(&self.stores[via], &self.states[via], &s(k), r.clone()) {
            Routed::Here(out) => out,
            Routed::Forward(url) => self.stores[Self::node_of(&url)].range_Local(&Self::key_of(&url), r),
        }
    }
}

#[test]
fn every_node_answers_every_key() {
    let mut c = Cluster3::new();
    for i in 0..30 {
        c.add(i % 3, &format!("key{}", i), &format!("val{}", i));
    }
    for via in 0..3 {
        for i in 0..30 {
            assert_eq!(c.query(via, &format!("key{}", i)), Some(format!("val{}", i)));
        }
        assert_eq!(c.query(via, "missing"), None);
    }
}

#[test]
fn every_node_lists_every_key() {
    let mut c = Cluster3::new();
    let keys: Vec<String> = (0..10).map(|i| format!("key{}", i)).collect();
    for (i, k) in keys.iter().enumerate() {
        c.add(i % 3, k, "v");
    }
    for via in 0..3 {
        let plan = route_list(&mut c.stores[via], &c.states[via], &keys);
        let mut answers = Vec::new();
        for step in plan {
            answers.push(match step {
                Routed::Here(v) => v,
                Routed::Forward(url) => {
                    let owner = Cluster3::node_of(&url);
                    c.stores[owner].local_get(&Cluster3::key_of(&url))
                }
            });
        }
        let listed = assemble_list(keys.clone(), answers);
        assert_eq!(listed.len(), keys.len());
        for (i, r) in listed.iter().enumerate() {
            assert_eq!(r.key, keys[i]);
        }
    }
}

#[test]
fn every_node_answers_every_range() {
    let mut c = Cluster3::new();
    for i in 0..6 {
        for j in 0..10u32 {
            c.zadd((i + j as usize) % 3, &format!("key{}", i), ScoreValue::new(j, j.to_string()));
        }
    }
    for via in 0..3 {
        for i in 0..6 {
            let k = format!("key{}", i);
            assert_eq!(c.range(via, &k, ScoreRange::new(0, 5)).len(), 6);
            assert_eq!(c.range(via, &k, ScoreRange::new(0, 10)).len(), 10);
        }
    }
}
