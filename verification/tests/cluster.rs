use kvs::model::cluster::{finish_load, host_url, load_precheck, set_cluster, ClusterState, UNSET_IDX};
use kvs::model::http_req::{is_found, is_success, request_url};
use kvs::model::request::Cluster;
use kvs::model::store::Store;

#[test]
fn test_load_level_db() {
    let _kv = Store::new();
    let state = ClusterState::new();
    assert_eq!(load_precheck(&state), Some("no cluster info".to_string()));
}

#[test]
fn load_precheck_after_load_and_before() {
    let mut state = ClusterState::new();
    state.idx = 1;
    assert_eq!(load_precheck(&state), None);
    state.loaded = true;
    assert_eq!(load_precheck(&state), Some("ok".to_string()));
}

#[test]
fn host_url_adds_scheme_and_default_port() {
    assert_eq!(host_url("172.16.0.158"), "http://172.16.0.158:8080");
    assert_eq!(host_url("localhost:8081"), "http://localhost:8081");
    assert_eq!(host_url(""), "http://:8080");
}

#[test]
fn fresh_state_knows_nothing() {
    let state = ClusterState::new();
    assert_eq!(state.idx, UNSET_IDX);
    assert_eq!(state.urls, vec![String::new(), String::new(), String::new()]);
    assert!(!state.loaded);
}

#[test]
fn set_cluster_records_index_and_urls() {
    let mut state = ClusterState::new();
    let c = Cluster {
        hosts: vec!["localhost:8080".to_string(), "localhost:8081".to_string(), "10.0.0.3".to_string()],
        index: 2,
    };
    set_cluster(&mut state, c);
    assert_eq!(state.idx, 1);
    assert_eq!(
        state.urls,
        vec![
            "http://localhost:8080".to_string(),
            "http://localhost:8081".to_string(),
            "http://10.0.0.3:8080".to_string()
        ]
    );
}

#[test]
fn set_cluster_with_fewer_hosts_keeps_the_rest() {
    let mut state = ClusterState::new();
    set_cluster(&mut state, Cluster { hosts: vec!["a".to_string(), "b".to_string(), "c".to_string()], index: 1 });
    set_cluster(&mut state, Cluster { hosts: vec!["d:1".to_string()], index: 3 });
    assert_eq!(state.idx, 2);
    assert_eq!(
        state.urls,
        vec!["http://d:1".to_string(), "http://b:8080".to_string(), "http://c:8080".to_string()]
    );
}

#[test]
fn request_urls() {
    assert_eq!(request_url("http://h:1", "init", &vec![]), "http://h:1/init");
    assert_eq!(request_url("http://h:1", "query", &vec!["k1".to_string()]), "http://h:1/query/k1");
    assert_eq!(
        request_url("http://h:1", "zrmv2", &vec!["key0".to_string(), "0".to_string()]),
        "http://h:1/zrmv2/key0/0"
    );
}

#[test]
fn reply_statuses() {
    assert!(is_success(200));
    assert!(is_success(204));
    assert!(!is_success(404));
    assert!(!is_success(500));
    assert!(!is_success(199));
    assert!(is_found(200));
    assert!(!is_found(404));
}

#[test]
fn finish_load_marks_loaded_only_on_success() {
    let mut state = ClusterState::new();
    state.idx = 2;
    assert_eq!(finish_load(&mut state, false), "open failed");
    assert!(!state.loaded);
    assert_eq!(finish_load(&mut state, true), "ok");
    assert!(state.loaded);
    assert_eq!(load_precheck(&state), Some("ok".to_string()));
}
