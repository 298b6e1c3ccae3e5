use kvs::byte_shard;
use kvs::model::key;
use kvs::model::request;

#[test]
fn byte_key_holds_utf8() {
    assert_eq!(key::MyKey::from_string("ab".to_string()).0, vec![97u8, 98u8]);
    assert_eq!(key::MyKey::from_string("é".to_string()).0, vec![0xC3u8, 0xA9u8]);
    assert_eq!(key::MyKey::from_string(String::new()).0, Vec::<u8>::new());
}

#[test]
fn text_key_holds_the_string() {
    assert_eq!(request::MyKey::from_string("k1".to_string()).0, "k1");
    assert_eq!(byte_shard::MyKey::from_string("k2".to_string()).0, "k2");
}

#[test]
fn request_constructors_keep_fields() {
    let r = request::InsrtRequest::new("k".to_string(), "v".to_string());
    assert_eq!(r.key, "k");
    assert_eq!(r.value, "v");
    let sv = request::ScoreValue::new(7, "x".to_string());
    assert_eq!(sv.score, 7);
    assert_eq!(sv.value, "x");
    let sr = request::ScoreRange::new(1, 9);
    assert_eq!(sr.min_score, 1);
    assert_eq!(sr.max_score, 9);
}
