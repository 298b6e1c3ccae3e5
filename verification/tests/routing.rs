use kvs::byte_shard;
use kvs::model::evn::{cluster_idx, hash_of_str, mask_serves, owner_idx, owners_of_hash, shard_idx, shard_of_hash, SHARD_NUM};

#[test]
fn hash_is_xxhash32_of_the_bytes() {
    assert_eq!(hash_of_str(""), 0x02CC5D05);
    assert_eq!(hash_of_str("a"), 0x550D7456);
    assert_eq!(hash_of_str("abc"), 0x32D153FF);
}

#[test]
fn shard_of_hash_is_the_remainder() {
    assert_eq!(shard_of_hash(0), 0);
    assert_eq!(shard_of_hash(13), 5);
    assert_eq!(shard_of_hash(u32::MAX), 7);
}

#[test]
fn shard_idx_of_keys() {
    assert_eq!(shard_idx(&String::new()), 0);
    assert_eq!(shard_idx(&"a".to_string()), 6);
    assert_eq!(shard_idx(&"b".to_string()), 7);
    assert_eq!(shard_idx(&"key1".to_string()), 1);
    assert!(shard_idx(&"anything at all".to_string()) < SHARD_NUM);
}

#[test]
fn owners_by_third_of_the_slots() {
    assert_eq!(owners_of_hash(0), 1);
    assert_eq!(owners_of_hash(999), 1);
    assert_eq!(owners_of_hash(1000), 2);
    assert_eq!(owners_of_hash(1999), 2);
    assert_eq!(owners_of_hash(2000), 4);
    assert_eq!(owners_of_hash(2999), 4);
    assert_eq!(owners_of_hash(3000), 1);
    assert_eq!(owners_of_hash(u32::MAX), 4);
}

#[test]
fn cluster_idx_of_keys() {
    assert_eq!(cluster_idx(""), 0);
    assert_eq!(cluster_idx("abc"), 1);
    assert_eq!(cluster_idx("a"), 2);
    assert_eq!(cluster_idx("b"), 2);
    assert_eq!(cluster_idx("key0"), 4);
}

#[test]
fn byte_shard_uses_the_last_byte() {
    assert_eq!(byte_shard::shard_idx(&String::new()), 0);
    assert_eq!(byte_shard::shard_idx(&"a".to_string()), 97 % 16);
    assert_eq!(byte_shard::shard_idx(&"xyz".to_string()), 122 % 16);
    // 'é' is encoded as 0xC3 0xA9: the last byte counts.
    assert_eq!(byte_shard::shard_idx(&"é".to_string()), 0xA9 % 16);
}

#[test]
fn byte_shard_cluster_is_hash_mod_three() {
    assert_eq!(byte_shard::cluster_idx(&String::new()), 0);
    assert_eq!(byte_shard::cluster_idx(&"a".to_string()), 0);
    assert_eq!(byte_shard::cluster_idx(&"b".to_string()), 1);
    assert_eq!(byte_shard::cluster_idx(&"key1".to_string()), 1);
}

#[test]
fn every_nonempty_key_has_one_owner_bit() {
    for k in ["a", "b", "c", "k", "abc", "key0", "key1", "localhost:8080"] {
        let m = cluster_idx(k);
        assert!(m == 1 || m == 2 || m == 4, "{} -> {}", k, m);
    }
}

#[test]
fn masks_name_their_nodes() {
    assert!(mask_serves(1, 0) && !mask_serves(1, 1) && !mask_serves(1, 2));
    assert!(mask_serves(2, 1) && !mask_serves(2, 0) && !mask_serves(2, 2));
    assert!(mask_serves(4, 2) && !mask_serves(4, 0) && !mask_serves(4, 1));
    assert!(mask_serves(0, 0) && !mask_serves(0, 1));
    assert!(!mask_serves(4, 3));
}

#[test]
fn owner_of_keys() {
    assert_eq!(owner_idx(""), 0);
    assert_eq!(owner_idx("abc"), 0);
    assert_eq!(owner_idx("a"), 1);
    assert_eq!(owner_idx("key0"), 2);
}
