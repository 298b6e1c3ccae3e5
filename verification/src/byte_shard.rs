//! The lighter routing scheme: a key is sharded by its last byte, over more
//! shards, and assigned to exactly one node by its digest.
use vstd::prelude::*;
use crate::model::evn::{hash_of_str, key_hash};
pub use crate::model::request::MyKey;

verus! {

/// Number of shards each store splits its maps into under this scheme.
pub const SHARD_NUM: usize = 16;

/// Initial capacity of each sorted-set shard under this scheme.
pub const DEFAULT_SIZE: usize = 1024 * 16;

/// Initial capacity of each key-value shard under this scheme.
pub const DEFAULT_KV_SIZE: usize = 1024 * 32;

/// Number of nodes in a cluster under this scheme.
pub const CLUSTER_NUM: usize = 3;

/// The shard of a key: 0 for the empty key, else its last UTF-8 byte modulo
/// the number of shards.
pub open spec fn shard_spec(key: Seq<char>) -> int {
    let bytes = vstd::utf8::encode_utf8(key);
    if bytes.len() == 0 {
        0
    } else {
        (bytes.last() as int) % (SHARD_NUM as int)
    }
}

/// The node of a key: 0 for the empty key, else its digest modulo the
/// number of nodes.
pub open spec fn cluster_spec(key: Seq<char>) -> int {
    if key.len() == 0 {
        0
    } else {
        (key_hash(key) as int) % (CLUSTER_NUM as int)
    }
}

/// A key with at least one byte lands in the shard given by its last UTF-8
/// byte modulo sixteen, the number of shards.
pub proof fn law_byte_shard_last_byte(key: Seq<char>)
    requires
        vstd::utf8::encode_utf8(key).len() > 0,
    ensures
        0 <= shard_spec(key) < 16,
        shard_spec(key) == (vstd::utf8::encode_utf8(key).last() as int) % 16,
{
}

/// A non-empty key goes to the node given by its digest modulo three, the
/// number of nodes, so each of the nodes 0, 1 and 2 takes the keys whose
/// digests leave that remainder.
pub proof fn law_byte_cluster_digest_mod_three(key: Seq<char>)
    requires
        key.len() > 0,
    ensures
        0 <= cluster_spec(key) < 3,
        cluster_spec(key) == (key_hash(key) as int) % 3,
{
}

/// The shard of a key: 0 for the empty key, else its last byte modulo the
/// number of shards.
pub fn shard_idx(s: &String) -> (r: usize)
    ensures
        r == shard_spec(s@),
        r < SHARD_NUM,
{
    let bytes = s.as_str().as_bytes();
    let n = bytes.len();
    if n == 0 {
        return 0;
    }
    (bytes[n - 1] as usize) % SHARD_NUM
}

/// The node of a key: 0 for the empty key, else its digest modulo the number
/// of nodes.
pub fn cluster_idx(s: &String) -> (r: usize)
    ensures
        r == cluster_spec(s@),
        r < CLUSTER_NUM,
{
    if s.as_str().is_empty() {
        return 0;
    }
    (hash_of_str(s.as_str()) as usize) % CLUSTER_NUM
}

} // verus!
