use vstd::prelude::*;

verus! {

/// Number of shards each store splits its maps into.
pub const SHARD_NUM: usize = 8;

/// Initial capacity of each sorted-set shard.
pub const DEFAULT_SIZE: usize = 1024 * 8;

/// Initial capacity of each key-value shard.
pub const DEFAULT_KV_SIZE: usize = 1024 * 8;

/// Number of nodes in a cluster.
pub const CLUSTER_NUM: usize = 3;

/// Number of hash slots the key space is divided into.
pub const TOTAL_SLOTS: usize = 3000;

/// Number of slots each node owns.
pub const SUB_SLOTS: usize = 1000;

/// Number of slots past its own range that a node also serves.
pub const MORE_CACHE: usize = 0;

/// The xxHash32 digest (seed 0) of a byte string, as computed by `fasthash`.
pub uninterp spec fn xx_hash32(bytes: Seq<u8>) -> u32;

/// Calls `fasthash::xx::hash32`, which digests the bytes with xxHash32 and
/// seed 0. Claimed: the digest depends on the bytes alone.
#[verifier::external_body]
pub(crate) fn hash32(bytes: &[u8]) -> (h: u32)
    ensures
        h == xx_hash32(bytes@),
{
    fasthash::xx::hash32(bytes)
}

/// The digest of a key: the hash of its UTF-8 bytes.
pub open spec fn key_hash(key: Seq<char>) -> u32 {
    xx_hash32(vstd::utf8::encode_utf8(key))
}

/// The digest of a string, computed over its UTF-8 bytes.
pub fn hash_of_str(s: &str) -> (h: u32)
    ensures
        h == key_hash(s@),
{
    hash32(s.as_bytes())
}

/// The shard that a key is stored in.
pub open spec fn shard_spec(key: Seq<char>) -> int {
    if key.len() == 0 {
        0
    } else {
        (key_hash(key) as int) % (SHARD_NUM as int)
    }
}

/// A non-empty key lands in the shard given by its digest modulo eight, the
/// number of shards.
pub proof fn law_shard_digest_mod_eight(key: Seq<char>)
    requires
        key.len() > 0,
    ensures
        0 <= shard_spec(key) < 8,
        shard_spec(key) == (key_hash(key) as int) % 8,
{
}

/// The shard that a key with the given digest is stored in.
pub fn shard_of_hash(h: u32) -> (r: usize)
    ensures
        r == (h as int) % (SHARD_NUM as int),
        r < SHARD_NUM,
{
    (h as usize) % SHARD_NUM
}

/// The shard that a key is stored in: shard 0 for the empty key, else its
/// digest modulo the number of shards.
pub fn shard_idx(s: &String) -> (r: usize)
    ensures
        r == shard_spec(s@),
        r < SHARD_NUM,
{
    if s.as_str().is_empty() {
        return 0;
    }
    shard_of_hash(hash_of_str(s.as_str()))
}

/// The bit mask of the nodes that serve a slot: bit 0 for the first third of
/// the slots, bit 1 for the second, bit 2 for the last (each range widened by
/// `MORE_CACHE` slots).
pub open spec fn slot_owners(slot: int) -> int {
    (if slot < SUB_SLOTS + MORE_CACHE { 1int } else { 0int })
        + (if SUB_SLOTS <= slot && slot < SUB_SLOTS * 2 + MORE_CACHE { 2int } else { 0int })
        + (if slot >= SUB_SLOTS * 2 || slot < MORE_CACHE { 4int } else { 0int })
}

/// The node mask of a key: 0 for the empty key, else the owners of its slot.
pub open spec fn cluster_spec(key: Seq<char>) -> int {
    if key.len() == 0 {
        0
    } else {
        slot_owners((key_hash(key) as int) % (TOTAL_SLOTS as int))
    }
}

/// The node mask of the slot of a key with the given digest.
pub fn owners_of_hash(h: u32) -> (r: usize)
    ensures
        r == slot_owners((h as int) % (TOTAL_SLOTS as int)),
{
    let hash_code: usize = (h as usize) % TOTAL_SLOTS;
    let mut idx: usize = 0;
    if hash_code < SUB_SLOTS + MORE_CACHE {
        idx = idx | 1;
        assert(0usize | 1usize == 1usize) by (bit_vector);
    }
    if hash_code >= SUB_SLOTS && hash_code < SUB_SLOTS * 2 + MORE_CACHE {
        let before = idx;
        idx = idx | 2;
        assert(before <= 1 ==> before | 2 == before + 2) by (bit_vector);
    }
    if hash_code >= SUB_SLOTS * 2 || hash_code < MORE_CACHE {
        let before = idx;
        idx = idx | 4;
        assert(before <= 3 ==> before | 4 == before + 4) by (bit_vector);
    }
    idx
}

/// The node mask of a key: 0 for the empty key, else bit `i` set for each
/// node `i` that serves the key's slot.
pub fn cluster_idx(s: &str) -> (r: usize)
    ensures
        r == cluster_spec(s@),
{
    if s.is_empty() {
        return 0;
    }
    owners_of_hash(hash_of_str(s))
}

/// Whether the node with 0-based index `node` serves the keys of a slot
/// whose owner mask is `mask`: bit `node` of the mask is set. The empty mask,
/// that of the empty key, falls to node 0.
pub open spec fn mask_has_node(mask: int, node: int) -> bool {
    if mask == 0 {
        node == 0
    } else {
        ||| node == 0 && mask % 2 == 1
        ||| node == 1 && (mask / 2) % 2 == 1
        ||| node == 2 && (mask / 4) % 2 == 1
    }
}

/// Whether the node with 0-based index `node` serves keys with owner mask
/// `mask`.
pub fn mask_serves(mask: usize, node: usize) -> (r: bool)
    ensures
        r == mask_has_node(mask as int, node as int),
{
    if mask == 0 {
        node == 0
    } else if node == 0 {
        mask % 2 == 1
    } else if node == 1 {
        (mask / 2) % 2 == 1
    } else if node == 2 {
        (mask / 4) % 2 == 1
    } else {
        false
    }
}

/// The 0-based index of the node that serves a key: the lowest node whose
/// bit is set in the key's mask, node 0 for the empty mask.
pub open spec fn owner_spec(key: Seq<char>) -> int {
    let mask = cluster_spec(key);
    if mask == 0 || mask % 2 == 1 {
        0
    } else if (mask / 2) % 2 == 1 {
        1
    } else {
        2
    }
}

/// The 0-based index of the node that serves `s`.
pub fn owner_idx(s: &str) -> (r: usize)
    ensures
        r == owner_spec(s@),
        r < CLUSTER_NUM,
{
    let mask = cluster_idx(s);
    if mask == 0 || mask % 2 == 1 {
        0
    } else if (mask / 2) % 2 == 1 {
        1
    } else {
        2
    }
}

/// Each key, the empty one included, is served by exactly one of the three
/// nodes: its owner.
pub proof fn law_one_server_per_key(key: Seq<char>, node: int)
    ensures
        0 <= owner_spec(key) < CLUSTER_NUM,
        mask_has_node(cluster_spec(key), node) <==> node == owner_spec(key),
{
}

/// With no overlap between the ranges, each slot has exactly one owner:
/// the mask of a non-empty key is 1, 2 or 4, by the third of the slots it
/// falls in.
pub proof fn lemma_one_owner_per_key(key: Seq<char>)
    requires
        key.len() > 0,
    ensures
        cluster_spec(key) == 1 || cluster_spec(key) == 2 || cluster_spec(key) == 4,
        cluster_spec(key) == 1 <==> (key_hash(key) as int) % 3000 < 1000,
        cluster_spec(key) == 2 <==> 1000 <= (key_hash(key) as int) % 3000 < 2000,
        cluster_spec(key) == 4 <==> 2000 <= (key_hash(key) as int) % 3000,
{
}

} // verus!
