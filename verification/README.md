# kvs

A node of a small sharded key-value and sorted-set store, verified with Verus.

- `src/model/evn.rs`: sharding and routing. A key's shard is its xxHash32
  digest modulo 8; its owners are the node mask of its slot (digest modulo
  3000, split in thirds).
- `src/byte_shard.rs`: the lighter scheme (last byte modulo 16, digest
  modulo 3).
- `src/model/sort_values.rs`: one sorted set, indexed by score (ordered map
  of buckets) and by value; range queries list members in score order.
  Each bucket is a `Vec<String>` kept free of repeats: a range query must
  walk the bucket, and neither vstd's `StringHashSet` (no iteration) nor
  std's `HashSet<String>` (its specification holds only for key types
  known to hash deterministically, which `String` is not declared to be)
  can be walked in verified code.
- `src/model/store.rs`: a node's data in sharded concurrent maps, with the
  routed operations the server exposes. A node holds a bounded number of
  plain values and evicts the least recently used one when a new key finds
  it full.
- `src/model/route.rs`: where each request is answered. Node `i` serves the
  keys whose owner mask has bit `i` set; a configured node answers for its
  own keys and hands back the owner's URL for every other key.
- `src/model/cluster.rs`, `src/model/http_req.rs`: cluster membership and
  the URLs and reply statuses of node-to-node requests.
- `app/`: the HTTP server, the on-disk database and cluster file, and the
  HTTP client.
