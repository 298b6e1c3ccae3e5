//! A sharded key-value and sorted-set store whose nodes split the key space
//! between them by hash slot.
pub mod byte_shard;
pub mod model;
