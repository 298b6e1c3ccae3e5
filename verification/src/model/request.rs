use vstd::prelude::*;

verus! {

/// A key-value pair to store.
#[derive(Debug, Clone, PartialEq, Eq)]
pub struct InsrtRequest {
    pub key: String,
    pub value: String,
}

impl InsrtRequest {
    /// A request to store `value` under `key`.
    pub fn new(key: String, value: String) -> (r: Self)
        ensures
            r.key@ == key@,
            r.value@ == value@,
    {
        InsrtRequest { key, value }
    }
}

/// The membership of a cluster: the address of each node, and the 1-based
/// position of the receiving node among them.
#[derive(Debug, Clone, PartialEq, Eq)]
pub struct Cluster {
    pub hosts: Vec<String>,
    pub index: usize,
}

/// A member of a sorted set: a value with its score.
#[derive(Debug, Clone, PartialEq, Eq)]
pub struct ScoreValue {
    pub score: u32,
    pub value: String,
}

impl ScoreValue {
    /// The member `value` with score `score`.
    pub fn new(score: u32, value: String) -> (r: Self)
        ensures
            r.score == score,
            r.value@ == value@,
    {
        ScoreValue { score, value }
    }
}

/// An inclusive range of scores.
#[derive(Debug, Clone, PartialEq, Eq)]
pub struct ScoreRange {
    pub min_score: u32,
    pub max_score: u32,
}

impl ScoreRange {
    /// The scores from `min_score` to `max_score`, both included.
    pub fn new(min_score: u32, max_score: u32) -> (r: Self)
        ensures
            r.min_score == min_score,
            r.max_score == max_score,
    {
        ScoreRange { min_score, max_score }
    }
}

/// A key of the on-disk database, held as text.
#[derive(Debug, Clone, PartialEq, Eq, Hash)]
pub struct MyKey(pub String);

impl MyKey {
    /// Wraps a string as a database key.
    pub fn from_string(v: String) -> (r: Self)
        ensures
            r.0@ == v@,
    {
        MyKey(v)
    }
}

} // verus!
