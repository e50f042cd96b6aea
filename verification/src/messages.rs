//! What the threads of the server tell each other.
use crate::hash::{same_hash, FullHash};
use std::collections::HashMap;
use std::sync::Arc;
use vstd::prelude::*;
use vstd::std_specs::iter::IteratorSpec;

verus! {

broadcast use vstd::std_specs::hash::group_hash_axioms;

/// The bucket that a hash is kept in, by its first bytes.
spec fn bucket_spec(hash: FullHash) -> u64 {
    (hash@[0] + 0x100 * hash@[1] + 0x1_0000 * hash@[2] + 0x100_0000 * hash@[3]) as u64
}

/// The bucket that a hash is kept in.
fn bucket_of(hash: &FullHash) -> (r: u64)
    ensures
        r == bucket_spec(*hash),
{
    hash[0] as u64 + 0x100 * (hash[1] as u64) + 0x1_0000 * (hash[2] as u64) + 0x100_0000 * (
    hash[3] as u64)
}

/// Whether a hash is in a bucket.
fn holds(bucket: &Vec<FullHash>, hash: &FullHash) -> (r: bool)
    ensures
        r == bucket@.contains(*hash),
{
    let mut i: usize = 0;
    while i < bucket.len()
        invariant
            i <= bucket@.len(),
            forall|j: int| 0 <= j < i ==> #[trigger] bucket@[j] != *hash,
        decreases bucket@.len() - i,
    {
        if same_hash(&bucket[i], hash) {
            return true;
        }
        i = i + 1;
    }
    false
}

/// A set of script hashes, in buckets.
#[derive(Debug)]
pub struct ScriptHashSet {
    buckets: HashMap<u64, Vec<FullHash>>,
}

impl View for ScriptHashSet {
    type V = Set<FullHash>;

    closed spec fn view(&self) -> Set<FullHash> {
        Set::new(
            |hash: FullHash|
                self.buckets@.contains_key(bucket_spec(hash))
                    && self.buckets@[bucket_spec(hash)]@.contains(hash),
        )
    }
}

impl ScriptHashSet {
    /// The empty set.
    pub fn new() -> (r: ScriptHashSet)
        ensures
            r@ == Set::<FullHash>::empty(),
    {
        let r: ScriptHashSet = ScriptHashSet { buckets: HashMap::new() };
        assert(r@ =~= Set::<FullHash>::empty());
        r
    }

    /// Whether a hash is in the set.
    pub fn contains(&self, hash: &FullHash) -> (r: bool)
        ensures
            r == self@.contains(*hash),
    {
        match self.buckets.get(&bucket_of(hash)) {
            Some(bucket) => holds(bucket, hash),
            None => false,
        }
    }

    /// Whether the set is empty.
    pub fn is_empty(&self) -> (r: bool)
        ensures
            r == (self@ == Set::<FullHash>::empty()),
    {
        for pair in it: self.buckets.iter()
            invariant
                it.seq() == vstd::std_specs::hash::spec_hash_map_iter(&self.buckets).remaining(),
                forall|j: int, i: int|
                    0 <= j < it.index() && 0 <= i < (#[trigger] it.seq()[j]).1@.len()
                        ==> bucket_spec(#[trigger] it.seq()[j].1@[i]) != *it.seq()[j].0,
        {
            let key: u64 = *pair.0;
            let bucket: &Vec<FullHash> = pair.1;
            let mut i: usize = 0;
            while i < bucket.len()
                invariant
                    i <= bucket@.len(),
                    self.buckets@.contains_key(key),
                    self.buckets@[key] == *bucket,
                    forall|j: int| 0 <= j < i ==> bucket_spec(#[trigger] bucket@[j]) != key,
                decreases bucket@.len() - i,
            {
                if bucket_of(&bucket[i]) == key {
                    assert(bucket@.contains(bucket@[i as int]));
                    assert(self@.contains(bucket@[i as int]));
                    return false;
                }
                i = i + 1;
            }
        }
        proof {
            assert forall|hash: FullHash| !self@.contains(hash) by {
                let key = bucket_spec(hash);
                if self@.contains(hash) {
                    let pairs = vstd::std_specs::hash::spec_hash_map_iter(
                        &self.buckets,
                    ).remaining();
                    let bucket = self.buckets@[key];
                    let j = choose|j: int|
                        0 <= j < pairs.len() && pairs[j] == (&key, &bucket);
                    let i = choose|i: int| 0 <= i < bucket@.len() && bucket@[i] == hash;
                    assert(pairs[j].1@[i] == hash);
                }
            }
            assert(self@ =~= Set::<FullHash>::empty());
        }
        true
    }

    /// Adds a hash; says whether it is new.
    pub fn insert(&mut self, hash: FullHash) -> (r: bool)
        ensures
            final(self)@ == old(self)@.insert(hash),
            r == !old(self)@.contains(hash),
    {
        let ghost before = self.buckets@;
        let key: u64 = bucket_of(&hash);
        let mut bucket: Vec<FullHash> = match self.buckets.remove(&key) {
            Some(bucket) => bucket,
            None => Vec::new(),
        };
        let ghost given = bucket@;
        let fresh: bool = !holds(&bucket, &hash);
        if fresh {
            bucket.push(hash);
        }
        self.buckets.insert(key, bucket);
        proof {
            assert forall|h: FullHash| bucket@.contains(h) == (given.contains(h) || h == hash) by {
                if given.contains(h) {
                    let i = choose|i: int| 0 <= i < given.len() && given[i] == h;
                    assert(bucket@[i] == h);
                }
                if fresh && h == hash {
                    assert(bucket@[given.len() as int] == h);
                }
            }
            assert(self@ =~= old(self)@.insert(hash));
        }
        fresh
    }
}

/// Scripts whose mempool state changed since the last update, shared by all
/// connections.
pub type DirtyScriptHashes = Arc<ScriptHashSet>;

/// What a connection is told.
#[derive(Debug)]
pub enum Message {
    /// A line from the client.
    Request(String),
    /// Check the subscriptions: of the scripts in `dirty` the mempool state
    /// changed, and `tip_changed` tells whether there is a new block.
    PeriodicUpdate { dirty: DirtyScriptHashes, tip_changed: bool },
    /// The client is gone, or the server stops.
    Done,
}

/// What the notifier is told.
#[derive(Debug)]
pub enum Notification {
    /// The mempool or the chain changed.
    Periodic { dirty: DirtyScriptHashes, tip_changed: bool },
    /// The server stops.
    Exit,
}

} // verus!
