//! The least-recently-used policy. The order of use is kept by an
//! `lru::LruCache` over the indices; the values stand in the index table.
use crate::cache::index_table::IndexTable;
use crate::cache::unicache::{
    lemma_position, lists_each_index, CapacityError, Dictionary, ReplacementPolicy, UniCache,
    MAX_CAPACITY,
};
use lru::LruCache;
use std::num::NonZeroUsize;
use vstd::prelude::*;

verus! {

/// `lru::LruCache`, of which nothing is known but what the functions below
/// say.
#[verifier::external_type_specification]
#[verifier::external_body]
#[verifier::reject_recursive_types(K)]
#[verifier::reject_recursive_types(V)]
#[verifier::reject_recursive_types(S)]
pub struct ExLruCache<K, V, S>(LruCache<K, V, S>);

/// `lru::DefaultHasher`, the hasher that an `LruCache` is built with where
/// none is given. Nothing is stated of it.
#[verifier::external_type_specification]
#[verifier::external_body]
pub struct ExDefaultHasher(lru::DefaultHasher);

/// The keys of the cache from the most recently used to the least recently
/// used.
pub uninterp spec fn recency(cache: LruCache<u8, ()>) -> Seq<u8>;

/// The number of keys that the cache was built to hold.
pub uninterp spec fn recency_limit(cache: LruCache<u8, ()>) -> nat;

/// `LruCache::new`: a cache without keys that holds at most `limit` of them.
#[verifier::external_body]
fn recency_new(limit: usize) -> (cache: LruCache<u8, ()>)
    requires
        1 <= limit <= MAX_CAPACITY,
    ensures
        recency(cache) == Seq::<u8>::empty(),
        recency_limit(cache) == limit,
{
    LruCache::new(NonZeroUsize::new(limit).unwrap())
}

/// `LruCache::push`: `key` becomes the most recently used. A key already in
/// the cache comes back itself; otherwise, if the cache is full, the least
/// recently used key leaves and comes back; otherwise nothing comes back.
#[verifier::external_body]
fn recency_push(cache: &mut LruCache<u8, ()>, key: u8) -> (out: Option<u8>)
    ensures
        recency_limit(*final(cache)) == recency_limit(*old(cache)),
        recency(*old(cache)).contains(key) ==> {
            &&& out == Some(key)
            &&& recency(*final(cache)) == seq![key] + recency(*old(cache)).remove_value(key)
        },
        !recency(*old(cache)).contains(key) && recency(*old(cache)).len() == recency_limit(
            *old(cache),
        ) ==> {
            &&& out == Some(recency(*old(cache)).last())
            &&& recency(*final(cache)) == seq![key] + recency(*old(cache)).drop_last()
        },
        !recency(*old(cache)).contains(key) && recency(*old(cache)).len() != recency_limit(
            *old(cache),
        ) ==> {
            &&& out is None
            &&& recency(*final(cache)) == seq![key] + recency(*old(cache))
        },
{
    cache.push(key, ()).map(|(gone, _)| gone)
}

/// `LruCache::promote`: a key in the cache becomes the most recently used
/// and `true` comes back; for a key not in it nothing changes and `false`
/// comes back.
#[verifier::external_body]
fn recency_promote(cache: &mut LruCache<u8, ()>, key: u8) -> (held: bool)
    ensures
        recency_limit(*final(cache)) == recency_limit(*old(cache)),
        held == recency(*old(cache)).contains(key),
        held ==> recency(*final(cache)) == seq![key] + recency(*old(cache)).remove_value(key),
        !held ==> recency(*final(cache)) == recency(*old(cache)),
{
    cache.promote(&key)
}

/// `LruCache::peek_lru`: the least recently used key, if there is any key.
#[verifier::external_body]
fn recency_peek_lru(cache: &LruCache<u8, ()>) -> (last: Option<u8>)
    ensures
        recency(*cache).len() == 0 ==> last is None,
        recency(*cache).len() > 0 ==> last == Some(recency(*cache).last()),
{
    cache.peek_lru().map(|(key, _)| *key)
}

/// `order` with `index` moved, or added, to the front.
pub open spec fn used_now(order: Seq<u8>, index: int) -> Seq<u8> {
    seq![index as u8] + order.remove_value(index as u8)
}

/// Moving one of the listed indices to the front, or adding the next index
/// in front, again gives a list of each index.
pub proof fn lemma_used_now(order: Seq<u8>, len: nat, index: int)
    requires
        lists_each_index(order, len),
        0 <= index <= len,
        index <= u8::MAX,
    ensures
        lists_each_index(
            used_now(order, index),
            if index == len {
                len + 1
            } else {
                len
            },
        ),
{
    let key = index as u8;
    let after = used_now(order, index);
    order.index_of_first_ensures(key);
    if index == len {
        assert(!order.contains(key)) by {
            if order.contains(key) {
                let i = order.index_of(key);
                assert(order[i] < len);
            }
        }
        assert(order.remove_value(key) == order);
        assert forall|i: int, j: int| 0 <= i < after.len() && 0 <= j < after.len() && i != j implies after[i] != after[j] by {
            if i > 0 && j > 0 {
                assert(after[i] == order[i - 1]);
                assert(after[j] == order[j - 1]);
            } else if i > 0 {
                assert(after[i] == order[i - 1]);
                assert(order.contains(order[i - 1]));
            } else {
                assert(after[j] == order[j - 1]);
                assert(order.contains(order[j - 1]));
            }
        }
        assert forall|i: int| 0 <= i < after.len() implies (#[trigger] after[i]) < len + 1 by {
            if i > 0 {
                assert(after[i] == order[i - 1]);
            }
        }
        assert forall|other: u8| other < len + 1 implies after.contains(other) by {
            if other == key {
                assert(after[0] == key);
            } else {
                assert(order.contains(other));
                let i = order.index_of(other);
                assert(after[i + 1] == other);
            }
        }
    } else {
        assert(order.contains(key));
        let at = order.index_of_first(key).unwrap();
        let rest = order.remove(at);
        assert(order.remove_value(key) == rest);
        assert(rest.len() == order.len() - 1);
        assert forall|i: int| 0 <= i < rest.len() implies rest[i] == order[if i < at {
            i
        } else {
            i + 1
        }] by {}
        assert forall|i: int, j: int| 0 <= i < after.len() && 0 <= j < after.len() && i != j implies after[i] != after[j] by {
            if i > 0 {
                assert(after[i] == rest[i - 1]);
            }
            if j > 0 {
                assert(after[j] == rest[j - 1]);
            }
        }
        assert forall|i: int| 0 <= i < after.len() implies (#[trigger] after[i]) < len by {
            if i > 0 {
                assert(after[i] == rest[i - 1]);
            }
        }
        assert forall|other: u8| other < len implies after.contains(other) by {
            if other == key {
                assert(after[0] == key);
            } else {
                assert(order.contains(other));
                let i = order.index_of(other);
                if i < at {
                    assert(after[i + 1] == rest[i]);
                    assert(after[i + 1] == other);
                } else {
                    assert(after[i] == rest[i - 1]);
                    assert(after[i] == other);
                }
            }
        }
    }
}

/// A dictionary that gives up the entry whose last use lies furthest back.
pub struct LruUniCache {
    capacity: usize,
    index_cache: IndexTable,
    lru_cache: LruCache<u8, ()>,
}

impl ReplacementPolicy for LruUniCache {
    /// The indices from the most recently used to the least recently used.
    type Meta = Seq<u8>;

    open spec fn consistent(meta: Seq<u8>, len: nat) -> bool {
        lists_each_index(meta, len)
    }

    open spec fn initial() -> Seq<u8> {
        Seq::empty()
    }

    /// The least recently used index.
    open spec fn victim(meta: Seq<u8>) -> int {
        meta.last() as int
    }

    /// A use moves the index to the front.
    open spec fn touch(meta: Seq<u8>, index: int) -> Seq<u8> {
        used_now(meta, index)
    }

    /// A stored value counts as used just now.
    open spec fn place(meta: Seq<u8>, index: int) -> Seq<u8> {
        used_now(meta, index)
    }

    proof fn lemma_initial() {
    }

    proof fn lemma_victim(meta: Seq<u8>, len: nat) {
        assert(meta[meta.len() - 1] < len);
    }

    proof fn lemma_touch(meta: Seq<u8>, len: nat, index: int) {
        lemma_used_now(meta, len, index);
    }

    proof fn lemma_place(meta: Seq<u8>, len: nat, index: int) {
        lemma_used_now(meta, len, index);
    }
}

impl LruUniCache {
    /// The number of entries.
    pub fn len(&self) -> (len: usize)
        ensures
            len == self.model().slots.len(),
    {
        self.index_cache.len()
    }

    /// The number of entries that the dictionary can hold.
    pub fn capacity(&self) -> (capacity: usize)
        ensures
            capacity == self.model().capacity,
    {
        self.capacity
    }
}

impl UniCache for LruUniCache {
    closed spec fn wf(&self) -> bool {
        &&& 1 <= self.capacity <= MAX_CAPACITY
        &&& self.index_cache.wf()
        &&& self.index_cache@.len() <= self.capacity
        &&& recency_limit(self.lru_cache) == self.capacity
        &&& lists_each_index(recency(self.lru_cache), self.index_cache@.len())
    }

    closed spec fn model(&self) -> Dictionary<Seq<u8>> {
        Dictionary {
            capacity: self.capacity as nat,
            slots: self.index_cache@,
            meta: recency(self.lru_cache),
        }
    }

    proof fn lemma_wf(&self) {
    }

    fn new(capacity: usize) -> (made: Result<Self, CapacityError>) {
        if capacity == 0 {
            Err(CapacityError::Zero)
        } else if capacity > MAX_CAPACITY {
            Err(CapacityError::TooLarge)
        } else {
            Ok(
                LruUniCache {
                    capacity,
                    index_cache: IndexTable::new(capacity),
                    lru_cache: recency_new(capacity),
                },
            )
        }
    }

    fn put(&mut self, item: String) {
        proof {
            lemma_position(self.index_cache@, item@);
        }
        match self.index_cache.index_of(item.as_str()) {
            Some(index) => {
                proof {
                    lemma_used_now(recency(self.lru_cache), self.index_cache@.len(), index as int);
                }
                let _ = recency_promote(&mut self.lru_cache, index as u8);
            },
            None => {
                let count = self.index_cache.len();
                if count < self.capacity {
                    proof {
                        lemma_used_now(recency(self.lru_cache), count as nat, count as int);
                        assert(!recency(self.lru_cache).contains(count as u8)) by {
                            if recency(self.lru_cache).contains(count as u8) {
                                let at = recency(self.lru_cache).index_of(count as u8);
                                assert(recency(self.lru_cache)[at] < count);
                            }
                        }
                        recency(self.lru_cache).index_of_first_ensures(count as u8);
                    }
                    let _ = self.index_cache.push(item);
                    let _ = recency_push(&mut self.lru_cache, count as u8);
                } else {
                    match recency_peek_lru(&self.lru_cache) {
                        Some(victim) => {
                            proof {
                                let order = recency(self.lru_cache);
                                assert(order[order.len() - 1] < count);
                                lemma_used_now(order, count as nat, victim as int);
                            }
                            let _ = self.index_cache.replace(victim as usize, item);
                            let _ = recency_promote(&mut self.lru_cache, victim);
                        },
                        None => unreached(),
                    }
                }
            },
        }
    }

    fn get_encoded_index(&mut self, item: &str) -> (found: Option<u8>) {
        proof {
            lemma_position(self.index_cache@, item@);
        }
        match self.index_cache.index_of(item) {
            Some(index) => {
                proof {
                    lemma_used_now(recency(self.lru_cache), self.index_cache@.len(), index as int);
                }
                let _ = recency_promote(&mut self.lru_cache, index as u8);
                Some(index as u8)
            },
            None => None,
        }
    }

    fn get_with_encoded_index(&mut self, index: u8) -> (item: String) {
        proof {
            lemma_used_now(recency(self.lru_cache), self.index_cache@.len(), index as int);
        }
        let item = self.index_cache.value_at(index as usize);
        let _ = recency_promote(&mut self.lru_cache, index);
        item
    }
}

} // verus!
