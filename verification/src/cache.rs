//! Bounded dictionaries with replaceable eviction policies.
use vstd::prelude::*;

pub mod index_table;
pub mod lfu_cache;
pub mod lru_cache;
pub mod unicache;

verus! {

/// The replacement policies a dictionary can be built with.
#[derive(Copy, Clone, Debug, PartialEq, Eq, Structural)]
pub enum CacheType {
    LFU,
    LRU,
    LECAR,
}

} // verus!
