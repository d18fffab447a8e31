//! The least-frequently-used policy. Each entry counts its uses; the entry
//! with the fewest goes first, and among equals the one admitted earliest.
use crate::cache::index_table::IndexTable;
use crate::cache::unicache::{
    lemma_position, lists_each_index, promoted, CapacityError, Dictionary, ReplacementPolicy,
    UniCache, MAX_CAPACITY,
};
use vstd::prelude::*;

verus! {

/// The bookkeeping of the policy.
pub struct Usage {
    /// The number of uses of the entry at each index, its admission counted.
    pub hits: Seq<u64>,
    /// The indices in the order of admission, the earliest first.
    pub admitted: Seq<u8>,
}

/// A count one higher, unless it stands at the largest number.
pub open spec fn bumped(count: u64) -> u64 {
    if count < u64::MAX {
        (count + 1) as u64
    } else {
        count
    }
}

/// Among the first `upto` of the admitted indices, the one with the fewest
/// hits; of several such, the earliest admitted.
pub open spec fn least_used(usage: Usage, upto: nat) -> u8
    decreases upto,
{
    if upto <= 1 {
        usage.admitted[0]
    } else {
        let best = least_used(usage, (upto - 1) as nat);
        let next = usage.admitted[upto - 1];
        if usage.hits[next as int] < usage.hits[best as int] {
            next
        } else {
            best
        }
    }
}

/// The place of `least_used` in the order of admission.
pub open spec fn least_used_at(usage: Usage, upto: nat) -> int
    decreases upto,
{
    if upto <= 1 {
        0
    } else {
        let best = least_used(usage, (upto - 1) as nat);
        let next = usage.admitted[upto - 1];
        if usage.hits[next as int] < usage.hits[best as int] {
            upto - 1
        } else {
            least_used_at(usage, (upto - 1) as nat)
        }
    }
}

/// The bookkeeping fits `len` entries.
pub open spec fn usage_fits(usage: Usage, len: nat) -> bool {
    &&& usage.hits.len() == len
    &&& lists_each_index(usage.admitted, len)
    &&& forall|i: int| 0 <= i < usage.hits.len() ==> #[trigger] usage.hits[i] >= 1
}

/// `least_used` is one of the admitted indices, stands where `least_used_at`
/// says, has no more hits than any index considered, and comes before every
/// one of them with as few.
pub proof fn lemma_least_used(usage: Usage, len: nat, upto: nat)
    requires
        usage_fits(usage, len),
        1 <= upto <= len,
    ensures
        0 <= least_used_at(usage, upto) < upto,
        usage.admitted[least_used_at(usage, upto)] == least_used(usage, upto),
        least_used(usage, upto) < len,
        forall|at: int|
            0 <= at < upto ==> usage.hits[least_used(usage, upto) as int] <= usage.hits[(
            #[trigger] usage.admitted[at]) as int],
        forall|at: int|
            0 <= at < upto && usage.hits[(#[trigger] usage.admitted[at]) as int]
                == usage.hits[least_used(usage, upto) as int] ==> least_used_at(usage, upto) <= at,
    decreases upto,
{
    if upto > 1 {
        lemma_least_used(usage, len, (upto - 1) as nat);
    }
}

/// `order` with `index` moved, or added, to the back.
pub open spec fn admitted_now(order: Seq<u8>, index: int) -> Seq<u8> {
    order.remove_value(index as u8).push(index as u8)
}

/// Moving one of the listed indices to the back, or adding the next index
/// at the back, again gives a list of each index.
pub proof fn lemma_admitted_now(order: Seq<u8>, len: nat, index: int)
    requires
        lists_each_index(order, len),
        0 <= index <= len,
        index <= u8::MAX,
    ensures
        lists_each_index(
            admitted_now(order, index),
            if index == len {
                len + 1
            } else {
                len
            },
        ),
{
    let key = index as u8;
    let after = admitted_now(order, index);
    order.index_of_first_ensures(key);
    if index == len {
        assert(!order.contains(key)) by {
            if order.contains(key) {
                let i = order.index_of(key);
                assert(order[i] < len);
            }
        }
        assert(order.remove_value(key) == order);
        assert forall|i: int, j: int|
            0 <= i < after.len() && 0 <= j < after.len() && i != j implies after[i] != after[j] by {
            if i < order.len() {
                assert(order.contains(order[i]));
            }
            if j < order.len() {
                assert(order.contains(order[j]));
            }
        }
        assert forall|other: u8| other < len + 1 implies after.contains(other) by {
            if other == key {
                assert(after[order.len() as int] == key);
            } else {
                assert(order.contains(other));
                let i = order.index_of(other);
                assert(after[i] == other);
            }
        }
    } else {
        assert(order.contains(key));
        let at = order.index_of_first(key).unwrap();
        let rest = order.remove(at);
        assert(order.remove_value(key) == rest);
        assert(rest.len() == order.len() - 1);
        assert forall|i: int| 0 <= i < rest.len() implies rest[i] == order[if i < at {
            i
        } else {
            i + 1
        }] by {}
        assert forall|i: int, j: int|
            0 <= i < after.len() && 0 <= j < after.len() && i != j implies after[i] != after[j] by {
            if i < rest.len() {
                assert(after[i] == rest[i]);
            }
            if j < rest.len() {
                assert(after[j] == rest[j]);
            }
        }
        assert forall|i: int| 0 <= i < after.len() implies (#[trigger] after[i]) < len by {
            if i < rest.len() {
                assert(after[i] == rest[i]);
            }
        }
        assert forall|other: u8| other < len implies after.contains(other) by {
            if other == key {
                assert(after[rest.len() as int] == key);
            } else {
                assert(order.contains(other));
                let i = order.index_of(other);
                if i < at {
                    assert(after[i] == rest[i]);
                    assert(after[i] == other);
                } else {
                    assert(after[i - 1] == rest[i - 1]);
                    assert(after[i - 1] == other);
                }
            }
        }
    }
}

/// A dictionary that gives up the entry used least often.
pub struct LfuUniCache {
    capacity: usize,
    index_cache: IndexTable,
    hits: Vec<u64>,
    admitted: Vec<u8>,
}

impl ReplacementPolicy for LfuUniCache {
    type Meta = Usage;

    open spec fn consistent(meta: Usage, len: nat) -> bool {
        usage_fits(meta, len)
    }

    open spec fn initial() -> Usage {
        Usage { hits: Seq::empty(), admitted: Seq::empty() }
    }

    /// The index with the fewest hits; of several, the earliest admitted.
    open spec fn victim(meta: Usage) -> int {
        least_used(meta, meta.admitted.len()) as int
    }

    /// A use raises the count of the index.
    open spec fn touch(meta: Usage, index: int) -> Usage {
        Usage { hits: meta.hits.update(index, bumped(meta.hits[index])), ..meta }
    }

    /// A stored value starts at one hit and is the latest admitted.
    open spec fn place(meta: Usage, index: int) -> Usage {
        Usage {
            hits: if index == meta.hits.len() {
                meta.hits.push(1)
            } else {
                meta.hits.update(index, 1)
            },
            admitted: admitted_now(meta.admitted, index),
        }
    }

    proof fn lemma_initial() {
    }

    proof fn lemma_victim(meta: Usage, len: nat) {
        lemma_least_used(meta, len, len);
    }

    proof fn lemma_touch(meta: Usage, len: nat, index: int) {
    }

    proof fn lemma_place(meta: Usage, len: nat, index: int) {
        lemma_admitted_now(meta.admitted, len, index);
    }
}

impl LfuUniCache {
    /// The bookkeeping as a mathematical value.
    pub closed spec fn usage(&self) -> Usage {
        Usage { hits: self.hits@, admitted: self.admitted@ }
    }

    /// The place, in the order of admission, of the index to give up.
    fn victim_at(&self) -> (at: usize)
        requires
            self.wf(),
            self.index_cache@.len() > 0,
        ensures
            at == least_used_at(self.usage(), self.admitted@.len()),
            at < self.admitted@.len(),
            self.admitted@[at as int] == least_used(self.usage(), self.admitted@.len()),
    {
        let len = self.admitted.len();
        let mut at: usize = 0;
        let mut upto: usize = 1;
        proof {
            lemma_least_used(self.usage(), len as nat, 1);
        }
        while upto < len
            invariant
                self.wf(),
                len == self.admitted@.len(),
                1 <= upto <= len,
                at == least_used_at(self.usage(), upto as nat),
                at < upto,
                self.admitted@[at as int] == least_used(self.usage(), upto as nat),
            decreases len - upto,
        {
            proof {
                lemma_least_used(self.usage(), len as nat, (upto + 1) as nat);
            }
            let next = self.admitted[upto];
            let best = self.admitted[at];
            if self.hits[next as usize] < self.hits[best as usize] {
                at = upto;
            }
            upto += 1;
        }
        at
    }

    /// Counts one more use of the entry at `index`.
    fn count_use(&mut self, index: usize)
        requires
            old(self).wf(),
            index < old(self).index_cache@.len(),
        ensures
            final(self).wf(),
            final(self).model() == promoted::<Self>(old(self).model(), index as int),
    {
        let count = self.hits[index];
        if count < u64::MAX {
            self.hits[index] = count + 1;
        }
        assert(self.hits@ =~= old(self).hits@.update(index as int, bumped(count)));
    }
}

impl LfuUniCache {
    /// The number of entries.
    pub fn len(&self) -> (len: usize)
        ensures
            len == self.model().slots.len(),
    {
        self.index_cache.len()
    }

    /// The number of entries that the dictionary can hold.
    pub fn capacity(&self) -> (capacity: usize)
        ensures
            capacity == self.model().capacity,
    {
        self.capacity
    }
}

impl UniCache for LfuUniCache {
    closed spec fn wf(&self) -> bool {
        &&& 1 <= self.capacity <= MAX_CAPACITY
        &&& self.index_cache.wf()
        &&& self.index_cache@.len() <= self.capacity
        &&& usage_fits(self.usage(), self.index_cache@.len())
    }

    closed spec fn model(&self) -> Dictionary<Usage> {
        Dictionary { capacity: self.capacity as nat, slots: self.index_cache@, meta: self.usage() }
    }

    proof fn lemma_wf(&self) {
    }

    fn new(capacity: usize) -> (made: Result<Self, CapacityError>) {
        if capacity == 0 {
            Err(CapacityError::Zero)
        } else if capacity > MAX_CAPACITY {
            Err(CapacityError::TooLarge)
        } else {
            Ok(
                LfuUniCache {
                    capacity,
                    index_cache: IndexTable::new(capacity),
                    hits: Vec::new(),
                    admitted: Vec::new(),
                },
            )
        }
    }

    fn put(&mut self, item: String) {
        proof {
            lemma_position(self.index_cache@, item@);
        }
        match self.index_cache.index_of(item.as_str()) {
            Some(index) => {
                self.count_use(index);
            },
            None => {
                let count = self.index_cache.len();
                if count < self.capacity {
                    proof {
                        lemma_admitted_now(self.admitted@, count as nat, count as int);
                        assert(!self.admitted@.contains(count as u8)) by {
                            if self.admitted@.contains(count as u8) {
                                let at = self.admitted@.index_of(count as u8);
                                assert(self.admitted@[at] < count);
                            }
                        }
                        self.admitted@.index_of_first_ensures(count as u8);
                    }
                    let _ = self.index_cache.push(item);
                    self.hits.push(1);
                    self.admitted.push(count as u8);
                } else {
                    let at = self.victim_at();
                    let victim = self.admitted[at];
                    proof {
                        lemma_least_used(self.usage(), count as nat, count as nat);
                        lemma_admitted_now(self.admitted@, count as nat, victim as int);
                        self.admitted@.index_of_first_ensures(victim);
                    }
                    let _ = self.index_cache.replace(victim as usize, item);
                    self.hits[victim as usize] = 1;
                    let _ = self.admitted.remove(at);
                    self.admitted.push(victim);
                    assert(self.hits@ =~= old(self).hits@.update(victim as int, 1));
                }
            },
        }
    }

    fn get_encoded_index(&mut self, item: &str) -> (found: Option<u8>) {
        proof {
            lemma_position(self.index_cache@, item@);
        }
        match self.index_cache.index_of(item) {
            Some(index) => {
                self.count_use(index);
                Some(index as u8)
            },
            None => None,
        }
    }

    fn get_with_encoded_index(&mut self, index: u8) -> (item: String) {
        let item = self.index_cache.value_at(index as usize);
        self.count_use(index as usize);
        item
    }
}

} // verus!
