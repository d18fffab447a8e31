//! The dictionary contract: what every policy must do, stated over a
//! mathematical model of the dictionary.
use vstd::prelude::*;

verus! {

/// The largest capacity of a dictionary: an index travels as one byte, and
/// the capacity itself must fit in that byte.
pub const MAX_CAPACITY: usize = 255;

/// Why a dictionary could not be built.
#[derive(Copy, Clone, Debug, PartialEq, Eq, Structural)]
pub enum CapacityError {
    /// The capacity was zero.
    Zero,
    /// The capacity was above `MAX_CAPACITY`.
    TooLarge,
}

/// A dictionary as a mathematical value. The entry with index `i` is
/// `slots[i]`; `meta` is the bookkeeping of the replacement policy.
pub struct Dictionary<M> {
    pub capacity: nat,
    pub slots: Seq<Seq<char>>,
    pub meta: M,
}

/// A replacement policy, as functions on its bookkeeping. The bookkeeping
/// speaks of entries by their index only, never by their content.
pub trait ReplacementPolicy {
    /// The bookkeeping of the policy.
    type Meta;

    /// The bookkeeping fits a dictionary with `len` entries.
    spec fn consistent(meta: Self::Meta, len: nat) -> bool;

    /// The bookkeeping of an empty dictionary.
    spec fn initial() -> Self::Meta;

    /// The index whose entry is given up when a full dictionary admits a value.
    spec fn victim(meta: Self::Meta) -> int;

    /// The bookkeeping after the entry at `index` was looked up.
    spec fn touch(meta: Self::Meta, index: int) -> Self::Meta;

    /// The bookkeeping after a new value was stored at `index`.
    spec fn place(meta: Self::Meta, index: int) -> Self::Meta;

    /// The bookkeeping of an empty dictionary fits it.
    proof fn lemma_initial()
        ensures
            Self::consistent(Self::initial(), 0),
    ;

    /// The victim is one of the entries.
    proof fn lemma_victim(meta: Self::Meta, len: nat)
        requires
            Self::consistent(meta, len),
            0 < len <= MAX_CAPACITY,
        ensures
            0 <= Self::victim(meta) < len,
    ;

    /// A lookup keeps the bookkeeping fitting.
    proof fn lemma_touch(meta: Self::Meta, len: nat, index: int)
        requires
            Self::consistent(meta, len),
            0 <= index < len <= MAX_CAPACITY,
        ensures
            Self::consistent(Self::touch(meta, index), len),
    ;

    /// Storing a value at the index of an entry, or at the next free index,
    /// keeps the bookkeeping fitting.
    proof fn lemma_place(meta: Self::Meta, len: nat, index: int)
        requires
            Self::consistent(meta, len),
            0 <= index <= len,
            index < MAX_CAPACITY,
            len <= MAX_CAPACITY,
        ensures
            Self::consistent(
                Self::place(meta, index),
                if index == len {
                    len + 1
                } else {
                    len
                },
            ),
    ;
}

/// A bounded dictionary of strings under one replacement policy.
///
/// Every operation is a function of the dictionary's model and the
/// arguments alone, so two dictionaries of one type that start equal and see
/// the same operations stay equal.
pub trait UniCache: ReplacementPolicy + Sized {
    /// The representation is sound.
    spec fn wf(&self) -> bool;

    /// What the dictionary holds.
    spec fn model(&self) -> Dictionary<Self::Meta>;

    /// A sound dictionary holds a valid model.
    proof fn lemma_wf(&self)
        requires
            self.wf(),
        ensures
            valid::<Self>(self.model()),
    ;

    /// An empty dictionary of the given capacity, which must lie between 1
    /// and `MAX_CAPACITY`.
    fn new(capacity: usize) -> (made: Result<Self, CapacityError>)
        ensures
            capacity == 0 <==> made matches Err(CapacityError::Zero),
            capacity > MAX_CAPACITY <==> made matches Err(CapacityError::TooLarge),
            made matches Ok(cache) ==> cache.wf() && cache.model() == empty::<Self>(
                capacity as nat,
            ),
    ;

    /// Admits `item`. A value already held keeps its index and is only
    /// refreshed; a new value takes the next free index, or the victim's
    /// index once the dictionary is full.
    fn put(&mut self, item: String)
        requires
            old(self).wf(),
        ensures
            final(self).wf(),
            final(self).model() == after_put::<Self>(old(self).model(), item@),
    ;

    /// The index of `item` if the dictionary holds it, which also refreshes
    /// the entry. Never admits.
    fn get_encoded_index(&mut self, item: &str) -> (found: Option<u8>)
        requires
            old(self).wf(),
        ensures
            final(self).wf(),
            match position(old(self).model().slots, item@) {
                Some(index) => found == Some(index as u8) && final(self).model() == promoted::<
                    Self,
                >(old(self).model(), index),
                None => found is None && final(self).model() == old(self).model(),
            },
    ;

    /// The value at `index`, which must name an entry; refreshes the entry.
    fn get_with_encoded_index(&mut self, index: u8) -> (item: String)
        requires
            old(self).wf(),
            index < old(self).model().slots.len(),
        ensures
            final(self).wf(),
            item@ == old(self).model().slots[index as int],
            final(self).model() == promoted::<Self>(old(self).model(), index as int),
    ;
}

/// A coder for records of type `T`, which owns the dictionaries of type `U`
/// that its fields go through. A record is encoded in place on the sender's
/// side and decoded in place on the receiver's.
///
/// Both steps are functions of the dictionaries and the record alone, and
/// `lemma_parity` asks of every coder that a receiver in step with the
/// sender stays in step.
pub trait OmniCache<T: View, U: UniCache>: Sized {
    /// The representation is sound.
    spec fn wf(&self) -> bool;

    /// What the dictionaries of the coder hold, in a fixed order.
    spec fn dictionaries(&self) -> Seq<Dictionary<U::Meta>>;

    /// These are as many dictionaries as the coder owns, and each is valid.
    spec fn sound(dictionaries: Seq<Dictionary<U::Meta>>) -> bool;

    /// The record is in the form that `encode` takes.
    spec fn encodable(data: T::V) -> bool;

    /// The record is in the form that `decode` takes, and each index in it
    /// names an entry when its turn comes.
    spec fn decodable(dictionaries: Seq<Dictionary<U::Meta>>, data: T::V) -> bool;

    /// The dictionaries and the record after `encode`.
    spec fn encoded(dictionaries: Seq<Dictionary<U::Meta>>, data: T::V) -> (
        Seq<Dictionary<U::Meta>>,
        T::V,
    );

    /// The dictionaries after `decode`, and the record where it could be
    /// decoded.
    spec fn decoded(dictionaries: Seq<Dictionary<U::Meta>>, data: T::V) -> (
        Seq<Dictionary<U::Meta>>,
        Option<T::V>,
    );

    /// A sound coder holds sound dictionaries.
    proof fn lemma_wf(&self)
        requires
            self.wf(),
        ensures
            Self::sound(self.dictionaries()),
    ;

    /// Parity: a receiver whose dictionaries equal the sender's can decode
    /// what the sender made of a record, and its dictionaries again equal
    /// the sender's.
    proof fn lemma_parity(dictionaries: Seq<Dictionary<U::Meta>>, data: T::V)
        requires
            Self::sound(dictionaries),
            Self::encodable(data),
        ensures
            Self::sound(Self::encoded(dictionaries, data).0),
            Self::decodable(dictionaries, Self::encoded(dictionaries, data).1),
            Self::decoded(dictionaries, Self::encoded(dictionaries, data).1).0 == Self::encoded(
                dictionaries,
                data,
            ).0,
    ;

    /// A coder whose dictionaries are empty and have the given capacity,
    /// which must lie between 1 and `MAX_CAPACITY`.
    fn new(capacity: usize) -> (made: Result<Self, CapacityError>)
        ensures
            capacity == 0 <==> made matches Err(CapacityError::Zero),
            capacity > MAX_CAPACITY <==> made matches Err(CapacityError::TooLarge),
            made matches Ok(coder) ==> coder.wf() && forall|i: int|
                0 <= i < coder.dictionaries().len() ==> #[trigger] coder.dictionaries()[i]
                    == empty::<U>(capacity as nat),
    ;

    /// Encodes the record in place.
    fn encode(&mut self, data: &mut T)
        requires
            old(self).wf(),
            Self::encodable(old(data)@),
        ensures
            final(self).wf(),
            final(self).dictionaries() == Self::encoded(old(self).dictionaries(), old(data)@).0,
            final(data)@ == Self::encoded(old(self).dictionaries(), old(data)@).1,
    ;

    /// Decodes the record in place and tells whether it could be decoded. A
    /// record that could not is left as it came; the dictionaries have
    /// moved on all the same.
    fn decode(&mut self, data: &mut T) -> (done: bool)
        requires
            old(self).wf(),
            Self::decodable(old(self).dictionaries(), old(data)@),
        ensures
            final(self).wf(),
            final(self).dictionaries() == Self::decoded(old(self).dictionaries(), old(data)@).0,
            match Self::decoded(old(self).dictionaries(), old(data)@).1 {
                Some(record) => done && final(data)@ == record,
                None => !done && final(data)@ == old(data)@,
            },
    ;
}

/// `order` lists each index below `len` exactly once.
pub open spec fn lists_each_index(order: Seq<u8>, len: nat) -> bool {
    &&& order.len() == len
    &&& order.no_duplicates()
    &&& forall|i: int| 0 <= i < order.len() ==> (#[trigger] order[i]) < len
    &&& forall|index: u8| index < len ==> order.contains(index)
}

/// The index of `value` among `slots`, if it is there.
pub open spec fn position(slots: Seq<Seq<char>>, value: Seq<char>) -> Option<int> {
    if slots.contains(value) {
        Some(slots.index_of(value))
    } else {
        None
    }
}

/// The invariant of a dictionary: a capacity that a byte can hold, no more
/// entries than the capacity, no value twice, and bookkeeping that fits.
pub open spec fn valid<P: ReplacementPolicy>(d: Dictionary<P::Meta>) -> bool {
    &&& 1 <= d.capacity <= MAX_CAPACITY
    &&& d.slots.len() <= d.capacity
    &&& d.slots.no_duplicates()
    &&& P::consistent(d.meta, d.slots.len())
}

/// The empty dictionary of the given capacity.
pub open spec fn empty<P: ReplacementPolicy>(capacity: nat) -> Dictionary<P::Meta> {
    Dictionary { capacity, slots: Seq::empty(), meta: P::initial() }
}

/// The dictionary after the entry at `index` was looked up: the same
/// entries at the same indices, with the policy's bookkeeping refreshed.
pub open spec fn promoted<P: ReplacementPolicy>(d: Dictionary<P::Meta>, index: int) -> Dictionary<
    P::Meta,
> {
    Dictionary { meta: P::touch(d.meta, index), ..d }
}

/// The index that a value absent from `d` receives on admission: the count
/// of entries while there is room, the policy's victim once `d` is full.
pub open spec fn next_index<P: ReplacementPolicy>(d: Dictionary<P::Meta>) -> int {
    if d.slots.len() < d.capacity {
        d.slots.len() as int
    } else {
        P::victim(d.meta)
    }
}

/// The dictionary after a value absent from it was admitted.
pub open spec fn placed<P: ReplacementPolicy>(d: Dictionary<P::Meta>, value: Seq<char>) -> Dictionary<
    P::Meta,
> {
    let index = next_index::<P>(d);
    Dictionary {
        capacity: d.capacity,
        slots: if d.slots.len() < d.capacity {
            d.slots.push(value)
        } else {
            d.slots.update(index, value)
        },
        meta: P::place(d.meta, index),
    }
}

/// The dictionary after `put(value)`: a value already held is looked up, a
/// new one is admitted.
pub open spec fn after_put<P: ReplacementPolicy>(d: Dictionary<P::Meta>, value: Seq<char>) -> Dictionary<
    P::Meta,
> {
    match position(d.slots, value) {
        Some(index) => promoted::<P>(d, index),
        None => placed::<P>(d, value),
    }
}

/// Where `position` finds a value, the value stands, and nowhere else.
pub proof fn lemma_position(slots: Seq<Seq<char>>, value: Seq<char>)
    ensures
        position(slots, value) matches Some(i) ==> 0 <= i < slots.len() && slots[i] == value,
        position(slots, value) is None ==> forall|i: int|
            0 <= i < slots.len() ==> slots[i] != value,
        slots.no_duplicates() ==> forall|i: int|
            0 <= i < slots.len() && slots[i] == value ==> position(slots, value) == Some(i),
{
    if slots.contains(value) {
        let k = slots.index_of(value);
        assert(0 <= k < slots.len() && slots[k] == value);
    }
}

/// The empty dictionary is valid.
pub proof fn lemma_empty_valid<P: ReplacementPolicy>(capacity: nat)
    requires
        1 <= capacity <= MAX_CAPACITY,
    ensures
        valid::<P>(empty::<P>(capacity)),
{
    P::lemma_initial();
}

/// A lookup keeps a dictionary valid.
pub proof fn lemma_promoted_valid<P: ReplacementPolicy>(d: Dictionary<P::Meta>, index: int)
    requires
        valid::<P>(d),
        0 <= index < d.slots.len(),
    ensures
        valid::<P>(promoted::<P>(d, index)),
{
    P::lemma_touch(d.meta, d.slots.len(), index);
}

/// Admission of an absent value keeps a dictionary valid, and stores the
/// value at `next_index`.
pub proof fn lemma_placed_valid<P: ReplacementPolicy>(d: Dictionary<P::Meta>, value: Seq<char>)
    requires
        valid::<P>(d),
        position(d.slots, value) is None,
    ensures
        valid::<P>(placed::<P>(d, value)),
        0 <= next_index::<P>(d) < placed::<P>(d, value).slots.len(),
        placed::<P>(d, value).slots[next_index::<P>(d)] == value,
        position(placed::<P>(d, value).slots, value) == Some(next_index::<P>(d)),
{
    let index = next_index::<P>(d);
    let after = placed::<P>(d, value);
    lemma_position(d.slots, value);
    if d.slots.len() < d.capacity {
        P::lemma_place(d.meta, d.slots.len(), index);
    } else {
        P::lemma_victim(d.meta, d.slots.len());
        P::lemma_place(d.meta, d.slots.len(), index);
    }
    assert(after.slots.no_duplicates()) by {
        assert forall|i: int, j: int|
            0 <= i < after.slots.len() && 0 <= j < after.slots.len() && i != j implies after.slots[i]
            != after.slots[j] by {
            if i != index && j != index {
                assert(after.slots[i] == d.slots[i]);
                assert(after.slots[j] == d.slots[j]);
            }
        }
    }
    lemma_position(after.slots, value);
    assert(0 <= index < after.slots.len() && after.slots[index] == value);
}

/// `put` keeps a dictionary valid.
pub proof fn lemma_put_valid<P: ReplacementPolicy>(d: Dictionary<P::Meta>, value: Seq<char>)
    requires
        valid::<P>(d),
    ensures
        valid::<P>(after_put::<P>(d, value)),
        position(after_put::<P>(d, value).slots, value) is Some,
{
    lemma_position(d.slots, value);
    match position(d.slots, value) {
        Some(index) => {
            lemma_promoted_valid::<P>(d, index);
        },
        None => {
            lemma_placed_valid::<P>(d, value);
        },
    }
}

/// One operation on a dictionary.
pub enum Access {
    /// `put` of a value.
    Put(Seq<char>),
    /// `get_encoded_index` of a value.
    Lookup(Seq<char>),
    /// `get_with_encoded_index` of an index.
    Fetch(int),
}

/// The operation may be applied to `d`: a fetched index names an entry.
pub open spec fn applies(slots: Seq<Seq<char>>, access: Access) -> bool {
    access matches Access::Fetch(index) ==> 0 <= index < slots.len()
}

/// The dictionary after one operation.
pub open spec fn after<P: ReplacementPolicy>(d: Dictionary<P::Meta>, access: Access) -> Dictionary<
    P::Meta,
> {
    match access {
        Access::Put(value) => after_put::<P>(d, value),
        Access::Lookup(value) => match position(d.slots, value) {
            Some(index) => promoted::<P>(d, index),
            None => d,
        },
        Access::Fetch(index) => promoted::<P>(d, index),
    }
}

/// The dictionary after the operations of `accesses`, the first applied
/// first.
pub open spec fn after_all<P: ReplacementPolicy>(
    d: Dictionary<P::Meta>,
    accesses: Seq<Access>,
) -> Dictionary<P::Meta>
    decreases accesses.len(),
{
    if accesses.len() == 0 {
        d
    } else {
        after::<P>(after_all::<P>(d, accesses.drop_last()), accesses.last())
    }
}

/// Each operation of `accesses` may be applied when its turn comes.
pub open spec fn all_apply<P: ReplacementPolicy>(
    d: Dictionary<P::Meta>,
    accesses: Seq<Access>,
) -> bool
    decreases accesses.len(),
{
    accesses.len() > 0 ==> {
        &&& all_apply::<P>(d, accesses.drop_last())
        &&& applies(after_all::<P>(d, accesses.drop_last()).slots, accesses.last())
    }
}

/// Every operation keeps a dictionary valid and its capacity unchanged.
pub proof fn lemma_after_valid<P: ReplacementPolicy>(d: Dictionary<P::Meta>, access: Access)
    requires
        valid::<P>(d),
        applies(d.slots, access),
    ensures
        valid::<P>(after::<P>(d, access)),
        after::<P>(d, access).capacity == d.capacity,
{
    match access {
        Access::Put(value) => {
            lemma_put_valid::<P>(d, value);
        },
        Access::Lookup(value) => {
            lemma_position(d.slots, value);
            if let Some(index) = position(d.slots, value) {
                lemma_promoted_valid::<P>(d, index);
            }
        },
        Access::Fetch(index) => {
            lemma_promoted_valid::<P>(d, index);
        },
    }
}

/// Bounded size: whatever operations a valid dictionary has seen, it holds
/// no more entries than its capacity, and no value twice.
pub proof fn lemma_after_all_valid<P: ReplacementPolicy>(
    d: Dictionary<P::Meta>,
    accesses: Seq<Access>,
)
    requires
        valid::<P>(d),
        all_apply::<P>(d, accesses),
    ensures
        valid::<P>(after_all::<P>(d, accesses)),
        after_all::<P>(d, accesses).capacity == d.capacity,
        after_all::<P>(d, accesses).slots.len() <= d.capacity,
    decreases accesses.len(),
{
    if accesses.len() > 0 {
        lemma_after_all_valid::<P>(d, accesses.drop_last());
        lemma_after_valid::<P>(after_all::<P>(d, accesses.drop_last()), accesses.last());
    }
}

/// Index uniqueness: in a valid dictionary two values at one index are one
/// value, and one value stands at one index only.
pub proof fn lemma_index_unique<P: ReplacementPolicy>(
    d: Dictionary<P::Meta>,
    first: Seq<char>,
    second: Seq<char>,
)
    requires
        valid::<P>(d),
        position(d.slots, first) is Some,
        position(d.slots, second) is Some,
    ensures
        position(d.slots, first) == position(d.slots, second) <==> first == second,
{
    lemma_position(d.slots, first);
    lemma_position(d.slots, second);
}

/// A value that a dictionary holds before and after one operation has the
/// same index before and after.
pub proof fn lemma_after_keeps_index<P: ReplacementPolicy>(
    d: Dictionary<P::Meta>,
    access: Access,
    value: Seq<char>,
)
    requires
        valid::<P>(d),
        applies(d.slots, access),
        position(d.slots, value) is Some,
        position(after::<P>(d, access).slots, value) is Some,
    ensures
        position(after::<P>(d, access).slots, value) == position(d.slots, value),
{
    let next = after::<P>(d, access);
    lemma_after_valid::<P>(d, access);
    lemma_position(d.slots, value);
    lemma_position(next.slots, value);
    let index = position(d.slots, value)->0;
    if let Access::Put(given) = access {
        lemma_position(d.slots, given);
        if position(d.slots, given) is None {
            lemma_placed_valid::<P>(d, given);
            if next.slots[index] != value {
                let moved = position(next.slots, value)->0;
                assert(d.slots[moved] == value);
            }
        }
    }
}

/// Index stability: a value that a dictionary holds at the start of a run
/// of operations and after each of them has, at the end of the run, the
/// index it had at the start.
pub proof fn lemma_index_stable<P: ReplacementPolicy>(
    d: Dictionary<P::Meta>,
    accesses: Seq<Access>,
    value: Seq<char>,
)
    requires
        valid::<P>(d),
        all_apply::<P>(d, accesses),
        forall|k: int|
            0 <= k <= accesses.len() ==> position(
                #[trigger] after_all::<P>(d, accesses.take(k)).slots,
                value,
            ) is Some,
    ensures
        position(after_all::<P>(d, accesses).slots, value) == position(d.slots, value),
    decreases accesses.len(),
{
    assert(accesses.take(accesses.len() as int) =~= accesses);
    assert(accesses.take(0) =~= Seq::<Access>::empty());
    assert(after_all::<P>(d, accesses.take(0)) == d);
    if accesses.len() > 0 {
        let earlier = accesses.drop_last();
        assert forall|k: int| 0 <= k <= earlier.len() implies position(
            #[trigger] after_all::<P>(d, earlier.take(k)).slots,
            value,
        ) is Some by {
            assert(earlier.take(k) =~= accesses.take(k));
        }
        lemma_index_stable::<P>(d, earlier, value);
        lemma_after_all_valid::<P>(d, earlier);
        assert(earlier.take(earlier.len() as int) =~= earlier);
        assert(accesses.take(earlier.len() as int) =~= earlier);
        lemma_after_keeps_index::<P>(after_all::<P>(d, earlier), accesses.last(), value);
    }
}

} // verus!
