//! The two-way table between values and indices, kept in an
//! `indexmap::IndexMap` whose keys are the values and whose order is the
//! index.
use crate::cache::unicache::{lemma_position, position, MAX_CAPACITY};
use indexmap::IndexMap;
use vstd::prelude::*;

verus! {

/// `indexmap::IndexMap`, of which nothing is known but what the functions
/// below say.
#[verifier::external_type_specification]
#[verifier::external_body]
#[verifier::reject_recursive_types(K)]
#[verifier::reject_recursive_types(V)]
#[verifier::reject_recursive_types(S)]
pub struct ExIndexMap<K, V, S>(IndexMap<K, V, S>);

/// The keys of the map in the map's own order: the key with index `i` is
/// `table_keys(map)[i]`.
pub uninterp spec fn table_keys(map: IndexMap<String, ()>) -> Seq<Seq<char>>;

/// `IndexMap::with_capacity`: a map without keys.
#[verifier::external_body]
fn table_with_capacity(capacity: usize) -> (map: IndexMap<String, ()>)
    requires
        capacity <= MAX_CAPACITY,
    ensures
        table_keys(map) == Seq::<Seq<char>>::empty(),
{
    IndexMap::with_capacity(capacity)
}

/// `IndexMap::len`: the number of keys.
#[verifier::external_body]
fn table_len(map: &IndexMap<String, ()>) -> (len: usize)
    ensures
        len == table_keys(*map).len(),
{
    map.len()
}

/// `IndexMap::get_index_of`: an index at which `key` stands, or `None` if
/// it stands nowhere.
#[verifier::external_body]
fn table_get_index_of(map: &IndexMap<String, ()>, key: &str) -> (found: Option<usize>)
    ensures
        found matches Some(index) ==> index < table_keys(*map).len() && table_keys(
            *map,
        )[index as int] == key@,
        found is None ==> !table_keys(*map).contains(key@),
{
    map.get_index_of(key)
}

/// `IndexMap::get_index`: the key at `index`, or `None` if `index` is not
/// below the number of keys.
#[verifier::external_body]
fn table_get_index(map: &IndexMap<String, ()>, index: usize) -> (found: Option<&String>)
    ensures
        found matches Some(key) ==> index < table_keys(*map).len() && key@ == table_keys(
            *map,
        )[index as int],
        found is None ==> index >= table_keys(*map).len(),
{
    map.get_index(index).map(|(key, _)| key)
}

/// `IndexMap::insert`: a key that the map lacks goes last in the order and
/// `None` comes back; a key that it has stays where it is and `Some` comes
/// back.
#[verifier::external_body]
fn table_insert(map: &mut IndexMap<String, ()>, key: String) -> (had: Option<()>)
    ensures
        had is Some <==> table_keys(*old(map)).contains(key@),
        had is Some ==> table_keys(*final(map)) == table_keys(*old(map)),
        had is None ==> table_keys(*final(map)) == table_keys(*old(map)).push(key@),
{
    map.insert(key, ())
}

/// `IndexMap::replace_index`: the key at `index` is exchanged for `key` and
/// handed back, which happens where `key` equals the key at `index` or
/// stands nowhere in the map. Where `key` stands at another index, that
/// index and `key` come back and the map is unchanged. The outside function
/// panics on an `index` out of bounds.
#[verifier::external_body]
fn table_replace_index(map: &mut IndexMap<String, ()>, index: usize, key: String) -> (swapped:
    Result<String, (usize, String)>)
    requires
        index < table_keys(*old(map)).len(),
    ensures
        match swapped {
            Ok(before) => {
                &&& before@ == table_keys(*old(map))[index as int]
                &&& before@ == key@ || !table_keys(*old(map)).contains(key@)
                &&& table_keys(*final(map)) == table_keys(*old(map)).update(index as int, key@)
            },
            Err((other, given)) => {
                &&& other != index
                &&& other < table_keys(*old(map)).len()
                &&& table_keys(*old(map))[other as int] == key@
                &&& given@ == key@
                &&& table_keys(*final(map)) == table_keys(*old(map))
            },
        },
{
    map.replace_index(index, key)
}

/// Values and their indices, each found from the other.
pub struct IndexTable {
    map: IndexMap<String, ()>,
}

impl View for IndexTable {
    type V = Seq<Seq<char>>;

    /// The values by index.
    closed spec fn view(&self) -> Seq<Seq<char>> {
        table_keys(self.map)
    }
}

impl IndexTable {
    /// No value stands at two indices.
    pub open spec fn wf(&self) -> bool {
        self@.no_duplicates()
    }

    /// An empty table with room for `capacity` values.
    pub fn new(capacity: usize) -> (table: Self)
        requires
            capacity <= MAX_CAPACITY,
        ensures
            table.wf(),
            table@ == Seq::<Seq<char>>::empty(),
    {
        IndexTable { map: table_with_capacity(capacity) }
    }

    /// The number of values.
    pub fn len(&self) -> (len: usize)
        ensures
            len == self@.len(),
    {
        table_len(&self.map)
    }

    /// The index of `value`, if the table holds it.
    pub fn index_of(&self, value: &str) -> (found: Option<usize>)
        requires
            self.wf(),
        ensures
            match position(self@, value@) {
                Some(index) => found == Some(index as usize),
                None => found is None,
            },
    {
        proof {
            lemma_position(self@, value@);
        }
        table_get_index_of(&self.map, value)
    }

    /// The value at `index`.
    pub fn value_at(&self, index: usize) -> (value: String)
        requires
            index < self@.len(),
        ensures
            value@ == self@[index as int],
    {
        match table_get_index(&self.map, index) {
            Some(key) => key.clone(),
            None => unreached(),
        }
    }

    /// Appends `value` unless the table holds it already, and tells whether
    /// it did. An appended value receives the next index.
    pub fn push(&mut self, value: String) -> (added: bool)
        requires
            old(self).wf(),
        ensures
            final(self).wf(),
            added == !old(self)@.contains(value@),
            final(self)@ == if added {
                old(self)@.push(value@)
            } else {
                old(self)@
            },
    {
        let ghost before = self@;
        let had = table_insert(&mut self.map, value);
        proof {
            assert forall|i: int, j: int|
                0 <= i < self@.len() && 0 <= j < self@.len() && i != j implies self@[i] != self@[j] by {
                if i < before.len() && j < before.len() {
                } else if i < before.len() {
                    assert(before.contains(before[i]));
                } else {
                    assert(before.contains(before[j]));
                }
            }
        }
        had.is_none()
    }

    /// Stores `value` at `index`, which must name a value, in place of the
    /// value that stood there, unless `value` stands at another index
    /// already; tells whether it did. Every other value keeps its index.
    pub fn replace(&mut self, index: usize, value: String) -> (stored: bool)
        requires
            old(self).wf(),
            index < old(self)@.len(),
        ensures
            final(self).wf(),
            stored == (old(self)@[index as int] == value@ || !old(self)@.contains(value@)),
            final(self)@ == if stored {
                old(self)@.update(index as int, value@)
            } else {
                old(self)@
            },
    {
        let ghost before = self@;
        let swapped = table_replace_index(&mut self.map, index, value);
        proof {
            if let Err((other, _)) = swapped {
                assert(before.contains(before[other as int]));
            }
            assert forall|i: int, j: int|
                0 <= i < self@.len() && 0 <= j < self@.len() && i != j implies self@[i] != self@[j] by {
                if swapped is Ok {
                    if i != index && j != index {
                    } else if i != index {
                        assert(before.contains(before[i]));
                    } else {
                        assert(before.contains(before[j]));
                    }
                }
            }
        }
        swapped.is_ok()
    }
}

} // verus!
