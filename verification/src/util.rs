//! The encoded forms of a field.
use crate::text::{byte_len, utf8_len};
use vstd::prelude::*;

verus! {

/// The replacement policies a coder can be run with.
#[derive(Copy, Clone, Debug, PartialEq, Eq, Structural)]
pub enum CachePolicy {
    LFU,
    LRU,
    LECAR,
}

/// A field as it travels: the index of a dictionary entry, or the value
/// itself.
#[derive(Clone, Debug, PartialEq, Eq)]
pub enum MaybeEncoded {
    Encoded(u8),
    Decoded(String),
}

/// A `MaybeEncoded` as a mathematical value.
pub enum Coded {
    Encoded(u8),
    Decoded(Seq<char>),
}

impl View for MaybeEncoded {
    type V = Coded;

    open spec fn view(&self) -> Coded {
        match self {
            MaybeEncoded::Encoded(index) => Coded::Encoded(*index),
            MaybeEncoded::Decoded(value) => Coded::Decoded(value@),
        }
    }
}

/// The bytes that a field takes: one for an index, the length of a value.
pub open spec fn coded_size(field: Coded) -> nat {
    match field {
        Coded::Encoded(_) => 1,
        Coded::Decoded(value) => utf8_len(value),
    }
}

/// The bytes that the fields take together.
pub open spec fn coded_sizes(fields: Seq<Coded>) -> nat
    decreases fields.len(),
{
    if fields.len() == 0 {
        0
    } else {
        coded_sizes(fields.drop_last()) + coded_size(fields.last())
    }
}

/// The views of the fields of `v`.
pub open spec fn coded_views(v: Seq<MaybeEncoded>) -> Seq<Coded> {
    v.map_values(|field: MaybeEncoded| field@)
}

/// The size of a list grows with its length.
pub proof fn lemma_coded_sizes_grow(fields: Seq<Coded>, upto: int)
    requires
        0 <= upto <= fields.len(),
    ensures
        coded_sizes(fields.take(upto)) <= coded_sizes(fields),
    decreases fields.len() - upto,
{
    if upto < fields.len() {
        lemma_coded_sizes_grow(fields, upto + 1);
        assert(fields.take(upto + 1).drop_last() =~= fields.take(upto));
    } else {
        assert(fields.take(upto) =~= fields);
    }
}

/// The bytes that the fields of `fields` take together.
pub fn size_of_all(fields: &Vec<MaybeEncoded>) -> (size: usize)
    requires
        coded_sizes(coded_views(fields@)) <= usize::MAX,
    ensures
        size == coded_sizes(coded_views(fields@)),
{
    let mut size: usize = 0;
    let mut i: usize = 0;
    while i < fields.len()
        invariant
            i <= fields.len(),
            size == coded_sizes(coded_views(fields@).take(i as int)),
            coded_sizes(coded_views(fields@)) <= usize::MAX,
        decreases fields.len() - i,
    {
        proof {
            let all = coded_views(fields@);
            lemma_coded_sizes_grow(all, i + 1);
            assert(all.take(i + 1).drop_last() =~= all.take(i as int));
        }
        size = size + fields[i].get_size();
        i += 1;
    }
    assert(coded_views(fields@).take(i as int) =~= coded_views(fields@));
    size
}

impl MaybeEncoded {
    /// The bytes that the field takes.
    pub fn get_size(&self) -> (size: usize)
        ensures
            size == coded_size(self@),
    {
        match self {
            MaybeEncoded::Encoded(_) => 1,
            MaybeEncoded::Decoded(value) => byte_len(value.as_str()),
        }
    }
}

/// A free-text field as it travels: encoded word by word, or whole where it
/// is too long for that to pay.
#[derive(Clone, Debug, PartialEq, Eq)]
pub enum MaybeProcessed {
    Processed(Vec<MaybeEncoded>),
    NotProcessed(String),
}

/// A `MaybeProcessed` as a mathematical value.
pub enum CodedList {
    Processed(Seq<Coded>),
    NotProcessed(Seq<char>),
}

impl View for MaybeProcessed {
    type V = CodedList;

    open spec fn view(&self) -> CodedList {
        match self {
            MaybeProcessed::Processed(fields) => CodedList::Processed(coded_views(fields@)),
            MaybeProcessed::NotProcessed(value) => CodedList::NotProcessed(value@),
        }
    }
}

/// The bytes that a free-text field takes.
pub open spec fn coded_list_size(field: CodedList) -> nat {
    match field {
        CodedList::Processed(fields) => coded_sizes(fields),
        CodedList::NotProcessed(value) => utf8_len(value),
    }
}

impl MaybeProcessed {
    /// The bytes that the field takes, which must not exceed what a `usize`
    /// holds.
    pub fn get_size(&self) -> (size: usize)
        requires
            coded_list_size(self@) <= usize::MAX,
        ensures
            size == coded_list_size(self@),
    {
        match self {
            MaybeProcessed::Processed(fields) => size_of_all(fields),
            MaybeProcessed::NotProcessed(value) => byte_len(value.as_str()),
        }
    }
}

} // verus!
