//! The admission protocol for one field: what the sender does with a value
//! and what the receiver does with the field that arrives, so that both
//! dictionaries see the same admissions.
use crate::cache::unicache::{
    after_put, lemma_placed_valid, lemma_position, lemma_promoted_valid, lemma_put_valid, placed,
    position, promoted, valid, Dictionary, ReplacementPolicy, UniCache,
};
use crate::text::{
    byte_len, fields, join, joined, lemma_joined_fields, split_on, split_whitespace, utf8_len,
    views, words,
};
use crate::util::{coded_views, Coded, CodedList, MaybeEncoded, MaybeProcessed};
use vstd::prelude::*;

verus! {

/// The sender's step for one value: the dictionary afterwards and the field
/// that travels. A value shorter than `min` bytes travels as it is and the
/// dictionary is not consulted; a value that the dictionary holds travels as
/// its index; any other value is admitted and travels as it is.
pub open spec fn encoded<P: ReplacementPolicy>(
    d: Dictionary<P::Meta>,
    value: Seq<char>,
    min: nat,
) -> (Dictionary<P::Meta>, Coded) {
    if utf8_len(value) < min {
        (d, Coded::Decoded(value))
    } else {
        match position(d.slots, value) {
            Some(index) => (promoted::<P>(d, index), Coded::Encoded(index as u8)),
            None => (placed::<P>(d, value), Coded::Decoded(value)),
        }
    }
}

/// The field can be resolved against `d`: an index names an entry.
pub open spec fn resolves(slots: Seq<Seq<char>>, field: Coded) -> bool {
    field matches Coded::Encoded(index) ==> index < slots.len()
}

/// The receiver's step for one field: the dictionary afterwards and the
/// value. An index is looked up; a value of at least `min` bytes is put.
pub open spec fn decoded<P: ReplacementPolicy>(
    d: Dictionary<P::Meta>,
    field: Coded,
    min: nat,
) -> (Dictionary<P::Meta>, Seq<char>) {
    match field {
        Coded::Encoded(index) => (promoted::<P>(d, index as int), d.slots[index as int]),
        Coded::Decoded(value) => (
            if utf8_len(value) < min {
                d
            } else {
                after_put::<P>(d, value)
            },
            value,
        ),
    }
}

/// The sender's steps for the values of a list, the first taken first.
pub open spec fn encoded_all<P: ReplacementPolicy>(
    d: Dictionary<P::Meta>,
    values: Seq<Seq<char>>,
    min: nat,
) -> (Dictionary<P::Meta>, Seq<Coded>)
    decreases values.len(),
{
    if values.len() == 0 {
        (d, Seq::empty())
    } else {
        let before = encoded_all::<P>(d, values.drop_last(), min);
        let last = encoded::<P>(before.0, values.last(), min);
        (last.0, before.1.push(last.1))
    }
}

/// The receiver's steps for the fields of a list, the first taken first.
pub open spec fn decoded_all<P: ReplacementPolicy>(
    d: Dictionary<P::Meta>,
    fields: Seq<Coded>,
    min: nat,
) -> (Dictionary<P::Meta>, Seq<Seq<char>>)
    decreases fields.len(),
{
    if fields.len() == 0 {
        (d, Seq::empty())
    } else {
        let before = decoded_all::<P>(d, fields.drop_last(), min);
        let last = decoded::<P>(before.0, fields.last(), min);
        (last.0, before.1.push(last.1))
    }
}

/// Each field of the list can be resolved when its turn comes.
pub open spec fn all_resolve<P: ReplacementPolicy>(
    d: Dictionary<P::Meta>,
    fields: Seq<Coded>,
    min: nat,
) -> bool
    decreases fields.len(),
{
    fields.len() > 0 ==> {
        &&& all_resolve::<P>(d, fields.drop_last(), min)
        &&& resolves(decoded_all::<P>(d, fields.drop_last(), min).0.slots, fields.last())
    }
}

/// The sender's step keeps the dictionary valid.
pub proof fn lemma_encoded_valid<P: ReplacementPolicy>(
    d: Dictionary<P::Meta>,
    value: Seq<char>,
    min: nat,
)
    requires
        valid::<P>(d),
    ensures
        valid::<P>(encoded::<P>(d, value, min).0),
        encoded::<P>(d, value, min).0.capacity == d.capacity,
{
    lemma_position(d.slots, value);
    match position(d.slots, value) {
        Some(index) => {
            lemma_promoted_valid::<P>(d, index);
        },
        None => {
            lemma_placed_valid::<P>(d, value);
        },
    }
}

/// The receiver's step keeps the dictionary valid.
pub proof fn lemma_decoded_valid<P: ReplacementPolicy>(
    d: Dictionary<P::Meta>,
    field: Coded,
    min: nat,
)
    requires
        valid::<P>(d),
        resolves(d.slots, field),
    ensures
        valid::<P>(decoded::<P>(d, field, min).0),
        decoded::<P>(d, field, min).0.capacity == d.capacity,
{
    match field {
        Coded::Encoded(index) => {
            lemma_promoted_valid::<P>(d, index as int);
        },
        Coded::Decoded(value) => {
            lemma_put_valid::<P>(d, value);
        },
    }
}

/// Threshold: a value shorter than `min` bytes is never admitted and never
/// travels as an index, on either side.
pub proof fn lemma_below_threshold<P: ReplacementPolicy>(
    d: Dictionary<P::Meta>,
    value: Seq<char>,
    min: nat,
)
    requires
        utf8_len(value) < min,
    ensures
        encoded::<P>(d, value, min) == (d, Coded::Decoded(value)),
        decoded::<P>(d, Coded::Decoded(value), min) == (d, value),
{
}

/// Round trip and parity for one field: a receiver whose dictionary equals
/// the sender's can resolve the field that the sender made of a value, gets
/// the value back, and its dictionary again equals the sender's.
pub proof fn lemma_round_trip<P: ReplacementPolicy>(
    d: Dictionary<P::Meta>,
    value: Seq<char>,
    min: nat,
)
    requires
        valid::<P>(d),
    ensures
        resolves(d.slots, encoded::<P>(d, value, min).1),
        decoded::<P>(d, encoded::<P>(d, value, min).1, min) == (
            encoded::<P>(d, value, min).0,
            value,
        ),
{
    lemma_position(d.slots, value);
}

/// Round trip and parity for a list of fields.
pub proof fn lemma_round_trip_all<P: ReplacementPolicy>(
    d: Dictionary<P::Meta>,
    values: Seq<Seq<char>>,
    min: nat,
)
    requires
        valid::<P>(d),
    ensures
        valid::<P>(encoded_all::<P>(d, values, min).0),
        encoded_all::<P>(d, values, min).0.capacity == d.capacity,
        encoded_all::<P>(d, values, min).1.len() == values.len(),
        all_resolve::<P>(d, encoded_all::<P>(d, values, min).1, min),
        decoded_all::<P>(d, encoded_all::<P>(d, values, min).1, min) == (
            encoded_all::<P>(d, values, min).0,
            values,
        ),
    decreases values.len(),
{
    if values.len() > 0 {
        lemma_round_trip_all::<P>(d, values.drop_last(), min);
        let before = encoded_all::<P>(d, values.drop_last(), min);
        lemma_round_trip::<P>(before.0, values.last(), min);
        lemma_encoded_valid::<P>(before.0, values.last(), min);
        let all = encoded_all::<P>(d, values, min);
        assert(all.1.drop_last() =~= before.1);
        assert(decoded_all::<P>(d, all.1, min).1 =~= values);
    } else {
        assert(decoded_all::<P>(d, encoded_all::<P>(d, values, min).1, min).1 =~= values);
    }
}

/// The sender's step for one field.
pub fn try_encode<U: UniCache>(s: &str, cache: &mut U, min_threshold: usize) -> (field:
    MaybeEncoded)
    requires
        old(cache).wf(),
    ensures
        final(cache).wf(),
        final(cache).model() == encoded::<U>(old(cache).model(), s@, min_threshold as nat).0,
        field@ == encoded::<U>(old(cache).model(), s@, min_threshold as nat).1,
        utf8_len(s@) < min_threshold ==> field@ == Coded::Decoded(s@) && final(cache).model()
            == old(cache).model(),
{
    if byte_len(s) < min_threshold {
        return MaybeEncoded::Decoded(s.to_owned());
    }
    match cache.get_encoded_index(s) {
        Some(index) => {
            proof {
                old(cache).lemma_wf();
                lemma_position(old(cache).model().slots, s@);
            }
            MaybeEncoded::Encoded(index)
        },
        None => {
            cache.put(s.to_owned());
            MaybeEncoded::Decoded(s.to_owned())
        },
    }
}

/// The receiver's step for one field. An index must name an entry.
pub fn try_decode<U: UniCache>(x: MaybeEncoded, cache: &mut U, min_threshold: usize) -> (value:
    String)
    requires
        old(cache).wf(),
        resolves(old(cache).model().slots, x@),
    ensures
        final(cache).wf(),
        final(cache).model() == decoded::<U>(old(cache).model(), x@, min_threshold as nat).0,
        value@ == decoded::<U>(old(cache).model(), x@, min_threshold as nat).1,
        x matches MaybeEncoded::Decoded(s) && utf8_len(s@) < min_threshold ==> final(cache).model()
            == old(cache).model(),
{
    match x {
        MaybeEncoded::Encoded(index) => cache.get_with_encoded_index(index),
        MaybeEncoded::Decoded(s) => {
            if byte_len(s.as_str()) >= min_threshold {
                cache.put(s.clone());
            }
            s
        },
    }
}

/// The sender's steps for a list of values.
pub fn try_encode_all<U: UniCache>(values: &Vec<String>, cache: &mut U, min_threshold: usize) -> (fields:
    Vec<MaybeEncoded>)
    requires
        old(cache).wf(),
    ensures
        final(cache).wf(),
        final(cache).model() == encoded_all::<U>(
            old(cache).model(),
            views(values@),
            min_threshold as nat,
        ).0,
        coded_views(fields@) == encoded_all::<U>(
            old(cache).model(),
            views(values@),
            min_threshold as nat,
        ).1,
{
    let mut fields: Vec<MaybeEncoded> = Vec::new();
    let mut i: usize = 0;
    assert(coded_views(fields@) =~= Seq::<Coded>::empty());
    assert(views(values@).take(0) =~= Seq::<Seq<char>>::empty());
    while i < values.len()
        invariant
            i <= values.len(),
            cache.wf(),
            cache.model() == encoded_all::<U>(
                old(cache).model(),
                views(values@).take(i as int),
                min_threshold as nat,
            ).0,
            coded_views(fields@) == encoded_all::<U>(
                old(cache).model(),
                views(values@).take(i as int),
                min_threshold as nat,
            ).1,
        decreases values.len() - i,
    {
        proof {
            let sofar = views(values@).take(i + 1);
            assert(sofar.drop_last() =~= views(values@).take(i as int));
            assert(sofar.last() == values@[i as int]@);
        }
        let field = try_encode(values[i].as_str(), cache, min_threshold);
        assert(coded_views(fields@.push(field)) =~= coded_views(fields@).push(field@));
        fields.push(field);
        i += 1;
    }
    assert(views(values@).take(i as int) =~= views(values@));
    fields
}

/// The receiver's steps for a list of fields. Each index must name an entry
/// when its turn comes.
pub fn try_decode_all<U: UniCache>(fields: Vec<MaybeEncoded>, cache: &mut U, min_threshold: usize) -> (values:
    Vec<String>)
    requires
        old(cache).wf(),
        all_resolve::<U>(old(cache).model(), coded_views(fields@), min_threshold as nat),
    ensures
        final(cache).wf(),
        final(cache).model() == decoded_all::<U>(
            old(cache).model(),
            coded_views(fields@),
            min_threshold as nat,
        ).0,
        views(values@) == decoded_all::<U>(
            old(cache).model(),
            coded_views(fields@),
            min_threshold as nat,
        ).1,
{
    let mut values: Vec<String> = Vec::new();
    let ghost all = coded_views(fields@);
    let ghost mut seen: int = 0;
    assert(views(values@) =~= Seq::<Seq<char>>::empty());
    assert(all.take(0) =~= Seq::<Coded>::empty());
    for field in it: fields
        invariant
            it.seq() == fields@,
            seen == it.index(),
            all == coded_views(fields@),
            all_resolve::<U>(old(cache).model(), all, min_threshold as nat),
            cache.wf(),
            cache.model() == decoded_all::<U>(
                old(cache).model(),
                all.take(seen),
                min_threshold as nat,
            ).0,
            views(values@) == decoded_all::<U>(
                old(cache).model(),
                all.take(seen),
                min_threshold as nat,
            ).1,
    {
        proof {
            assert(all.take(seen + 1).drop_last() =~= all.take(seen));
            assert(all.take(seen + 1).last() == field@);
            lemma_all_resolve_prefix::<U>(
                old(cache).model(),
                all,
                min_threshold as nat,
                seen + 1,
            );
        }
        let value = try_decode(field, cache, min_threshold);
        assert(views(values@.push(value)) =~= views(values@).push(value@));
        values.push(value);
        proof {
            seen = seen + 1;
        }
    }
    assert(all.take(seen) =~= all);
    values
}

/// Where each field of a list can be resolved, so can each field of a
/// beginning of the list.
pub proof fn lemma_all_resolve_prefix<P: ReplacementPolicy>(
    d: Dictionary<P::Meta>,
    fields: Seq<Coded>,
    min: nat,
    upto: int,
)
    requires
        all_resolve::<P>(d, fields, min),
        0 <= upto <= fields.len(),
    ensures
        all_resolve::<P>(d, fields.take(upto), min),
    decreases fields.len(),
{
    if upto == fields.len() {
        assert(fields.take(upto) =~= fields);
    } else {
        lemma_all_resolve_prefix::<P>(d, fields.drop_last(), min, upto);
        assert(fields.drop_last().take(upto) =~= fields.take(upto));
    }
}

/// The sender's step for a free-text field made of `pieces`: a field of
/// more than `max` bytes travels whole and the dictionary is not consulted;
/// otherwise its pieces are encoded one by one.
pub open spec fn encoded_list<P: ReplacementPolicy>(
    d: Dictionary<P::Meta>,
    whole: Seq<char>,
    pieces: Seq<Seq<char>>,
    min: nat,
    max: nat,
) -> (Dictionary<P::Meta>, CodedList) {
    if utf8_len(whole) > max {
        (d, CodedList::NotProcessed(whole))
    } else {
        let all = encoded_all::<P>(d, pieces, min);
        (all.0, CodedList::Processed(all.1))
    }
}

/// The free-text field can be resolved against `d`.
pub open spec fn list_resolves<P: ReplacementPolicy>(
    d: Dictionary<P::Meta>,
    list: CodedList,
    min: nat,
) -> bool {
    list matches CodedList::Processed(pieces) ==> all_resolve::<P>(d, pieces, min)
}

/// The receiver's step for a free-text field: a field that travelled whole
/// is taken as it is; the pieces of another are decoded one by one and
/// joined by `sep`.
pub open spec fn decoded_list<P: ReplacementPolicy>(
    d: Dictionary<P::Meta>,
    list: CodedList,
    sep: char,
    min: nat,
) -> (Dictionary<P::Meta>, Seq<char>) {
    match list {
        CodedList::Processed(pieces) => {
            let all = decoded_all::<P>(d, pieces, min);
            (all.0, joined(all.1, sep))
        },
        CodedList::NotProcessed(whole) => (d, whole),
    }
}

/// Round trip and parity for a free-text field: a receiver whose
/// dictionary equals the sender's can resolve what the sender made of the
/// field, and its dictionary again equals the sender's. It gets the field
/// back as it was where the field travelled whole, and as its pieces joined
/// by the separator otherwise.
pub proof fn lemma_round_trip_list<P: ReplacementPolicy>(
    d: Dictionary<P::Meta>,
    whole: Seq<char>,
    pieces: Seq<Seq<char>>,
    sep: char,
    min: nat,
    max: nat,
)
    requires
        valid::<P>(d),
    ensures
        valid::<P>(encoded_list::<P>(d, whole, pieces, min, max).0),
        list_resolves::<P>(d, encoded_list::<P>(d, whole, pieces, min, max).1, min),
        decoded_list::<P>(d, encoded_list::<P>(d, whole, pieces, min, max).1, sep, min) == (
            encoded_list::<P>(d, whole, pieces, min, max).0,
            if utf8_len(whole) > max {
                whole
            } else {
                joined(pieces, sep)
            },
        ),
{
    lemma_round_trip_all::<P>(d, pieces, min);
}

/// Round trip and parity for a field split at a separator: it holds of
/// every field.
pub proof fn lemma_round_trip_fields<P: ReplacementPolicy>(
    d: Dictionary<P::Meta>,
    whole: Seq<char>,
    sep: char,
    min: nat,
    max: nat,
)
    requires
        valid::<P>(d),
    ensures
        decoded_list::<P>(
            d,
            encoded_list::<P>(d, whole, fields(whole, sep), min, max).1,
            sep,
            min,
        ) == (encoded_list::<P>(d, whole, fields(whole, sep), min, max).0, whole),
{
    lemma_joined_fields(whole, sep);
    lemma_round_trip_list::<P>(d, whole, fields(whole, sep), sep, min, max);
}

/// The sender's step for a free-text field, word by word.
pub fn try_encode_vec<U: UniCache>(
    s: String,
    cache: &mut U,
    min_threshold: usize,
    max_threshold: usize,
) -> (list: MaybeProcessed)
    requires
        old(cache).wf(),
    ensures
        final(cache).wf(),
        final(cache).model() == encoded_list::<U>(
            old(cache).model(),
            s@,
            words(s@),
            min_threshold as nat,
            max_threshold as nat,
        ).0,
        list@ == encoded_list::<U>(
            old(cache).model(),
            s@,
            words(s@),
            min_threshold as nat,
            max_threshold as nat,
        ).1,
{
    if byte_len(s.as_str()) > max_threshold {
        MaybeProcessed::NotProcessed(s)
    } else {
        let pieces = split_whitespace(s.as_str());
        MaybeProcessed::Processed(try_encode_all(&pieces, cache, min_threshold))
    }
}

/// The sender's step for a field whose pieces stand between separators.
pub fn try_encode_vec_with<U: UniCache>(
    s: String,
    cache: &mut U,
    sep: char,
    min_threshold: usize,
    max_threshold: usize,
) -> (list: MaybeProcessed)
    requires
        old(cache).wf(),
    ensures
        final(cache).wf(),
        final(cache).model() == encoded_list::<U>(
            old(cache).model(),
            s@,
            fields(s@, sep),
            min_threshold as nat,
            max_threshold as nat,
        ).0,
        list@ == encoded_list::<U>(
            old(cache).model(),
            s@,
            fields(s@, sep),
            min_threshold as nat,
            max_threshold as nat,
        ).1,
{
    if byte_len(s.as_str()) > max_threshold {
        MaybeProcessed::NotProcessed(s)
    } else {
        let pieces = split_on(s.as_str(), sep);
        MaybeProcessed::Processed(try_encode_all(&pieces, cache, min_threshold))
    }
}

/// The receiver's step for a free-text field. Each index must name an
/// entry when its turn comes.
pub fn try_decode_vec<U: UniCache>(
    v: MaybeProcessed,
    cache: &mut U,
    join_on: char,
    min_threshold: usize,
) -> (value: String)
    requires
        old(cache).wf(),
        list_resolves::<U>(old(cache).model(), v@, min_threshold as nat),
    ensures
        final(cache).wf(),
        final(cache).model() == decoded_list::<U>(
            old(cache).model(),
            v@,
            join_on,
            min_threshold as nat,
        ).0,
        value@ == decoded_list::<U>(old(cache).model(), v@, join_on, min_threshold as nat).1,
{
    match v {
        MaybeProcessed::Processed(pieces) => {
            let values = try_decode_all(pieces, cache, min_threshold);
            join(&values, join_on)
        },
        MaybeProcessed::NotProcessed(whole) => whole,
    }
}

} // verus!
