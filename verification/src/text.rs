//! Strings as sequences of characters: their length in bytes, their fields
//! between separators, their words between white space.
use vstd::prelude::*;
use vstd::string::StringExecFns;
use vstd::utf8::{
    decode_utf8, decode_utf8_split, encode_utf8, encode_utf8_decode_utf8, encode_utf8_valid_utf8,
    is_char_boundary, is_char_boundary_iff_not_is_continuation_byte,
    is_char_boundary_start_end_of_seq, valid_utf8, valid_utf8_split,
};

verus! {

/// The number of bytes of the UTF-8 form of `s`.
pub open spec fn utf8_len(s: Seq<char>) -> nat {
    encode_utf8(s).len()
}

/// The length of `s` in bytes.
pub fn byte_len(s: &str) -> (len: usize)
    ensures
        len == utf8_len(s@),
{
    s.as_bytes().len()
}

/// A character of `s` begins at byte `at`, or `s` ends there.
pub open spec fn on_boundary(s: Seq<char>, at: int) -> bool {
    0 <= at <= utf8_len(s) && is_char_boundary(encode_utf8(s), at)
}

/// The characters of `s` that lie between the bytes `from` and `to` of its
/// UTF-8 form.
pub open spec fn text_between(s: Seq<char>, from: int, to: int) -> Seq<char> {
    decode_utf8(encode_utf8(s).subrange(from, to))
}

/// Between two boundaries of a string lies well-formed text, in which the
/// boundaries of the string are boundaries again.
pub proof fn lemma_between(s: Seq<char>, from: int, at: int, to: int)
    requires
        on_boundary(s, from),
        on_boundary(s, at),
        on_boundary(s, to),
        from <= at <= to,
    ensures
        valid_utf8(encode_utf8(s).subrange(from, to)),
        is_char_boundary(encode_utf8(s).subrange(from, to), at - from),
{
    let bytes = encode_utf8(s);
    encode_utf8_valid_utf8(s);
    valid_utf8_split(bytes, to);
    let head = bytes.subrange(0, to);
    if from < to {
        is_char_boundary_iff_not_is_continuation_byte(bytes, from);
        is_char_boundary_iff_not_is_continuation_byte(head, from);
    } else {
        is_char_boundary_start_end_of_seq(head);
    }
    valid_utf8_split(head, from);
    let part = head.subrange(from, to);
    assert(part =~= bytes.subrange(from, to));
    if at < to {
        is_char_boundary_iff_not_is_continuation_byte(bytes, at);
        is_char_boundary_iff_not_is_continuation_byte(part, at - from);
    } else {
        is_char_boundary_start_end_of_seq(part);
    }
}

/// Text up to a boundary followed by the text from it on is the text
/// across.
pub proof fn lemma_text_between_joins(s: Seq<char>, from: int, at: int, to: int)
    requires
        on_boundary(s, from),
        on_boundary(s, at),
        on_boundary(s, to),
        from <= at <= to,
    ensures
        text_between(s, from, at) + text_between(s, at, to) == text_between(s, from, to),
{
    let bytes = encode_utf8(s);
    let part = bytes.subrange(from, to);
    lemma_between(s, from, at, to);
    decode_utf8_split(part, at - from);
    assert(part.subrange(0, at - from) =~= bytes.subrange(from, at));
    assert(part.subrange(at - from, part.len() as int) =~= bytes.subrange(at, to));
}

/// The text between the two ends of a string is the string.
pub proof fn lemma_text_between_all(s: Seq<char>)
    ensures
        on_boundary(s, 0),
        on_boundary(s, utf8_len(s) as int),
        text_between(s, 0, utf8_len(s) as int) == s,
{
    let bytes = encode_utf8(s);
    encode_utf8_valid_utf8(s);
    is_char_boundary_start_end_of_seq(bytes);
    encode_utf8_decode_utf8(s);
    assert(bytes.subrange(0, bytes.len() as int) =~= bytes);
}

/// Whether a character of `s` begins at byte `at`, or `s` ends there.
pub fn is_on_boundary(s: &str, at: usize) -> (on: bool)
    ensures
        on == on_boundary(s@, at as int),
{
    proof {
        encode_utf8_valid_utf8(s@);
    }
    s.is_char_boundary(at)
}

/// The part of `s` between the bytes `from` and `to`, which must be
/// boundaries of `s`.
pub fn slice(s: &str, from: usize, to: usize) -> (part: &str)
    requires
        from <= to,
        on_boundary(s@, from as int),
        on_boundary(s@, to as int),
    ensures
        part@ == text_between(s@, from as int, to as int),
{
    proof {
        lemma_text_between_all(s@);
        lemma_between(s@, 0, from as int, to as int);
        assert(encode_utf8(s@).subrange(0, to as int).subrange(from as int, to as int)
            =~= encode_utf8(s@).subrange(from as int, to as int));
    }
    let (head, _) = s.split_at(to);
    let (_, part) = head.split_at(from);
    proof {
        encode_utf8_decode_utf8(part@);
    }
    part
}

/// Whether `c` is white space, as `char::is_whitespace` tells it.
pub uninterp spec fn white_space(c: char) -> bool;

/// `char::is_whitespace`: whether the character has the Unicode property
/// `White_Space`. Which characters have it is not stated here.
pub assume_specification[ char::is_whitespace ](c: char) -> (white: bool)
    ensures
        white == white_space(c),
;

/// `String::push`: the character is appended to the string.
pub assume_specification[ String::push ](s: &mut String, c: char)
    ensures
        final(s)@ == old(s)@.push(c),
;

/// The pieces of `s` between the occurrences of `sep`. There is one piece
/// more than there are occurrences, so a string without `sep` is its own
/// single piece, and pieces may be empty.
pub open spec fn fields(s: Seq<char>, sep: char) -> Seq<Seq<char>>
    decreases s.len(),
{
    if s.len() == 0 {
        seq![Seq::empty()]
    } else {
        let before = fields(s.drop_last(), sep);
        if s.last() == sep {
            before.push(Seq::empty())
        } else {
            before.drop_last().push(before.last().push(s.last()))
        }
    }
}

/// The pieces written one after the other with `sep` between neighbours.
pub open spec fn joined(pieces: Seq<Seq<char>>, sep: char) -> Seq<char>
    decreases pieces.len(),
{
    if pieces.len() == 0 {
        Seq::empty()
    } else if pieces.len() == 1 {
        pieces[0]
    } else {
        joined(pieces.drop_last(), sep) + seq![sep] + pieces.last()
    }
}

/// The words of `s`: its longest stretches free of white space.
pub open spec fn words(s: Seq<char>) -> Seq<Seq<char>>
    decreases s.len(),
{
    if s.len() == 0 {
        Seq::empty()
    } else {
        let before = words(s.drop_last());
        if white_space(s.last()) {
            before
        } else if s.len() >= 2 && !white_space(s[s.len() - 2]) {
            before.drop_last().push(before.last().push(s.last()))
        } else {
            before.push(seq![s.last()])
        }
    }
}

/// The views of the strings of `v`.
pub open spec fn views(v: Seq<String>) -> Seq<Seq<char>> {
    v.map_values(|s: String| s@)
}

/// Splits `s` at each occurrence of `sep`.
pub fn split_on(s: &str, sep: char) -> (pieces: Vec<String>)
    ensures
        views(pieces@) == fields(s@, sep),
{
    let mut pieces: Vec<String> = Vec::new();
    let mut piece = String::new();
    let ghost mut seen: int = 0;
    assert(fields(s@.take(0), sep) =~= views(pieces@).push(piece@));
    for c in it: s.chars()
        invariant
            it.seq() == s@,
            seen == it.index(),
            fields(s@.take(seen), sep) == views(pieces@).push(piece@),
    {
        proof {
            assert(s@.take(seen + 1).drop_last() =~= s@.take(seen));
        }
        if c == sep {
            assert(views(pieces@.push(piece)) =~= views(pieces@).push(piece@));
            pieces.push(piece);
            piece = String::new();
        } else {
            assert(views(pieces@).push(piece@).drop_last() =~= views(pieces@));
            piece.push(c);
        }
        proof {
            seen = seen + 1;
        }
    }
    assert(s@.take(seen) =~= s@);
    assert(views(pieces@.push(piece)) =~= views(pieces@).push(piece@));
    pieces.push(piece);
    pieces
}

/// Splits `s` into its words.
pub fn split_whitespace(s: &str) -> (found: Vec<String>)
    ensures
        views(found@) == words(s@),
{
    let mut found: Vec<String> = Vec::new();
    let mut word = String::new();
    let mut inside = false;
    let ghost mut seen: int = 0;
    assert(words(s@.take(0)) =~= views(found@));
    for c in it: s.chars()
        invariant
            it.seq() == s@,
            seen == it.index(),
            inside <==> seen > 0 && !white_space(s@[seen - 1]),
            inside ==> word@.len() > 0 && words(s@.take(seen)) == views(found@).push(word@),
            !inside ==> word@.len() == 0 && words(s@.take(seen)) == views(found@),
    {
        proof {
            assert(s@.take(seen + 1).drop_last() =~= s@.take(seen));
        }
        if c.is_whitespace() {
            if inside {
                assert(views(found@.push(word)) =~= views(found@).push(word@));
                found.push(word);
                word = String::new();
                inside = false;
            }
        } else {
            if inside {
                assert(views(found@).push(word@).drop_last() =~= views(found@));
            }
            word.push(c);
            assert(!inside ==> word@ =~= seq![c]);
            inside = true;
        }
        proof {
            seen = seen + 1;
        }
    }
    assert(s@.take(seen) =~= s@);
    if inside {
        assert(views(found@.push(word)) =~= views(found@).push(word@));
        found.push(word);
    }
    found
}

/// Writes `pieces` one after the other with `sep` between neighbours.
pub fn join(pieces: &Vec<String>, sep: char) -> (whole: String)
    ensures
        whole@ == joined(views(pieces@), sep),
{
    let mut whole = String::new();
    let mut i: usize = 0;
    while i < pieces.len()
        invariant
            i <= pieces.len(),
            whole@ == joined(views(pieces@).take(i as int), sep),
        decreases pieces.len() - i,
    {
        proof {
            let sofar = views(pieces@).take(i + 1);
            assert(sofar.drop_last() =~= views(pieces@).take(i as int));
            assert(sofar.last() == pieces@[i as int]@);
        }
        if i > 0 {
            whole.push(sep);
        }
        whole.append(pieces[i].as_str());
        assert(whole@ =~= joined(views(pieces@).take(i + 1), sep));
        i += 1;
    }
    assert(views(pieces@).take(i as int) =~= views(pieces@));
    whole
}

/// What follows `prefix` in `s`, if `s` begins with `prefix`.
pub fn strip_prefix(s: &str, prefix: &str) -> (rest: Option<String>)
    ensures
        match rest {
            Some(rest) => s@ == prefix@ + rest@,
            None => !prefix@.is_prefix_of(s@),
        },
{
    let mut expected: Vec<char> = Vec::new();
    let ghost mut taken: int = 0;
    for c in it: prefix.chars()
        invariant
            it.seq() == prefix@,
            taken == it.index(),
            expected@ == prefix@.take(taken),
    {
        expected.push(c);
        proof {
            assert(prefix@.take(taken + 1) =~= prefix@.take(taken).push(c));
            taken = taken + 1;
        }
    }
    assert(prefix@.take(taken) =~= prefix@);
    let mut rest = String::new();
    let mut at: usize = 0;
    let ghost mut seen: int = 0;
    for c in it: s.chars()
        invariant
            it.seq() == s@,
            seen == it.index(),
            expected@ == prefix@,
            at <= expected@.len(),
            at < expected@.len() ==> at == seen && rest@.len() == 0,
            s@.take(seen) == prefix@.take(at as int) + rest@,
    {
        if at < expected.len() {
            if expected[at] != c {
                proof {
                    if prefix@.is_prefix_of(s@) {
                        assert(s@.subrange(0, prefix@.len() as int)[seen] == prefix@[seen]);
                    }
                }
                return None;
            }
            proof {
                assert(s@.take(seen + 1) =~= prefix@.take(at + 1) + rest@);
            }
            at += 1;
        } else {
            let ghost before = rest@;
            rest.push(c);
            proof {
                assert(s@.take(seen + 1) =~= s@.take(seen).push(c));
                assert((prefix@.take(at as int) + before).push(c) =~= prefix@.take(at as int)
                    + rest@);
            }
        }
        proof {
            seen = seen + 1;
        }
    }
    assert(s@.take(seen) =~= s@);
    if at < expected.len() {
        None
    } else {
        assert(prefix@.take(at as int) =~= prefix@);
        Some(rest)
    }
}

/// The views of a list with one more string are the views of the list
/// with one more view.
pub proof fn lemma_views_push(v: Seq<String>, s: String)
    ensures
        views(v.push(s)) == views(v).push(s@),
{
    assert(views(v.push(s)) =~= views(v).push(s@));
}

/// A string has at least one field, and none of its fields holds the
/// separator.
pub proof fn lemma_fields(s: Seq<char>, sep: char)
    ensures
        fields(s, sep).len() >= 1,
        forall|i: int|
            0 <= i < fields(s, sep).len() ==> !(#[trigger] fields(s, sep)[i]).contains(sep),
    decreases s.len(),
{
    if s.len() > 0 {
        lemma_fields(s.drop_last(), sep);
        let before = fields(s.drop_last(), sep);
        let all = fields(s, sep);
        assert forall|i: int| 0 <= i < all.len() implies !(#[trigger] all[i]).contains(sep) by {
            if s.last() == sep {
                if i < before.len() {
                    assert(all[i] == before[i]);
                }
            } else {
                if i < before.len() - 1 {
                    assert(all[i] == before[i]);
                } else {
                    let piece = before.last();
                    assert(!piece.contains(sep));
                    if all[i].contains(sep) {
                        let at = all[i].index_of(sep);
                        if at < piece.len() {
                            assert(piece[at] == sep);
                        }
                    }
                }
            }
        }
    }
}

/// Joining the fields of a string with the separator gives the string back.
pub proof fn lemma_joined_fields(s: Seq<char>, sep: char)
    ensures
        joined(fields(s, sep), sep) == s,
    decreases s.len(),
{
    if s.len() == 0 {
        assert(joined(fields(s, sep), sep) =~= s);
    } else {
        lemma_joined_fields(s.drop_last(), sep);
        lemma_fields(s.drop_last(), sep);
        let before = fields(s.drop_last(), sep);
        let all = fields(s, sep);
        if s.last() == sep {
            assert(all.drop_last() =~= before);
            assert(joined(all, sep) =~= s.drop_last() + seq![sep] + Seq::<char>::empty());
            assert(joined(all, sep) =~= s);
        } else {
            if before.len() == 1 {
                assert(all =~= seq![before[0].push(s.last())]);
                assert(joined(before, sep) == before[0]);
                assert(joined(all, sep) =~= s);
            } else {
                assert(all.drop_last() =~= before.drop_last());
                assert(joined(all, sep) =~= joined(before.drop_last(), sep) + seq![sep]
                    + before.last().push(s.last()));
                assert(joined(before, sep) =~= joined(before.drop_last(), sep) + seq![sep]
                    + before.last());
                assert(joined(all, sep) =~= joined(before, sep).push(s.last()));
                assert(joined(all, sep) =~= s);
            }
        }
    }
}

/// A string without the separator is its own single field.
pub proof fn lemma_fields_single(s: Seq<char>, sep: char)
    requires
        !s.contains(sep),
    ensures
        fields(s, sep) == seq![s],
    decreases s.len(),
{
    if s.len() == 0 {
        assert(s =~= Seq::<char>::empty());
    } else {
        let front = s.drop_last();
        assert(!front.contains(sep)) by {
            if front.contains(sep) {
                let at = front.index_of(sep);
                assert(s[at] == sep);
            }
        }
        assert(s[s.len() - 1] != sep);
        lemma_fields_single(front, sep);
        assert(front.push(s.last()) =~= s);
        assert(fields(s, sep) =~= seq![s]);
    }
}

/// After a separator, a string without the separator is one more field.
pub proof fn lemma_fields_append(s: Seq<char>, tail: Seq<char>, sep: char)
    requires
        !tail.contains(sep),
    ensures
        fields(s + seq![sep] + tail, sep) == fields(s, sep).push(tail),
    decreases tail.len(),
{
    let whole = s + seq![sep] + tail;
    if tail.len() == 0 {
        assert(whole.drop_last() =~= s);
        assert(tail =~= Seq::<char>::empty());
    } else {
        let front = tail.drop_last();
        assert(!front.contains(sep)) by {
            if front.contains(sep) {
                let at = front.index_of(sep);
                assert(tail[at] == sep);
            }
        }
        assert(tail[tail.len() - 1] != sep);
        lemma_fields_append(s, front, sep);
        assert(whole.drop_last() =~= s + seq![sep] + front);
        assert(front.push(tail.last()) =~= tail);
        assert(fields(whole, sep) =~= fields(s, sep).push(tail));
    }
}

/// Pieces without the separator, joined by it, are the fields of the
/// whole.
pub proof fn lemma_fields_joined(pieces: Seq<Seq<char>>, sep: char)
    requires
        pieces.len() >= 1,
        forall|i: int| 0 <= i < pieces.len() ==> !(#[trigger] pieces[i]).contains(sep),
    ensures
        fields(joined(pieces, sep), sep) == pieces,
    decreases pieces.len(),
{
    if pieces.len() == 1 {
        lemma_fields_single(pieces[0], sep);
        assert(pieces =~= seq![pieces[0]]);
    } else {
        let front = pieces.drop_last();
        assert forall|i: int| 0 <= i < front.len() implies !(#[trigger] front[i]).contains(sep) by {
            assert(front[i] == pieces[i]);
        }
        lemma_fields_joined(front, sep);
        lemma_fields_append(joined(front, sep), pieces.last(), sep);
        assert(front.push(pieces.last()) =~= pieces);
    }
}

/// How often `sep` stands in `s`.
pub open spec fn occurrences(s: Seq<char>, sep: char) -> nat
    decreases s.len(),
{
    if s.len() == 0 {
        0
    } else {
        occurrences(s.drop_last(), sep) + if s.last() == sep {
            1nat
        } else {
            0nat
        }
    }
}

/// A string has one field more than it has separators.
pub proof fn lemma_fields_count(s: Seq<char>, sep: char)
    ensures
        fields(s, sep).len() == occurrences(s, sep) + 1,
    decreases s.len(),
{
    if s.len() > 0 {
        lemma_fields_count(s.drop_last(), sep);
    }
}

/// The separators of two strings written one after the other are those of
/// the one and those of the other.
pub proof fn lemma_occurrences_add(first: Seq<char>, second: Seq<char>, sep: char)
    ensures
        occurrences(first + second, sep) == occurrences(first, sep) + occurrences(second, sep),
    decreases second.len(),
{
    if second.len() == 0 {
        assert(first + second =~= first);
    } else {
        lemma_occurrences_add(first, second.drop_last(), sep);
        assert((first + second).drop_last() =~= first + second.drop_last());
    }
}

/// A string that holds the separator holds it at least once.
pub proof fn lemma_occurrences_contains(s: Seq<char>, sep: char)
    requires
        s.contains(sep),
    ensures
        occurrences(s, sep) >= 1,
    decreases s.len(),
{
    if s.last() != sep {
        let at = s.index_of(sep);
        assert(s.drop_last()[at] == sep);
        lemma_occurrences_contains(s.drop_last(), sep);
    }
}

/// Joined pieces hold a separator between each two neighbours, and those
/// of each piece besides.
pub proof fn lemma_occurrences_joined(pieces: Seq<Seq<char>>, sep: char, which: int)
    requires
        0 <= which < pieces.len(),
    ensures
        occurrences(joined(pieces, sep), sep) >= pieces.len() - 1 + occurrences(pieces[which], sep),
    decreases pieces.len(),
{
    if pieces.len() > 1 {
        let front = pieces.drop_last();
        lemma_occurrences_add(joined(front, sep) + seq![sep], pieces.last(), sep);
        lemma_occurrences_add(joined(front, sep), seq![sep], sep);
        assert(occurrences(seq![sep], sep) == 1) by {
            let one = seq![sep];
            assert(one.len() == 1 && one.last() == sep);
            assert(one.drop_last() =~= Seq::<char>::empty());
            assert(occurrences(one.drop_last(), sep) == 0);
        }
        if which < front.len() {
            lemma_occurrences_joined(front, sep, which);
        } else {
            lemma_occurrences_joined(front, sep, 0);
        }
    }
}

} // verus!
