//! The coder for statements. A statement is split into a template, in which
//! each literal is replaced by a separator, and the list of the literals.
//! The template goes through the dictionary; the literals travel as they are.
use crate::cache::unicache::{
    valid, CapacityError, Dictionary, OmniCache, ReplacementPolicy, UniCache,
};
use crate::coder::{
    decoded, encoded, lemma_encoded_valid, lemma_round_trip, resolves, try_decode, try_encode,
};
use crate::load::StoreCommand;
use crate::text::{
    byte_len, fields, is_on_boundary, join, joined, lemma_fields_count, lemma_fields_joined,
    lemma_occurrences_contains, lemma_occurrences_joined, lemma_text_between_all,
    lemma_text_between_joins, lemma_views_push, on_boundary, slice, split_on, text_between,
    utf8_len, views,
};
use crate::util::{Coded, MaybeEncoded};
use regex::Regex;
use vstd::prelude::*;
use vstd::string::StringExecFns;

verus! {

/// The character that stands in a template where a literal stood.
pub const SEPARATOR: char = '#';

/// Quoted literals that begin with digits and a backslash.
pub const HASH_RULE: &'static str = r#"('\d+\\.*?')"#;

/// Numbers, together with the character before them, which is no letter,
/// quote, opening bracket, comma or asterisk; so the digits that end a name
/// are left alone.
pub const NUMBER_RULE: &'static str = r#"([^a-zA-Z'(,\*])\d+(\.\d+)?"#;

/// The places where the regular expression `pattern` matches in `text`, as
/// `regex::Regex::find_iter` yields them: each is the byte at which a match
/// begins and the byte before which it ends. `None` where `pattern` is no
/// regular expression.
pub uninterp spec fn regex_matches(pattern: Seq<char>, text: Seq<char>) -> Option<
    Seq<(usize, usize)>,
>;

/// `regex::Regex::new` followed by `Regex::find_iter`: the matches of
/// `pattern` in `text`, or `None` where `pattern` does not compile.
#[verifier::external_body]
pub(crate) fn find_matches(pattern: &str, text: &str) -> (found: Option<Vec<(usize, usize)>>)
    ensures
        found matches Some(spans) ==> regex_matches(pattern@, text@) == Some(spans@),
        found is None ==> regex_matches(pattern@, text@) is None,
{
    match Regex::new(pattern) {
        Ok(rule) => Some(rule.find_iter(text).map(|found| (found.start(), found.end())).collect()),
        Err(_) => None,
    }
}

/// The span can be cut out of `text`: it is not empty, and it begins and
/// ends where characters of `text` do.
pub open spec fn cuttable(text: Seq<char>, span: (usize, usize)) -> bool {
    &&& span.0 < span.1
    &&& on_boundary(text, span.0 as int)
    &&& on_boundary(text, span.1 as int)
}

/// The two spans share no byte.
pub open spec fn apart(first: (usize, usize), second: (usize, usize)) -> bool {
    first.1 <= second.0 || second.1 <= first.0
}

/// The span shares no byte with any of `spans`.
pub open spec fn apart_from_all(spans: Seq<(usize, usize)>, span: (usize, usize)) -> bool {
    forall|i: int| 0 <= i < spans.len() ==> apart(#[trigger] spans[i], span)
}

/// Each span ends before the next begins.
pub open spec fn in_order(spans: Seq<(usize, usize)>) -> bool {
    forall|i: int, j: int|
        0 <= i < j < spans.len() ==> (#[trigger] spans[i]).1 <= (#[trigger] spans[j]).0
}

/// The number of spans at the front of `spans` that `start` comes after,
/// where `spans` is in order.
pub open spec fn place_of(spans: Seq<(usize, usize)>, start: usize) -> int
    decreases spans.len(),
{
    if spans.len() == 0 || spans.last().0 < start {
        spans.len() as int
    } else {
        place_of(spans.drop_last(), start)
    }
}

/// The spans that are captured out of `candidates`. The candidates are
/// taken in turn; one is captured if it can be cut out of `text` and shares
/// no byte with a span captured before it. The captured spans come in the
/// order in which they lie in `text`.
pub open spec fn captured(text: Seq<char>, candidates: Seq<(usize, usize)>) -> Seq<(usize, usize)>
    decreases candidates.len(),
{
    if candidates.len() == 0 {
        Seq::empty()
    } else {
        let before = captured(text, candidates.drop_last());
        let span = candidates.last();
        if cuttable(text, span) && apart_from_all(before, span) {
            before.insert(place_of(before, span.0), span)
        } else {
            before
        }
    }
}

/// The byte at which the text before the span numbered `i` begins.
pub open spec fn gap_start(spans: Seq<(usize, usize)>, i: int) -> int {
    if i == 0 {
        0
    } else {
        spans[i - 1].1 as int
    }
}

/// The stretches of `text` that lie outside `spans`, up to byte `upto`:
/// the one before the first span, those between neighbours, and the one
/// after the last span.
pub open spec fn gaps_of(text: Seq<char>, spans: Seq<(usize, usize)>, upto: int) -> Seq<Seq<char>> {
    Seq::new(
        spans.len() + 1,
        |i: int|
            text_between(
                text,
                gap_start(spans, i),
                if i == spans.len() {
                    upto
                } else {
                    spans[i].0 as int
                },
            ),
    )
}

/// The stretches of `text` that lie inside `spans`.
pub open spec fn parameters_of(text: Seq<char>, spans: Seq<(usize, usize)>) -> Seq<Seq<char>> {
    Seq::new(spans.len(), |i: int| text_between(text, spans[i].0 as int, spans[i].1 as int))
}

/// The template of `text`: `text` with each span replaced by the
/// separator.
pub open spec fn template_of(text: Seq<char>, spans: Seq<(usize, usize)>) -> Seq<char> {
    joined(gaps_of(text, spans, utf8_len(text) as int), SEPARATOR)
}

/// Where the place of a new span is, the spans before it end before it
/// begins and the spans from there on begin after it ends.
pub proof fn lemma_place_of(spans: Seq<(usize, usize)>, span: (usize, usize))
    requires
        in_order(spans),
        apart_from_all(spans, span),
        span.0 < span.1,
        forall|i: int| 0 <= i < spans.len() ==> (#[trigger] spans[i]).0 < spans[i].1,
    ensures
        0 <= place_of(spans, span.0) <= spans.len(),
        forall|i: int| 0 <= i < place_of(spans, span.0) ==> (#[trigger] spans[i]).1 <= span.0,
        forall|i: int|
            place_of(spans, span.0) <= i < spans.len() ==> span.1 <= (#[trigger] spans[i]).0,
        in_order(spans.insert(place_of(spans, span.0), span)),
    decreases spans.len(),
{
    let place = place_of(spans, span.0);
    if spans.len() == 0 {
    } else if spans.last().0 < span.0 {
        assert forall|i: int| 0 <= i < place implies (#[trigger] spans[i]).1 <= span.0 by {
            if i < spans.len() - 1 {
                assert(spans[i].1 <= spans[spans.len() - 1].0);
            } else {
                assert(apart(spans[i], span));
            }
        }
    } else {
        let front = spans.drop_last();
        assert(in_order(front));
        assert(apart_from_all(front, span)) by {
            assert forall|i: int| 0 <= i < front.len() implies apart(#[trigger] front[i], span) by {
                assert(front[i] == spans[i]);
            }
        }
        assert forall|i: int| 0 <= i < front.len() implies (#[trigger] front[i]).0 < front[i].1 by {
            assert(front[i] == spans[i]);
        }
        lemma_place_of(front, span);
        assert forall|i: int| 0 <= i < place implies (#[trigger] spans[i]).1 <= span.0 by {
            assert(front[i] == spans[i]);
        }
        assert forall|i: int| place <= i < spans.len() implies span.1 <= (#[trigger] spans[i]).0 by {
            if i < front.len() {
                assert(front[i] == spans[i]);
            } else {
                assert(apart(spans[i], span));
            }
        }
    }
    let after = spans.insert(place, span);
    assert forall|i: int, j: int| 0 <= i < j < after.len() implies (#[trigger] after[i]).1 <= (
    #[trigger] after[j]).0 by {
        if j < place {
            assert(after[i] == spans[i]);
            assert(after[j] == spans[j]);
        } else if j == place {
            assert(after[i] == spans[i]);
        } else if i < place {
            assert(after[i] == spans[i]);
            assert(after[j] == spans[j - 1]);
            assert(spans[i].1 <= span.0);
            assert(span.1 <= spans[j - 1].0);
        } else if i == place {
            assert(after[j] == spans[j - 1]);
        } else {
            assert(after[i] == spans[i - 1]);
            assert(after[j] == spans[j - 1]);
        }
    }
}

/// The captured spans can each be cut out of the text, and each ends
/// before the next begins.
pub proof fn lemma_captured(text: Seq<char>, candidates: Seq<(usize, usize)>)
    ensures
        in_order(captured(text, candidates)),
        forall|i: int|
            0 <= i < captured(text, candidates).len() ==> cuttable(
                text,
                #[trigger] captured(text, candidates)[i],
            ),
    decreases candidates.len(),
{
    if candidates.len() > 0 {
        lemma_captured(text, candidates.drop_last());
        let before = captured(text, candidates.drop_last());
        let span = candidates.last();
        if cuttable(text, span) && apart_from_all(before, span) {
            lemma_place_of(before, span);
            let place = place_of(before, span.0);
            let after = before.insert(place, span);
            assert forall|i: int| 0 <= i < after.len() implies cuttable(text, #[trigger] after[i]) by {
                if i < place {
                    assert(after[i] == before[i]);
                } else if i > place {
                    assert(after[i] == before[i - 1]);
                }
            }
        }
    }
}

/// The spans of a match list, none where the rule did not compile.
pub open spec fn spans_of(found: Option<Seq<(usize, usize)>>) -> Seq<(usize, usize)> {
    match found {
        Some(spans) => spans,
        None => Seq::empty(),
    }
}

/// The candidates in `text`: the matches of the first rule, then those of
/// the second.
pub open spec fn candidates_of(text: Seq<char>) -> Seq<(usize, usize)> {
    spans_of(regex_matches(HASH_RULE@, text)) + spans_of(regex_matches(NUMBER_RULE@, text))
}

/// Whether the span can be cut out of `text`.
fn is_cuttable(text: &str, span: (usize, usize)) -> (can: bool)
    ensures
        can == cuttable(text@, span),
{
    span.0 < span.1 && is_on_boundary(text, span.0) && is_on_boundary(text, span.1)
}

/// Whether the span shares no byte with any of `spans`.
fn is_apart_from_all(spans: &Vec<(usize, usize)>, span: (usize, usize)) -> (clear: bool)
    ensures
        clear == apart_from_all(spans@, span),
{
    let mut i: usize = 0;
    while i < spans.len()
        invariant
            i <= spans.len(),
            forall|k: int| 0 <= k < i ==> apart(#[trigger] spans@[k], span),
        decreases spans.len() - i,
    {
        let other = spans[i];
        if !(other.1 <= span.0 || span.1 <= other.0) {
            return false;
        }
        i += 1;
    }
    true
}

/// The place of a span that begins at `start` among `spans`.
fn find_place(spans: &Vec<(usize, usize)>, start: usize) -> (place: usize)
    ensures
        place == place_of(spans@, start),
        place <= spans@.len(),
{
    let mut place: usize = spans.len();
    assert(spans@.take(place as int) =~= spans@);
    while place > 0 && spans[place - 1].0 >= start
        invariant
            place <= spans.len(),
            place_of(spans@, start) == place_of(spans@.take(place as int), start),
        decreases place,
    {
        proof {
            assert(spans@.take(place as int).drop_last() =~= spans@.take(place - 1));
        }
        place -= 1;
    }
    proof {
        let front = spans@.take(place as int);
        if place > 0 {
            assert(front.last() == spans@[place - 1]);
        }
    }
    place
}

/// The spans captured out of `candidates`.
pub fn capture(text: &str, candidates: &Vec<(usize, usize)>) -> (spans: Vec<(usize, usize)>)
    ensures
        spans@ == captured(text@, candidates@),
        in_order(spans@),
        forall|i: int| 0 <= i < spans@.len() ==> cuttable(text@, #[trigger] spans@[i]),
{
    let mut spans: Vec<(usize, usize)> = Vec::new();
    let mut i: usize = 0;
    assert(candidates@.take(0) =~= Seq::<(usize, usize)>::empty());
    while i < candidates.len()
        invariant
            i <= candidates.len(),
            spans@ == captured(text@, candidates@.take(i as int)),
        decreases candidates.len() - i,
    {
        proof {
            assert(candidates@.take(i + 1).drop_last() =~= candidates@.take(i as int));
            lemma_captured(text@, candidates@.take(i as int));
            lemma_captured(text@, candidates@.take(i + 1));
        }
        let span = candidates[i];
        if is_cuttable(text, span) && is_apart_from_all(&spans, span) {
            let place = find_place(&spans, span.0);
            spans.insert(place, span);
        }
        i += 1;
    }
    proof {
        assert(candidates@.take(i as int) =~= candidates@);
        lemma_captured(text@, candidates@);
    }
    spans
}

/// Splits `query` at `spans`, which must lie in order in `query` and be
/// cuttable out of it: the template, and the text of each span.
pub fn split_at_spans(query: &str, spans: &Vec<(usize, usize)>) -> (parts: (String, Vec<String>))
    requires
        in_order(spans@),
        forall|i: int| 0 <= i < spans@.len() ==> cuttable(query@, #[trigger] spans@[i]),
    ensures
        parts.0@ == template_of(query@, spans@),
        views(parts.1@) == parameters_of(query@, spans@),
{
    let end = byte_len(query);
    let mut gaps: Vec<String> = Vec::new();
    let mut parameters: Vec<String> = Vec::new();
    let mut from: usize = 0;
    let mut i: usize = 0;
    proof {
        lemma_text_between_all(query@);
    }
    assert(views(gaps@) =~= gaps_of(query@, spans@, end as int).take(0));
    assert(views(parameters@) =~= parameters_of(query@, spans@).take(0));
    while i < spans.len()
        invariant
            i <= spans.len(),
            end == utf8_len(query@),
            in_order(spans@),
            forall|k: int| 0 <= k < spans@.len() ==> cuttable(query@, #[trigger] spans@[k]),
            from == gap_start(spans@, i as int),
            on_boundary(query@, from as int),
            views(gaps@) == gaps_of(query@, spans@, end as int).take(i as int),
            views(parameters@) == parameters_of(query@, spans@).take(i as int),
        decreases spans.len() - i,
    {
        let span = spans[i];
        proof {
            assert(cuttable(query@, spans@[i as int]));
            if i > 0 {
                assert(spans@[i - 1].1 <= spans@[i as int].0);
            }
        }
        let gap = slice(query, from, span.0).to_owned();
        let parameter = slice(query, span.0, span.1).to_owned();
        proof {
            lemma_views_push(gaps@, gap);
            lemma_views_push(parameters@, parameter);
            let all = gaps_of(query@, spans@, end as int);
            assert(all[i as int] == gap@);
            assert(all.take(i + 1) =~= all.take(i as int).push(all[i as int]));
            let texts = parameters_of(query@, spans@);
            assert(texts[i as int] == parameter@);
            assert(texts.take(i + 1) =~= texts.take(i as int).push(texts[i as int]));
        }
        gaps.push(gap);
        parameters.push(parameter);
        from = span.1;
        i += 1;
    }
    let rest = slice(query, from, end).to_owned();
    proof {
        lemma_views_push(gaps@, rest);
        let all = gaps_of(query@, spans@, end as int);
        assert(all[i as int] == rest@);
        assert(all =~= all.take(i as int).push(all[i as int]));
        let texts = parameters_of(query@, spans@);
        assert(texts.take(i as int) =~= texts);
    }
    gaps.push(rest);
    (join(&gaps, SEPARATOR), parameters)
}

/// Splits `query` at the spans captured out of `candidates`.
pub fn split_at_candidates(query: &str, candidates: &Vec<(usize, usize)>) -> (parts: (
    String,
    Vec<String>,
))
    ensures
        parts.0@ == template_of(query@, captured(query@, candidates@)),
        views(parts.1@) == parameters_of(query@, captured(query@, candidates@)),
{
    let spans = capture(query, candidates);
    split_at_spans(query, &spans)
}

/// Splits a statement into its template and its parameters. The
/// parameters are the literals that the two rules find, a match of the
/// first rule winning over a match of the second that shares a byte with
/// it; they come in the order in which they stand in the statement.
pub fn split_query(query: &str) -> (parts: (String, Vec<String>))
    ensures
        parts.0@ == template_of(query@, captured(query@, candidates_of(query@))),
        views(parts.1@) == parameters_of(query@, captured(query@, candidates_of(query@))),
{
    let mut candidates: Vec<(usize, usize)> = match find_matches(HASH_RULE, query) {
        Some(found) => found,
        None => Vec::new(),
    };
    let mut numbers: Vec<(usize, usize)> = match find_matches(NUMBER_RULE, query) {
        Some(found) => found,
        None => Vec::new(),
    };
    candidates.append(&mut numbers);
    split_at_candidates(query, &candidates)
}

/// Why a template and a parameter list could not be merged.
#[derive(Copy, Clone, Debug, PartialEq, Eq, Structural)]
pub enum TemplateError {
    /// The template does not have one separator for each parameter.
    ParameterCount,
}

/// The pieces and the parameters in turn: a piece, a parameter, a piece,
/// and so on to the last piece.
pub open spec fn merged(pieces: Seq<Seq<char>>, parameters: Seq<Seq<char>>) -> Seq<char>
    decreases parameters.len(),
{
    if pieces.len() == 0 {
        Seq::empty()
    } else if parameters.len() == 0 {
        pieces[0]
    } else {
        merged(pieces.drop_last(), parameters.drop_last()) + parameters.last() + pieces.last()
    }
}

/// The statement that a template and its parameters stand for. Without
/// parameters it is the template as it is. Otherwise the template must have
/// one separator for each parameter, and each separator gives way to its
/// parameter.
pub open spec fn merge_of(template: Seq<char>, parameters: Seq<Seq<char>>) -> Option<Seq<char>> {
    if parameters.len() == 0 {
        Some(template)
    } else if fields(template, SEPARATOR).len() != parameters.len() + 1 {
        None
    } else {
        Some(merged(fields(template, SEPARATOR), parameters))
    }
}

/// Merges a template with its parameters.
pub fn merge_query(template: &str, parameters: &Vec<String>) -> (whole: Result<
    String,
    TemplateError,
>)
    ensures
        match merge_of(template@, views(parameters@)) {
            Some(text) => whole matches Ok(query) && query@ == text,
            None => whole == Err::<String, TemplateError>(TemplateError::ParameterCount),
        },
{
    if parameters.len() == 0 {
        return Ok(template.to_owned());
    }
    let pieces = split_on(template, SEPARATOR);
    let count = parameters.len();
    let have = pieces.len();
    if count == usize::MAX || have != count + 1 {
        return Err(TemplateError::ParameterCount);
    }
    let mut query = String::new();
    let mut i: usize = 0;
    proof {
        assert(views(pieces@).take(1) =~= seq![pieces@[0]@]);
        assert(views(parameters@).take(0) =~= Seq::<Seq<char>>::empty());
        assert(query@ + pieces@[0]@ =~= pieces@[0]@);
    }
    while i < count
        invariant
            i <= count,
            count == parameters.len(),
            pieces.len() == count + 1,
            query@ + pieces@[i as int]@ == merged(
                views(pieces@).take(i + 1),
                views(parameters@).take(i as int),
            ),
        decreases count - i,
    {
        proof {
            let some = views(pieces@).take(i + 2);
            let given = views(parameters@).take(i + 1);
            assert(some.drop_last() =~= views(pieces@).take(i + 1));
            assert(given.drop_last() =~= views(parameters@).take(i as int));
            assert(some.last() == pieces@[i + 1]@);
            assert(given.last() == parameters@[i as int]@);
        }
        let ghost before = query@;
        query.append(pieces[i].as_str());
        query.append(parameters[i].as_str());
        assert(query@ + pieces@[i + 1]@ =~= before + pieces@[i as int]@ + parameters@[i as int]@
            + pieces@[i + 1]@);
        i += 1;
    }
    query.append(pieces[count].as_str());
    proof {
        assert(views(pieces@).take(count + 1) =~= views(pieces@));
        assert(views(parameters@).take(count as int) =~= views(parameters@));
    }
    Ok(query)
}

/// The gaps and the parameters of a text, merged, are the text up to the
/// end of the last gap.
pub proof fn lemma_merged_gaps(text: Seq<char>, spans: Seq<(usize, usize)>, upto: int)
    requires
        in_order(spans),
        forall|i: int| 0 <= i < spans.len() ==> cuttable(text, #[trigger] spans[i]),
        on_boundary(text, upto),
        spans.len() > 0 ==> spans.last().1 <= upto,
    ensures
        merged(gaps_of(text, spans, upto), parameters_of(text, spans)) == text_between(
            text,
            0,
            upto,
        ),
    decreases spans.len(),
{
    let gaps = gaps_of(text, spans, upto);
    let parameters = parameters_of(text, spans);
    lemma_text_between_all(text);
    if spans.len() > 0 {
        let front = spans.drop_last();
        let last = spans.last();
        assert(cuttable(text, spans[spans.len() - 1]));
        assert forall|i: int| 0 <= i < front.len() implies cuttable(text, #[trigger] front[i]) by {
            assert(front[i] == spans[i]);
        }
        assert(in_order(front)) by {
            assert forall|i: int, j: int| 0 <= i < j < front.len() implies (#[trigger] front[i]).1 <= (
            #[trigger] front[j]).0 by {
                assert(front[i] == spans[i]);
                assert(front[j] == spans[j]);
            }
        }
        if front.len() > 0 {
            assert(front.last() == spans[spans.len() - 2]);
            assert(spans[spans.len() - 2].1 <= spans[spans.len() - 1].0);
        }
        lemma_merged_gaps(text, front, last.0 as int);
        assert(gaps.drop_last() =~= gaps_of(text, front, last.0 as int));
        assert(parameters.drop_last() =~= parameters_of(text, front));
        lemma_text_between_joins(text, 0, last.0 as int, last.1 as int);
        lemma_text_between_joins(text, 0, last.1 as int, upto);
    }
}

/// The statement can be merged again after it was split at `spans`: there
/// is no span, or no separator stands outside the spans.
pub open spec fn mergeable(text: Seq<char>, spans: Seq<(usize, usize)>) -> bool {
    spans.len() > 0 ==> forall|i: int|
        0 <= i <= spans.len() ==> !(#[trigger] gaps_of(text, spans, utf8_len(text) as int)[i]).contains(
            SEPARATOR,
        )
}

/// Round trip for a statement: merging its template with its parameters
/// gives the statement back where it has no literal or no separator outside
/// its literals, and fails otherwise.
pub proof fn lemma_split_merge(text: Seq<char>, candidates: Seq<(usize, usize)>)
    ensures
        merge_of(
            template_of(text, captured(text, candidates)),
            parameters_of(text, captured(text, candidates)),
        ) == if mergeable(text, captured(text, candidates)) {
            Some(text)
        } else {
            None
        },
{
    let spans = captured(text, candidates);
    let gaps = gaps_of(text, spans, utf8_len(text) as int);
    lemma_captured(text, candidates);
    lemma_text_between_all(text);
    if spans.len() == 0 {
        assert(gaps[0] == text);
    } else if mergeable(text, spans) {
        assert(cuttable(text, spans[spans.len() - 1]));
        lemma_fields_joined(gaps, SEPARATOR);
        lemma_merged_gaps(text, spans, utf8_len(text) as int);
    } else {
        let which = choose|i: int| 0 <= i <= spans.len() && (#[trigger] gaps[i]).contains(SEPARATOR);
        lemma_occurrences_contains(gaps[which], SEPARATOR);
        lemma_occurrences_joined(gaps, SEPARATOR, which);
        lemma_fields_count(template_of(text, spans), SEPARATOR);
    }
}

/// A template is eligible for the dictionary whatever its length.
pub const TEMPLATE_MIN_THRESHOLD: usize = 0;

/// A statement as it travels: its template through the dictionary, its
/// parameters as they are.
#[derive(Clone, Debug, PartialEq, Eq)]
pub struct EncodedCommand {
    pub id: usize,
    pub template: MaybeEncoded,
    pub parameters: Vec<String>,
}

/// A statement in one of its two forms. `Empty` stands in while a coder
/// holds the content.
#[derive(Clone, Debug, PartialEq, Eq)]
pub enum Command {
    Decoded(StoreCommand),
    Encoded(EncodedCommand),
    Empty,
}

/// A `StoreCommand` as a mathematical value.
pub struct Statement {
    pub id: usize,
    pub sql: Seq<char>,
}

/// An `EncodedCommand` as a mathematical value.
pub struct CodedStatement {
    pub id: usize,
    pub template: Coded,
    pub parameters: Seq<Seq<char>>,
}

/// A `Command` as a mathematical value.
pub enum StatementForm {
    Decoded(Statement),
    Encoded(CodedStatement),
    Empty,
}

impl View for StoreCommand {
    type V = Statement;

    open spec fn view(&self) -> Statement {
        Statement { id: self.id, sql: self.sql@ }
    }
}

impl View for EncodedCommand {
    type V = CodedStatement;

    open spec fn view(&self) -> CodedStatement {
        CodedStatement {
            id: self.id,
            template: self.template@,
            parameters: views(self.parameters@),
        }
    }
}

impl View for Command {
    type V = StatementForm;

    open spec fn view(&self) -> StatementForm {
        match self {
            Command::Decoded(command) => StatementForm::Decoded(command@),
            Command::Encoded(command) => StatementForm::Encoded(command@),
            Command::Empty => StatementForm::Empty,
        }
    }
}

/// The sender's step for a statement that was split into `template` and
/// `parameters`: the template goes through the dictionary.
pub open spec fn encoded_parts<P: ReplacementPolicy>(
    d: Dictionary<P::Meta>,
    id: usize,
    template: Seq<char>,
    parameters: Seq<Seq<char>>,
) -> (Dictionary<P::Meta>, CodedStatement) {
    let through = encoded::<P>(d, template, TEMPLATE_MIN_THRESHOLD as nat);
    (through.0, CodedStatement { id, template: through.1, parameters })
}

/// The sender's step for a statement.
pub open spec fn encoded_statement<P: ReplacementPolicy>(
    d: Dictionary<P::Meta>,
    statement: Statement,
) -> (Dictionary<P::Meta>, CodedStatement) {
    let spans = captured(statement.sql, candidates_of(statement.sql));
    encoded_parts::<P>(
        d,
        statement.id,
        template_of(statement.sql, spans),
        parameters_of(statement.sql, spans),
    )
}

/// The receiver's step for a statement: the template is resolved, which
/// moves the dictionary on, and merged with the parameters. Where they do
/// not merge there is no statement.
pub open spec fn decoded_statement<P: ReplacementPolicy>(
    d: Dictionary<P::Meta>,
    statement: CodedStatement,
) -> (Dictionary<P::Meta>, Option<Statement>) {
    let through = decoded::<P>(d, statement.template, TEMPLATE_MIN_THRESHOLD as nat);
    (
        through.0,
        match merge_of(through.1, statement.parameters) {
            Some(sql) => Some(Statement { id: statement.id, sql }),
            None => None,
        },
    )
}

/// Round trip and parity for a statement: a receiver whose dictionary
/// equals the sender's can resolve what the sender made of the statement,
/// and its dictionary again equals the sender's. It gets the statement back
/// where the statement has no literal or no separator outside its literals,
/// and no statement otherwise.
pub proof fn lemma_statement_round_trip<P: ReplacementPolicy>(
    d: Dictionary<P::Meta>,
    statement: Statement,
)
    requires
        valid::<P>(d),
    ensures
        valid::<P>(encoded_statement::<P>(d, statement).0),
        resolves(d.slots, encoded_statement::<P>(d, statement).1.template),
        decoded_statement::<P>(d, encoded_statement::<P>(d, statement).1) == (
            encoded_statement::<P>(d, statement).0,
            if mergeable(statement.sql, captured(statement.sql, candidates_of(statement.sql))) {
                Some(statement)
            } else {
                None
            },
        ),
{
    let spans = captured(statement.sql, candidates_of(statement.sql));
    let template = template_of(statement.sql, spans);
    lemma_split_merge(statement.sql, candidates_of(statement.sql));
    lemma_round_trip::<P>(d, template, TEMPLATE_MIN_THRESHOLD as nat);
    lemma_encoded_valid::<P>(d, template, TEMPLATE_MIN_THRESHOLD as nat);
}

/// Encodes a statement that was split into `template` and `parameters`.
/// The flag tells whether the dictionary held the template.
pub fn encode_parts<U: UniCache>(
    id: usize,
    template: String,
    parameters: Vec<String>,
    cache: &mut U,
) -> (made: (EncodedCommand, bool))
    requires
        old(cache).wf(),
    ensures
        final(cache).wf(),
        final(cache).model() == encoded_parts::<U>(
            old(cache).model(),
            id,
            template@,
            views(parameters@),
        ).0,
        made.0@ == encoded_parts::<U>(old(cache).model(), id, template@, views(parameters@)).1,
        made.1 == (made.0.template is Encoded),
{
    let through = try_encode(template.as_str(), cache, TEMPLATE_MIN_THRESHOLD);
    let hit = match &through {
        MaybeEncoded::Encoded(_) => true,
        MaybeEncoded::Decoded(_) => false,
    };
    (EncodedCommand { id, template: through, parameters }, hit)
}

/// Encodes the statement in place against the sender's dictionary. The
/// command must hold a statement as it is read. The flag tells whether the
/// dictionary held the template.
pub fn encode<U: UniCache>(command: &mut Command, cache: &mut U) -> (hit: bool)
    requires
        old(cache).wf(),
        *old(command) is Decoded,
    ensures
        final(cache).wf(),
        final(cache).model() == encoded_statement::<U>(
            old(cache).model(),
            old(command)@->Decoded_0,
        ).0,
        final(command)@ == StatementForm::Encoded(
            encoded_statement::<U>(old(cache).model(), old(command)@->Decoded_0).1,
        ),
        hit == (encoded_statement::<U>(
            old(cache).model(),
            old(command)@->Decoded_0,
        ).1.template is Encoded),
{
    let mut held = Command::Empty;
    std::mem::swap(command, &mut held);
    match held {
        Command::Decoded(statement) => {
            let (template, parameters) = split_query(statement.sql.as_str());
            let (made, hit) = encode_parts(statement.id, template, parameters, cache);
            *command = Command::Encoded(made);
            hit
        },
        _ => unreached(),
    }
}

/// Decodes the statement in place against the receiver's dictionary. The
/// command must hold a statement as it travels, and an index in it must
/// name an entry. Where the template and the parameters do not merge, the
/// command is left as it came; the dictionary has moved on all the same, as
/// the sender's has.
pub fn decode<U: UniCache>(command: &mut Command, cache: &mut U) -> (done: Result<
    (),
    TemplateError,
>)
    requires
        old(cache).wf(),
        *old(command) is Encoded,
        resolves(old(cache).model().slots, old(command)@->Encoded_0.template),
    ensures
        final(cache).wf(),
        final(cache).model() == decoded_statement::<U>(
            old(cache).model(),
            old(command)@->Encoded_0,
        ).0,
        match decoded_statement::<U>(old(cache).model(), old(command)@->Encoded_0).1 {
            Some(statement) => done is Ok && final(command)@ == StatementForm::Decoded(statement),
            None => {
                &&& done == Err::<(), TemplateError>(TemplateError::ParameterCount)
                &&& final(command)@ == old(command)@
            },
        },
{
    let mut held = Command::Empty;
    std::mem::swap(command, &mut held);
    match held {
        Command::Encoded(statement) => {
            let index = match &statement.template {
                MaybeEncoded::Encoded(index) => Some(*index),
                MaybeEncoded::Decoded(_) => None,
            };
            let template = try_decode(statement.template, cache, TEMPLATE_MIN_THRESHOLD);
            match merge_query(template.as_str(), &statement.parameters) {
                Ok(sql) => {
                    *command = Command::Decoded(StoreCommand { id: statement.id, sql });
                    Ok(())
                },
                Err(error) => {
                    let back = match index {
                        Some(index) => MaybeEncoded::Encoded(index),
                        None => MaybeEncoded::Decoded(template),
                    };
                    *command = Command::Encoded(
                        EncodedCommand {
                            id: statement.id,
                            template: back,
                            parameters: statement.parameters,
                        },
                    );
                    Err(error)
                },
            }
        },
        _ => unreached(),
    }
}

/// The coder for statements: one dictionary, which the templates go
/// through.
pub struct QueryUniCache<U: UniCache> {
    cache: U,
}

impl<U: UniCache> OmniCache<Command, U> for QueryUniCache<U> {
    closed spec fn wf(&self) -> bool {
        self.cache.wf()
    }

    closed spec fn dictionaries(&self) -> Seq<Dictionary<U::Meta>> {
        seq![self.cache.model()]
    }

    open spec fn sound(dictionaries: Seq<Dictionary<U::Meta>>) -> bool {
        dictionaries.len() == 1 && valid::<U>(dictionaries[0])
    }

    open spec fn encodable(data: StatementForm) -> bool {
        data is Decoded
    }

    open spec fn decodable(dictionaries: Seq<Dictionary<U::Meta>>, data: StatementForm) -> bool {
        data is Encoded && resolves(dictionaries[0].slots, data->Encoded_0.template)
    }

    open spec fn encoded(dictionaries: Seq<Dictionary<U::Meta>>, data: StatementForm) -> (
        Seq<Dictionary<U::Meta>>,
        StatementForm,
    ) {
        let made = encoded_statement::<U>(dictionaries[0], data->Decoded_0);
        (seq![made.0], StatementForm::Encoded(made.1))
    }

    open spec fn decoded(dictionaries: Seq<Dictionary<U::Meta>>, data: StatementForm) -> (
        Seq<Dictionary<U::Meta>>,
        Option<StatementForm>,
    ) {
        let made = decoded_statement::<U>(dictionaries[0], data->Encoded_0);
        (
            seq![made.0],
            match made.1 {
                Some(statement) => Some(StatementForm::Decoded(statement)),
                None => None,
            },
        )
    }

    proof fn lemma_wf(&self) {
        self.cache.lemma_wf();
    }

    proof fn lemma_parity(dictionaries: Seq<Dictionary<U::Meta>>, data: StatementForm) {
        lemma_statement_round_trip::<U>(dictionaries[0], data->Decoded_0);
    }

    fn new(capacity: usize) -> (made: Result<Self, CapacityError>) {
        match U::new(capacity) {
            Ok(cache) => Ok(QueryUniCache { cache }),
            Err(error) => Err(error),
        }
    }

    fn encode(&mut self, data: &mut Command) {
        let _ = encode(data, &mut self.cache);
    }

    fn decode(&mut self, data: &mut Command) -> (done: bool) {
        match decode(data, &mut self.cache) {
            Ok(_) => true,
            Err(_) => false,
        }
    }
}

} // verus!
