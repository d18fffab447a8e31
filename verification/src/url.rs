//! The coder for addresses of dated articles. An address that begins with
//! the base of a site and a date is taken apart into the date, the path and
//! the name, each of which goes through a dictionary of its own: the date
//! as one value, the path piece by piece, the name word by word.
use crate::cache::unicache::{valid, Dictionary, ReplacementPolicy, UniCache};
use crate::coder::{
    decoded, decoded_list, encoded, encoded_list, lemma_encoded_valid, lemma_round_trip,
    lemma_round_trip_list, list_resolves, resolves, try_decode, try_decode_vec, try_encode,
    try_encode_vec_with,
};
use crate::preprocess::{find_matches, regex_matches};
use crate::text::{
    byte_len, fields, is_on_boundary, join, joined, lemma_fields, lemma_joined_fields,
    lemma_text_between_all, lemma_text_between_joins, on_boundary, slice, split_on, strip_prefix,
    text_between, utf8_len, views,
};
use crate::util::{Coded, CodedList, MaybeEncoded, MaybeProcessed};
use vstd::prelude::*;
use vstd::string::StringExecFns;

verus! {

/// A date at the front: four digits, two digits and two digits, each
/// followed by a slash.
pub const DATE_RULE: &'static str = r"^\d{4}/\d{2}/\d{2}/";

/// The character between the pieces of a path.
pub const PATH_SEP: char = '/';

/// The character between the words of a name.
pub const NAME_SEP: char = '-';

/// An address taken apart, without its base.
#[derive(Clone, Debug, PartialEq, Eq)]
pub struct UrlParts {
    pub date: String,
    pub path: Option<String>,
    pub name: String,
}

/// A `UrlParts` as a mathematical value.
pub struct Parts {
    pub date: Seq<char>,
    pub path: Option<Seq<char>>,
    pub name: Seq<char>,
}

impl View for UrlParts {
    type V = Parts;

    open spec fn view(&self) -> Parts {
        Parts {
            date: self.date@,
            path: match self.path {
                Some(path) => Some(path@),
                None => None,
            },
            name: self.name@,
        }
    }
}

/// The path and the name in what follows the date: the name is what
/// follows the last slash, the path what stands before it. Without a slash
/// there is no path.
pub open spec fn path_and_name(tail: Seq<char>) -> (Option<Seq<char>>, Seq<char>) {
    let pieces = fields(tail, PATH_SEP);
    if pieces.len() == 1 {
        (None, tail)
    } else {
        (Some(joined(pieces.drop_last(), PATH_SEP)), pieces.last())
    }
}

/// The parts of what follows the base, where the date ends before byte
/// `end`.
pub open spec fn parts_at(rest: Seq<char>, end: usize) -> Option<Parts> {
    if 0 < end && on_boundary(rest, end as int) {
        let tail = path_and_name(text_between(rest, end as int, utf8_len(rest) as int));
        Some(Parts { date: text_between(rest, 0, end as int), path: tail.0, name: tail.1 })
    } else {
        None
    }
}

/// The byte before which the date at the front of `rest` ends, if the rule
/// finds a date.
pub open spec fn date_end(rest: Seq<char>) -> Option<usize> {
    match regex_matches(DATE_RULE@, rest) {
        Some(spans) => if spans.len() > 0 {
            Some(spans[0].1)
        } else {
            None
        },
        None => None,
    }
}

/// The parts of an address, if it begins with `base` and a date.
pub open spec fn parts_of(url: Seq<char>, base: Seq<char>) -> Option<Parts> {
    if base.is_prefix_of(url) {
        match date_end(url.skip(base.len() as int)) {
            Some(end) => parts_at(url.skip(base.len() as int), end),
            None => None,
        }
    } else {
        None
    }
}

/// The address that the parts make with `base`.
pub open spec fn whole_of(base: Seq<char>, parts: Parts) -> Seq<char> {
    base + parts.date + match parts.path {
        Some(path) => path + seq![PATH_SEP],
        None => Seq::empty(),
    } + parts.name
}

/// The parts found after the base make what follows the base.
pub proof fn lemma_parts_at(rest: Seq<char>, end: usize)
    requires
        parts_at(rest, end) is Some,
    ensures
        whole_of(Seq::empty(), parts_at(rest, end)->0) == rest,
{
    let parts = parts_at(rest, end)->0;
    let tail = text_between(rest, end as int, utf8_len(rest) as int);
    lemma_text_between_all(rest);
    lemma_text_between_joins(rest, 0, end as int, utf8_len(rest) as int);
    lemma_joined_fields(tail, PATH_SEP);
    lemma_fields(tail, PATH_SEP);
    assert(whole_of(Seq::empty(), parts) =~= parts.date + tail);
}

/// The parts of an address make the address.
pub proof fn lemma_parts_of(url: Seq<char>, base: Seq<char>)
    requires
        parts_of(url, base) is Some,
    ensures
        whole_of(base, parts_of(url, base)->0) == url,
{
    let rest = url.skip(base.len() as int);
    let parts = parts_of(url, base)->0;
    lemma_parts_at(rest, date_end(rest)->0);
    assert(whole_of(base, parts) =~= base + whole_of(Seq::empty(), parts));
    assert(base + rest =~= url);
}

/// Takes apart what follows the base, where the date ends before byte
/// `end`.
pub fn split_rest_at(rest: &str, end: usize) -> (parts: Option<UrlParts>)
    ensures
        match parts_at(rest@, end) {
            Some(found) => parts matches Some(made) && made@ == found,
            None => parts is None,
        },
{
    if end == 0 || !is_on_boundary(rest, end) {
        return None;
    }
    proof {
        lemma_text_between_all(rest@);
    }
    let date = slice(rest, 0, end).to_owned();
    let tail = slice(rest, end, byte_len(rest));
    let mut pieces = split_on(tail, PATH_SEP);
    proof {
        lemma_fields(tail@, PATH_SEP);
    }
    if pieces.len() == 1 {
        Some(UrlParts { date, path: None, name: tail.to_owned() })
    } else {
        let ghost all = pieces@;
        match pieces.pop() {
            Some(name) => {
                assert(views(pieces@) =~= views(all).drop_last());
                Some(UrlParts { date, path: Some(join(&pieces, PATH_SEP)), name })
            },
            None => None,
        }
    }
}

/// Takes an address apart, if it begins with `base` and a date.
pub fn split_url(url: &str, base: &str) -> (parts: Option<UrlParts>)
    ensures
        match parts_of(url@, base@) {
            Some(found) => parts matches Some(made) && made@ == found,
            None => parts is None,
        },
{
    match strip_prefix(url, base) {
        Some(rest) => {
            assert(rest@ =~= url@.skip(base@.len() as int));
            assert(base@.is_prefix_of(url@));
            match find_matches(DATE_RULE, rest.as_str()) {
                Some(spans) => {
                    if spans.len() > 0 {
                        split_rest_at(rest.as_str(), spans[0].1)
                    } else {
                        None
                    }
                },
                None => None,
            }
        },
        None => None,
    }
}

/// The parts of an address as they travel.
#[derive(Clone, Debug, PartialEq, Eq)]
pub struct EncodedURL {
    pub date: MaybeEncoded,
    pub path: Option<MaybeProcessed>,
    pub name: MaybeProcessed,
}

/// An address as it travels: in parts, or whole where it does not begin
/// with the base and a date.
#[derive(Clone, Debug, PartialEq, Eq)]
pub enum MaybeEncodedURL {
    Encoded(EncodedURL),
    Decoded(String),
}

/// An `EncodedURL` as a mathematical value.
pub struct CodedUrl {
    pub date: Coded,
    pub path: Option<CodedList>,
    pub name: CodedList,
}

/// A `MaybeEncodedURL` as a mathematical value.
pub enum CodedAddress {
    Encoded(CodedUrl),
    Decoded(Seq<char>),
}

impl View for EncodedURL {
    type V = CodedUrl;

    open spec fn view(&self) -> CodedUrl {
        CodedUrl {
            date: self.date@,
            path: match self.path {
                Some(path) => Some(path@),
                None => None,
            },
            name: self.name@,
        }
    }
}

impl View for MaybeEncodedURL {
    type V = CodedAddress;

    open spec fn view(&self) -> CodedAddress {
        match self {
            MaybeEncodedURL::Encoded(url) => CodedAddress::Encoded(url@),
            MaybeEncodedURL::Decoded(url) => CodedAddress::Decoded(url@),
        }
    }
}

/// The three dictionaries that the parts of an address go through.
pub struct UrlDictionaries<M> {
    pub date: Dictionary<M>,
    pub path: Dictionary<M>,
    pub name: Dictionary<M>,
}

/// Each of the three dictionaries is valid.
pub open spec fn all_valid<P: ReplacementPolicy>(d: UrlDictionaries<P::Meta>) -> bool {
    valid::<P>(d.date) && valid::<P>(d.path) && valid::<P>(d.name)
}

/// The sender's step for the parts of an address. A part shorter than
/// `min` bytes stays out of the dictionaries; a path or a name of more than
/// `max` bytes travels whole.
pub open spec fn encoded_url_parts<P: ReplacementPolicy>(
    d: UrlDictionaries<P::Meta>,
    parts: Parts,
    min: nat,
    max: nat,
) -> (UrlDictionaries<P::Meta>, CodedUrl) {
    let date = encoded::<P>(d.date, parts.date, min);
    let path = match parts.path {
        Some(path) => {
            let made = encoded_list::<P>(
                d.path,
                path,
                fields(path, PATH_SEP),
                min,
                max,
            );
            (made.0, Some(made.1))
        },
        None => (d.path, None),
    };
    let name = encoded_list::<P>(
        d.name,
        parts.name,
        fields(parts.name, NAME_SEP),
        min,
        max,
    );
    (
        UrlDictionaries { date: date.0, path: path.0, name: name.0 },
        CodedUrl { date: date.1, path: path.1, name: name.1 },
    )
}

/// The sender's step for an address: in parts where it can be taken apart,
/// whole and past the dictionaries otherwise.
pub open spec fn encoded_url<P: ReplacementPolicy>(
    d: UrlDictionaries<P::Meta>,
    url: Seq<char>,
    base: Seq<char>,
    min: nat,
    max: nat,
) -> (UrlDictionaries<P::Meta>, CodedAddress) {
    match parts_of(url, base) {
        Some(parts) => {
            let made = encoded_url_parts::<P>(d, parts, min, max);
            (made.0, CodedAddress::Encoded(made.1))
        },
        None => (d, CodedAddress::Decoded(url)),
    }
}

/// Each index in the address names an entry when its turn comes.
pub open spec fn url_resolves<P: ReplacementPolicy>(
    d: UrlDictionaries<P::Meta>,
    url: CodedAddress,
    min: nat,
) -> bool {
    url matches CodedAddress::Encoded(parts) ==> {
        &&& resolves(d.date.slots, parts.date)
        &&& parts.path matches Some(path) ==> list_resolves::<P>(
            d.path,
            path,
            min,
        )
        &&& list_resolves::<P>(d.name, parts.name, min)
    }
}

/// The receiver's step for an address.
pub open spec fn decoded_url<P: ReplacementPolicy>(
    d: UrlDictionaries<P::Meta>,
    url: CodedAddress,
    base: Seq<char>,
    min: nat,
) -> (UrlDictionaries<P::Meta>, Seq<char>) {
    match url {
        CodedAddress::Decoded(whole) => (d, whole),
        CodedAddress::Encoded(parts) => {
            let date = decoded::<P>(d.date, parts.date, min);
            let path = match parts.path {
                Some(path) => {
                    let made = decoded_list::<P>(d.path, path, PATH_SEP, min);
                    (made.0, Some(made.1))
                },
                None => (d.path, None),
            };
            let name = decoded_list::<P>(d.name, parts.name, NAME_SEP, min);
            (
                UrlDictionaries { date: date.0, path: path.0, name: name.0 },
                whole_of(base, Parts { date: date.1, path: path.1, name: name.1 }),
            )
        },
    }
}

/// Round trip and parity for an address: a receiver whose dictionaries
/// equal the sender's can resolve what the sender made of the address, gets
/// the address back, and its dictionaries again equal the sender's.
pub proof fn lemma_url_round_trip<P: ReplacementPolicy>(
    d: UrlDictionaries<P::Meta>,
    url: Seq<char>,
    base: Seq<char>,
    min: nat,
    max: nat,
)
    requires
        all_valid::<P>(d),
    ensures
        all_valid::<P>(encoded_url::<P>(d, url, base, min, max).0),
        url_resolves::<P>(d, encoded_url::<P>(d, url, base, min, max).1, min),
        decoded_url::<P>(d, encoded_url::<P>(d, url, base, min, max).1, base, min) == (
            encoded_url::<P>(d, url, base, min, max).0,
            url,
        ),
{
    if let Some(parts) = parts_of(url, base) {
        lemma_parts_of(url, base);
        lemma_round_trip::<P>(d.date, parts.date, min);
        lemma_encoded_valid::<P>(d.date, parts.date, min);
        if let Some(path) = parts.path {
            lemma_joined_fields(path, PATH_SEP);
            lemma_round_trip_list::<P>(
                d.path,
                path,
                fields(path, PATH_SEP),
                PATH_SEP,
                min,
                max,
            );
        }
        lemma_joined_fields(parts.name, NAME_SEP);
        lemma_round_trip_list::<P>(
            d.name,
            parts.name,
            fields(parts.name, NAME_SEP),
            NAME_SEP,
            min,
            max,
        );
    }
}

/// The dictionaries of the three as a mathematical value.
pub open spec fn models<U: UniCache>(dates: &U, paths: &U, names: &U) -> UrlDictionaries<U::Meta> {
    UrlDictionaries { date: dates.model(), path: paths.model(), name: names.model() }
}

/// The sender's step for the parts of an address.
pub fn try_encode_url_parts<U: UniCache>(
    parts: UrlParts,
    dates: &mut U,
    paths: &mut U,
    names: &mut U,
    min_threshold: usize,
    max_threshold: usize,
) -> (url: EncodedURL)
    requires
        old(dates).wf(),
        old(paths).wf(),
        old(names).wf(),
    ensures
        final(dates).wf(),
        final(paths).wf(),
        final(names).wf(),
        models(final(dates), final(paths), final(names)) == encoded_url_parts::<U>(
            models(old(dates), old(paths), old(names)),
            parts@,
            min_threshold as nat,
            max_threshold as nat,
        ).0,
        url@ == encoded_url_parts::<U>(
            models(old(dates), old(paths), old(names)),
            parts@,
            min_threshold as nat,
            max_threshold as nat,
        ).1,
{
    let date = try_encode(parts.date.as_str(), dates, min_threshold);
    let path = match parts.path {
        Some(path) => Some(
            try_encode_vec_with(path, paths, PATH_SEP, min_threshold, max_threshold),
        ),
        None => None,
    };
    let name = try_encode_vec_with(parts.name, names, NAME_SEP, min_threshold, max_threshold);
    EncodedURL { date, path, name }
}

/// The sender's step for an address.
pub fn try_encode_url<U: UniCache>(
    s: String,
    base: &str,
    dates: &mut U,
    paths: &mut U,
    names: &mut U,
    min_threshold: usize,
    max_threshold: usize,
) -> (url: MaybeEncodedURL)
    requires
        old(dates).wf(),
        old(paths).wf(),
        old(names).wf(),
    ensures
        final(dates).wf(),
        final(paths).wf(),
        final(names).wf(),
        models(final(dates), final(paths), final(names)) == encoded_url::<U>(
            models(old(dates), old(paths), old(names)),
            s@,
            base@,
            min_threshold as nat,
            max_threshold as nat,
        ).0,
        url@ == encoded_url::<U>(
            models(old(dates), old(paths), old(names)),
            s@,
            base@,
            min_threshold as nat,
            max_threshold as nat,
        ).1,
{
    match split_url(s.as_str(), base) {
        Some(parts) => MaybeEncodedURL::Encoded(
            try_encode_url_parts(parts, dates, paths, names, min_threshold, max_threshold),
        ),
        None => MaybeEncodedURL::Decoded(s),
    }
}

/// The receiver's step for an address. Each index in it must name an entry
/// when its turn comes.
pub fn try_decode_url<U: UniCache>(
    x: MaybeEncodedURL,
    base: &str,
    dates: &mut U,
    paths: &mut U,
    names: &mut U,
    min_threshold: usize,
) -> (url: String)
    requires
        old(dates).wf(),
        old(paths).wf(),
        old(names).wf(),
        url_resolves::<U>(models(old(dates), old(paths), old(names)), x@, min_threshold as nat),
    ensures
        final(dates).wf(),
        final(paths).wf(),
        final(names).wf(),
        models(final(dates), final(paths), final(names)) == decoded_url::<U>(
            models(old(dates), old(paths), old(names)),
            x@,
            base@,
            min_threshold as nat,
        ).0,
        url@ == decoded_url::<U>(
            models(old(dates), old(paths), old(names)),
            x@,
            base@,
            min_threshold as nat,
        ).1,
{
    match x {
        MaybeEncodedURL::Decoded(whole) => whole,
        MaybeEncodedURL::Encoded(parts) => {
            let date = try_decode(parts.date, dates, min_threshold);
            let name = try_decode_vec(parts.name, names, NAME_SEP, min_threshold);
            let mut url = base.to_owned();
            url.append(date.as_str());
            if let Some(list) = parts.path {
                let path = try_decode_vec(list, paths, PATH_SEP, min_threshold);
                url.append(path.as_str());
                url.push(PATH_SEP);
            }
            url.append(name.as_str());
            url
        },
    }
}

} // verus!
