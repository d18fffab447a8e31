//! The coder for articles.
use crate::cache::unicache::{
    valid, CapacityError, Dictionary, OmniCache, ReplacementPolicy, UniCache,
};
use crate::coder::{
    all_resolve, decoded, decoded_all, encoded, encoded_all, lemma_encoded_valid,
    lemma_round_trip, lemma_round_trip_all, resolves, try_decode, try_decode_all, try_encode,
    try_encode_all,
};
use crate::medium::{
    Article, ArticleForm, CodedArticle, EncodedMediumRecord, MediumRecord, Record,
};
use crate::text::{join, joined, split_whitespace, words};
use vstd::prelude::*;

verus! {

/// The publication is eligible for the dictionary whatever its length.
pub const PUBLICATION_MIN_THRESHOLD: usize = 0;

/// A tag is eligible for the dictionary from two bytes on.
pub const TAG_MIN_THRESHOLD: usize = 2;

/// A word of the title or of the author is eligible whatever its length.
pub const WORD_MIN_THRESHOLD: usize = 0;

/// The sender's steps for an article: the publication, the four tags, the
/// words of the author, the words of the title, in this order.
pub open spec fn encoded_article<P: ReplacementPolicy>(d: Dictionary<P::Meta>, article: Article) -> (
    Dictionary<P::Meta>,
    CodedArticle,
) {
    let publication = encoded::<P>(d, article.post_publication, PUBLICATION_MIN_THRESHOLD as nat);
    let tag_1 = encoded::<P>(publication.0, article.post_tag_1, TAG_MIN_THRESHOLD as nat);
    let tag_2 = encoded::<P>(tag_1.0, article.post_tag_2, TAG_MIN_THRESHOLD as nat);
    let tag_3 = encoded::<P>(tag_2.0, article.post_tag_3, TAG_MIN_THRESHOLD as nat);
    let tag_4 = encoded::<P>(tag_3.0, article.post_tag_4, TAG_MIN_THRESHOLD as nat);
    let author = encoded_all::<P>(tag_4.0, words(article.post_author), WORD_MIN_THRESHOLD as nat);
    let name = encoded_all::<P>(author.0, words(article.post_name), WORD_MIN_THRESHOLD as nat);
    (
        name.0,
        CodedArticle {
            post_time: article.post_time,
            post_name: name.1,
            post_author: author.1,
            post_publication: publication.1,
            post_tag_1: tag_1.1,
            post_tag_2: tag_2.1,
            post_tag_3: tag_3.1,
            post_tag_4: tag_4.1,
        },
    )
}

/// The receiver's steps for an article, in the sender's order; the words of
/// the author and of the title are joined by single spaces.
pub open spec fn decoded_article<P: ReplacementPolicy>(
    d: Dictionary<P::Meta>,
    article: CodedArticle,
) -> (Dictionary<P::Meta>, Article) {
    let publication = decoded::<P>(d, article.post_publication, PUBLICATION_MIN_THRESHOLD as nat);
    let tag_1 = decoded::<P>(publication.0, article.post_tag_1, TAG_MIN_THRESHOLD as nat);
    let tag_2 = decoded::<P>(tag_1.0, article.post_tag_2, TAG_MIN_THRESHOLD as nat);
    let tag_3 = decoded::<P>(tag_2.0, article.post_tag_3, TAG_MIN_THRESHOLD as nat);
    let tag_4 = decoded::<P>(tag_3.0, article.post_tag_4, TAG_MIN_THRESHOLD as nat);
    let author = decoded_all::<P>(tag_4.0, article.post_author, WORD_MIN_THRESHOLD as nat);
    let name = decoded_all::<P>(author.0, article.post_name, WORD_MIN_THRESHOLD as nat);
    (
        name.0,
        Article {
            post_time: article.post_time,
            post_name: joined(name.1, ' '),
            post_author: joined(author.1, ' '),
            post_publication: publication.1,
            post_tag_1: tag_1.1,
            post_tag_2: tag_2.1,
            post_tag_3: tag_3.1,
            post_tag_4: tag_4.1,
        },
    )
}

/// Each index in the article names an entry when its turn comes.
pub open spec fn article_resolves<P: ReplacementPolicy>(
    d: Dictionary<P::Meta>,
    article: CodedArticle,
) -> bool {
    let publication = decoded::<P>(d, article.post_publication, PUBLICATION_MIN_THRESHOLD as nat);
    let tag_1 = decoded::<P>(publication.0, article.post_tag_1, TAG_MIN_THRESHOLD as nat);
    let tag_2 = decoded::<P>(tag_1.0, article.post_tag_2, TAG_MIN_THRESHOLD as nat);
    let tag_3 = decoded::<P>(tag_2.0, article.post_tag_3, TAG_MIN_THRESHOLD as nat);
    let tag_4 = decoded::<P>(tag_3.0, article.post_tag_4, TAG_MIN_THRESHOLD as nat);
    let author = decoded_all::<P>(tag_4.0, article.post_author, WORD_MIN_THRESHOLD as nat);
    &&& resolves(d.slots, article.post_publication)
    &&& resolves(publication.0.slots, article.post_tag_1)
    &&& resolves(tag_1.0.slots, article.post_tag_2)
    &&& resolves(tag_2.0.slots, article.post_tag_3)
    &&& resolves(tag_3.0.slots, article.post_tag_4)
    &&& all_resolve::<P>(tag_4.0, article.post_author, WORD_MIN_THRESHOLD as nat)
    &&& all_resolve::<P>(author.0, article.post_name, WORD_MIN_THRESHOLD as nat)
}

/// The words of `text`, joined by single spaces, give `text`: it neither
/// begins nor ends with white space, and between two words stands one space.
pub open spec fn single_spaced(text: Seq<char>) -> bool {
    joined(words(text), ' ') == text
}

/// The article with the words of its title and of its author joined by
/// single spaces.
pub open spec fn spaced(article: Article) -> Article {
    Article {
        post_name: joined(words(article.post_name), ' '),
        post_author: joined(words(article.post_author), ' '),
        ..article
    }
}

/// Round trip and parity for an article: a receiver whose dictionary equals
/// the sender's can resolve what the sender made of the article, and its
/// dictionary again equals the sender's. It gets the article back with its
/// title and author single spaced; so it gets the article itself exactly
/// where the two are single spaced already.
pub proof fn lemma_article_round_trip<P: ReplacementPolicy>(d: Dictionary<P::Meta>, article: Article)
    requires
        valid::<P>(d),
    ensures
        valid::<P>(encoded_article::<P>(d, article).0),
        article_resolves::<P>(d, encoded_article::<P>(d, article).1),
        decoded_article::<P>(d, encoded_article::<P>(d, article).1) == (
            encoded_article::<P>(d, article).0,
            spaced(article),
        ),
        spaced(article) == article <==> single_spaced(article.post_name) && single_spaced(
            article.post_author,
        ),
{
    let publication = encoded::<P>(d, article.post_publication, PUBLICATION_MIN_THRESHOLD as nat);
    lemma_round_trip::<P>(d, article.post_publication, PUBLICATION_MIN_THRESHOLD as nat);
    lemma_encoded_valid::<P>(d, article.post_publication, PUBLICATION_MIN_THRESHOLD as nat);
    let tag_1 = encoded::<P>(publication.0, article.post_tag_1, TAG_MIN_THRESHOLD as nat);
    lemma_round_trip::<P>(publication.0, article.post_tag_1, TAG_MIN_THRESHOLD as nat);
    lemma_encoded_valid::<P>(publication.0, article.post_tag_1, TAG_MIN_THRESHOLD as nat);
    let tag_2 = encoded::<P>(tag_1.0, article.post_tag_2, TAG_MIN_THRESHOLD as nat);
    lemma_round_trip::<P>(tag_1.0, article.post_tag_2, TAG_MIN_THRESHOLD as nat);
    lemma_encoded_valid::<P>(tag_1.0, article.post_tag_2, TAG_MIN_THRESHOLD as nat);
    let tag_3 = encoded::<P>(tag_2.0, article.post_tag_3, TAG_MIN_THRESHOLD as nat);
    lemma_round_trip::<P>(tag_2.0, article.post_tag_3, TAG_MIN_THRESHOLD as nat);
    lemma_encoded_valid::<P>(tag_2.0, article.post_tag_3, TAG_MIN_THRESHOLD as nat);
    let tag_4 = encoded::<P>(tag_3.0, article.post_tag_4, TAG_MIN_THRESHOLD as nat);
    lemma_round_trip::<P>(tag_3.0, article.post_tag_4, TAG_MIN_THRESHOLD as nat);
    lemma_encoded_valid::<P>(tag_3.0, article.post_tag_4, TAG_MIN_THRESHOLD as nat);
    let author = encoded_all::<P>(tag_4.0, words(article.post_author), WORD_MIN_THRESHOLD as nat);
    lemma_round_trip_all::<P>(tag_4.0, words(article.post_author), WORD_MIN_THRESHOLD as nat);
    lemma_round_trip_all::<P>(author.0, words(article.post_name), WORD_MIN_THRESHOLD as nat);
}

/// Encodes the article in place against the sender's dictionary. The record
/// must hold an article as it is read.
pub fn encode<U: UniCache>(record: &mut Record, cache: &mut U)
    requires
        old(cache).wf(),
        *old(record) is Decoded,
    ensures
        final(cache).wf(),
        final(cache).model() == encoded_article::<U>(
            old(cache).model(),
            old(record)@->Decoded_0,
        ).0,
        final(record)@ == ArticleForm::Encoded(
            encoded_article::<U>(old(cache).model(), old(record)@->Decoded_0).1,
        ),
{
    let mut held = Record::Empty;
    std::mem::swap(record, &mut held);
    match held {
        Record::Decoded(me) => {
            let post_publication = try_encode(
                me.post_publication.as_str(),
                cache,
                PUBLICATION_MIN_THRESHOLD,
            );
            let post_tag_1 = try_encode(me.post_tag_1.as_str(), cache, TAG_MIN_THRESHOLD);
            let post_tag_2 = try_encode(me.post_tag_2.as_str(), cache, TAG_MIN_THRESHOLD);
            let post_tag_3 = try_encode(me.post_tag_3.as_str(), cache, TAG_MIN_THRESHOLD);
            let post_tag_4 = try_encode(me.post_tag_4.as_str(), cache, TAG_MIN_THRESHOLD);
            let author_words = split_whitespace(me.post_author.as_str());
            let post_author = try_encode_all(&author_words, cache, WORD_MIN_THRESHOLD);
            let name_words = split_whitespace(me.post_name.as_str());
            let post_name = try_encode_all(&name_words, cache, WORD_MIN_THRESHOLD);
            *record = Record::Encoded(
                EncodedMediumRecord {
                    post_time: me.post_time,
                    post_name,
                    post_author,
                    post_publication,
                    post_tag_1,
                    post_tag_2,
                    post_tag_3,
                    post_tag_4,
                },
            );
        },
        _ => unreached(),
    }
}

/// Decodes the article in place against the receiver's dictionary. The
/// record must hold an article as it travels, and each index in it must
/// name an entry when its turn comes.
pub fn decode<U: UniCache>(record: &mut Record, cache: &mut U)
    requires
        old(cache).wf(),
        *old(record) is Encoded,
        article_resolves::<U>(old(cache).model(), old(record)@->Encoded_0),
    ensures
        final(cache).wf(),
        final(cache).model() == decoded_article::<U>(
            old(cache).model(),
            old(record)@->Encoded_0,
        ).0,
        final(record)@ == ArticleForm::Decoded(
            decoded_article::<U>(old(cache).model(), old(record)@->Encoded_0).1,
        ),
{
    let mut held = Record::Empty;
    std::mem::swap(record, &mut held);
    match held {
        Record::Encoded(e) => {
            let post_publication = try_decode(e.post_publication, cache, PUBLICATION_MIN_THRESHOLD);
            let post_tag_1 = try_decode(e.post_tag_1, cache, TAG_MIN_THRESHOLD);
            let post_tag_2 = try_decode(e.post_tag_2, cache, TAG_MIN_THRESHOLD);
            let post_tag_3 = try_decode(e.post_tag_3, cache, TAG_MIN_THRESHOLD);
            let post_tag_4 = try_decode(e.post_tag_4, cache, TAG_MIN_THRESHOLD);
            let author_words = try_decode_all(e.post_author, cache, WORD_MIN_THRESHOLD);
            let post_author = join(&author_words, ' ');
            let name_words = try_decode_all(e.post_name, cache, WORD_MIN_THRESHOLD);
            let post_name = join(&name_words, ' ');
            *record = Record::Decoded(
                MediumRecord {
                    post_time: e.post_time,
                    post_name,
                    post_author,
                    post_publication,
                    post_tag_1,
                    post_tag_2,
                    post_tag_3,
                    post_tag_4,
                },
            );
        },
        _ => unreached(),
    }
}

/// The coder for articles: one dictionary, which every field goes through.
pub struct MediumUniCache<U: UniCache> {
    cache: U,
}

impl<U: UniCache> OmniCache<Record, U> for MediumUniCache<U> {
    closed spec fn wf(&self) -> bool {
        self.cache.wf()
    }

    closed spec fn dictionaries(&self) -> Seq<Dictionary<U::Meta>> {
        seq![self.cache.model()]
    }

    open spec fn sound(dictionaries: Seq<Dictionary<U::Meta>>) -> bool {
        dictionaries.len() == 1 && valid::<U>(dictionaries[0])
    }

    open spec fn encodable(data: ArticleForm) -> bool {
        data is Decoded
    }

    open spec fn decodable(dictionaries: Seq<Dictionary<U::Meta>>, data: ArticleForm) -> bool {
        data is Encoded && article_resolves::<U>(dictionaries[0], data->Encoded_0)
    }

    open spec fn encoded(dictionaries: Seq<Dictionary<U::Meta>>, data: ArticleForm) -> (
        Seq<Dictionary<U::Meta>>,
        ArticleForm,
    ) {
        let made = encoded_article::<U>(dictionaries[0], data->Decoded_0);
        (seq![made.0], ArticleForm::Encoded(made.1))
    }

    open spec fn decoded(dictionaries: Seq<Dictionary<U::Meta>>, data: ArticleForm) -> (
        Seq<Dictionary<U::Meta>>,
        Option<ArticleForm>,
    ) {
        let made = decoded_article::<U>(dictionaries[0], data->Encoded_0);
        (seq![made.0], Some(ArticleForm::Decoded(made.1)))
    }

    proof fn lemma_wf(&self) {
        self.cache.lemma_wf();
    }

    proof fn lemma_parity(dictionaries: Seq<Dictionary<U::Meta>>, data: ArticleForm) {
        lemma_article_round_trip::<U>(dictionaries[0], data->Decoded_0);
    }

    fn new(capacity: usize) -> (made: Result<Self, CapacityError>) {
        match U::new(capacity) {
            Ok(cache) => Ok(MediumUniCache { cache }),
            Err(error) => Err(error),
        }
    }

    fn encode(&mut self, data: &mut Record) {
        encode(data, &mut self.cache);
    }

    fn decode(&mut self, data: &mut Record) -> (done: bool) {
        decode(data, &mut self.cache);
        true
    }
}

} // verus!
