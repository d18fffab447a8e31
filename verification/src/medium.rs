//! Records of articles: a publication, four tags, an author and a title,
//! each a field of its own for the dictionary.
use crate::text::{byte_len, utf8_len};
use crate::util::{coded_sizes, coded_size, coded_views, size_of_all, Coded};
use vstd::prelude::*;

pub use crate::util::MaybeEncoded;

pub mod preprocess;

verus! {

/// An article as it is read.
#[derive(Clone, Debug, PartialEq, Eq)]
pub struct MediumRecord {
    pub post_time: String,
    pub post_name: String,
    pub post_author: String,
    pub post_publication: String,
    pub post_tag_1: String,
    pub post_tag_2: String,
    pub post_tag_3: String,
    pub post_tag_4: String,
}

/// An article as it travels. The time is carried as it is; the title and
/// the author travel word by word.
#[derive(Clone, Debug, PartialEq, Eq)]
pub struct EncodedMediumRecord {
    pub post_time: String,
    pub post_name: Vec<MaybeEncoded>,
    pub post_author: Vec<MaybeEncoded>,
    pub post_publication: MaybeEncoded,
    pub post_tag_1: MaybeEncoded,
    pub post_tag_2: MaybeEncoded,
    pub post_tag_3: MaybeEncoded,
    pub post_tag_4: MaybeEncoded,
}

/// An article in one of its two forms. `Empty` stands in while a coder
/// holds the content.
#[derive(Clone, Debug, PartialEq, Eq)]
pub enum Record {
    Decoded(MediumRecord),
    Encoded(EncodedMediumRecord),
    Empty,
}

/// A `MediumRecord` as a mathematical value.
pub struct Article {
    pub post_time: Seq<char>,
    pub post_name: Seq<char>,
    pub post_author: Seq<char>,
    pub post_publication: Seq<char>,
    pub post_tag_1: Seq<char>,
    pub post_tag_2: Seq<char>,
    pub post_tag_3: Seq<char>,
    pub post_tag_4: Seq<char>,
}

/// An `EncodedMediumRecord` as a mathematical value.
pub struct CodedArticle {
    pub post_time: Seq<char>,
    pub post_name: Seq<Coded>,
    pub post_author: Seq<Coded>,
    pub post_publication: Coded,
    pub post_tag_1: Coded,
    pub post_tag_2: Coded,
    pub post_tag_3: Coded,
    pub post_tag_4: Coded,
}

/// A `Record` as a mathematical value.
pub enum ArticleForm {
    Decoded(Article),
    Encoded(CodedArticle),
    Empty,
}

impl View for MediumRecord {
    type V = Article;

    open spec fn view(&self) -> Article {
        Article {
            post_time: self.post_time@,
            post_name: self.post_name@,
            post_author: self.post_author@,
            post_publication: self.post_publication@,
            post_tag_1: self.post_tag_1@,
            post_tag_2: self.post_tag_2@,
            post_tag_3: self.post_tag_3@,
            post_tag_4: self.post_tag_4@,
        }
    }
}

impl View for EncodedMediumRecord {
    type V = CodedArticle;

    open spec fn view(&self) -> CodedArticle {
        CodedArticle {
            post_time: self.post_time@,
            post_name: coded_views(self.post_name@),
            post_author: coded_views(self.post_author@),
            post_publication: self.post_publication@,
            post_tag_1: self.post_tag_1@,
            post_tag_2: self.post_tag_2@,
            post_tag_3: self.post_tag_3@,
            post_tag_4: self.post_tag_4@,
        }
    }
}

impl View for Record {
    type V = ArticleForm;

    open spec fn view(&self) -> ArticleForm {
        match self {
            Record::Decoded(article) => ArticleForm::Decoded(article@),
            Record::Encoded(article) => ArticleForm::Encoded(article@),
            Record::Empty => ArticleForm::Empty,
        }
    }
}

/// The bytes that an article takes as it is read.
pub open spec fn article_size(article: Article) -> nat {
    utf8_len(article.post_time) + utf8_len(article.post_publication) + utf8_len(
        article.post_tag_1,
    ) + utf8_len(article.post_tag_2) + utf8_len(article.post_tag_3) + utf8_len(article.post_tag_4)
        + utf8_len(article.post_name) + utf8_len(article.post_author)
}

/// The bytes that an article takes as it travels.
pub open spec fn coded_article_size(article: CodedArticle) -> nat {
    utf8_len(article.post_time) + coded_size(article.post_publication) + coded_size(
        article.post_tag_1,
    ) + coded_size(article.post_tag_2) + coded_size(article.post_tag_3) + coded_size(
        article.post_tag_4,
    ) + coded_sizes(article.post_name) + coded_sizes(article.post_author)
}

/// The bytes that a record takes; the placeholder takes none.
pub open spec fn form_size(form: ArticleForm) -> nat {
    match form {
        ArticleForm::Decoded(article) => article_size(article),
        ArticleForm::Encoded(article) => coded_article_size(article),
        ArticleForm::Empty => 0,
    }
}

impl Record {
    /// The bytes that the record takes, which must not exceed what a
    /// `usize` holds.
    pub fn get_size(&self) -> (size: usize)
        requires
            form_size(self@) <= usize::MAX,
        ensures
            size == form_size(self@),
    {
        match self {
            Record::Encoded(e) => {
                let mut size: usize = byte_len(e.post_time.as_str());
                size = size + e.post_publication.get_size();
                size = size + e.post_tag_1.get_size();
                size = size + e.post_tag_2.get_size();
                size = size + e.post_tag_3.get_size();
                size = size + e.post_tag_4.get_size();
                size = size + size_of_all(&e.post_name);
                size = size + size_of_all(&e.post_author);
                size
            },
            Record::Decoded(d) => {
                let mut size: usize = byte_len(d.post_time.as_str());
                size = size + byte_len(d.post_publication.as_str());
                size = size + byte_len(d.post_tag_1.as_str());
                size = size + byte_len(d.post_tag_2.as_str());
                size = size + byte_len(d.post_tag_3.as_str());
                size = size + byte_len(d.post_tag_4.as_str());
                size = size + byte_len(d.post_name.as_str());
                size = size + byte_len(d.post_author.as_str());
                size
            },
            Record::Empty => 0,
        }
    }
}

} // verus!
