use unicache::cache::lfu_cache::LfuUniCache;
use unicache::cache::lru_cache::LruUniCache;
use unicache::cache::unicache::UniCache;
use unicache::medium::preprocess::{
    decode, encode, PUBLICATION_MIN_THRESHOLD, TAG_MIN_THRESHOLD, WORD_MIN_THRESHOLD,
};
use unicache::medium::{EncodedMediumRecord, MaybeEncoded, MediumRecord, Record};

fn article(time: &str, name: &str, author: &str, publication: &str, tags: [&str; 4]) -> MediumRecord {
    MediumRecord {
        post_time: time.to_string(),
        post_name: name.to_string(),
        post_author: author.to_string(),
        post_publication: publication.to_string(),
        post_tag_1: tags[0].to_string(),
        post_tag_2: tags[1].to_string(),
        post_tag_3: tags[2].to_string(),
        post_tag_4: tags[3].to_string(),
    }
}

fn literal(value: &str) -> MaybeEncoded {
    MaybeEncoded::Decoded(value.to_string())
}

fn first_article() -> MediumRecord {
    article(
        "2019-05-01 10:00:00",
        "Learning Rust the Hard Way",
        "Ada Lovelace",
        "Towards Data Science",
        ["Rust", "Programming", "x", ""],
    )
}

fn second_article() -> MediumRecord {
    article(
        "2019-05-02 11:30:00",
        "Learning Go the Easy Way",
        "Ada Byron",
        "Towards Data Science",
        ["Go", "Programming", "x", "Rust"],
    )
}

#[test]
fn test_medium() {
    let e = MaybeEncoded::Encoded(5);
    let de = MaybeEncoded::Decoded("Welcome".to_string());
    println!("e: {}, de: {}", e.get_size(), de.get_size());
    assert!(de.get_size() > e.get_size())
}

#[test]
fn field_sizes() {
    assert_eq!(MaybeEncoded::Encoded(0).get_size(), 1);
    assert_eq!(MaybeEncoded::Encoded(255).get_size(), 1);
    assert_eq!(literal("Welcome").get_size(), 7);
    assert_eq!(literal("").get_size(), 0);
    assert_eq!(literal("日本").get_size(), 6);
}

#[test]
fn thresholds_of_the_article_fields() {
    assert_eq!(PUBLICATION_MIN_THRESHOLD, 0);
    assert_eq!(TAG_MIN_THRESHOLD, 2);
    assert_eq!(WORD_MIN_THRESHOLD, 0);
}

#[test]
fn record_sizes() {
    let decoded = Record::Decoded(first_article());
    assert_eq!(decoded.get_size(), 19 + 26 + 12 + 20 + 4 + 11 + 1 + 0);
    let encoded = Record::Encoded(EncodedMediumRecord {
        post_time: "2019-05-01 10:00:00".to_string(),
        post_name: vec![MaybeEncoded::Encoded(3), literal("Go"), MaybeEncoded::Encoded(4)],
        post_author: vec![literal("Ada"), literal("Byron")],
        post_publication: MaybeEncoded::Encoded(0),
        post_tag_1: literal("Go"),
        post_tag_2: MaybeEncoded::Encoded(2),
        post_tag_3: literal("x"),
        post_tag_4: literal(""),
    });
    assert_eq!(encoded.get_size(), 19 + (1 + 2 + 1) + (3 + 5) + 1 + 2 + 1 + 1 + 0);
    assert_eq!(Record::Empty.get_size(), 0);
}

#[test]
fn first_article_travels_as_literals_but_for_a_repeated_word() {
    let mut cache = LruUniCache::new(64).unwrap();
    let mut record = Record::Decoded(first_article());
    encode(&mut record, &mut cache);
    let expected = Record::Encoded(EncodedMediumRecord {
        post_time: "2019-05-01 10:00:00".to_string(),
        post_name: vec![
            literal("Learning"),
            MaybeEncoded::Encoded(1),
            literal("the"),
            literal("Hard"),
            literal("Way"),
        ],
        post_author: vec![literal("Ada"), literal("Lovelace")],
        post_publication: literal("Towards Data Science"),
        post_tag_1: literal("Rust"),
        post_tag_2: literal("Programming"),
        post_tag_3: literal("x"),
        post_tag_4: literal(""),
    });
    assert_eq!(record, expected);
    assert_eq!(cache.len(), 9);
    assert_eq!(cache.get_encoded_index("Towards Data Science"), Some(0));
    assert_eq!(cache.get_encoded_index("Rust"), Some(1));
    assert_eq!(cache.get_encoded_index("Programming"), Some(2));
    assert_eq!(cache.get_encoded_index("Ada"), Some(3));
    assert_eq!(cache.get_encoded_index("Lovelace"), Some(4));
    assert_eq!(cache.get_encoded_index("Learning"), Some(5));
    assert_eq!(cache.get_encoded_index("the"), Some(6));
    assert_eq!(cache.get_encoded_index("Hard"), Some(7));
    assert_eq!(cache.get_encoded_index("Way"), Some(8));
    assert_eq!(cache.get_encoded_index("x"), None);
    assert_eq!(cache.get_encoded_index(""), None);
}

#[test]
fn second_article_travels_as_indices_where_it_repeats() {
    let mut cache = LruUniCache::new(64).unwrap();
    let mut record = Record::Decoded(first_article());
    encode(&mut record, &mut cache);
    let mut record = Record::Decoded(second_article());
    encode(&mut record, &mut cache);
    let expected = Record::Encoded(EncodedMediumRecord {
        post_time: "2019-05-02 11:30:00".to_string(),
        post_name: vec![
            MaybeEncoded::Encoded(5),
            MaybeEncoded::Encoded(9),
            MaybeEncoded::Encoded(6),
            literal("Easy"),
            MaybeEncoded::Encoded(8),
        ],
        post_author: vec![MaybeEncoded::Encoded(3), literal("Byron")],
        post_publication: MaybeEncoded::Encoded(0),
        post_tag_1: literal("Go"),
        post_tag_2: MaybeEncoded::Encoded(2),
        post_tag_3: literal("x"),
        post_tag_4: MaybeEncoded::Encoded(1),
    });
    assert_eq!(record, expected);
    assert_eq!(cache.len(), 12);
}

#[test]
fn articles_come_back_as_they_went() {
    let mut sender = LruUniCache::new(64).unwrap();
    let mut receiver = LruUniCache::new(64).unwrap();
    for sent in [first_article(), second_article(), first_article(), second_article()] {
        let mut record = Record::Decoded(sent.clone());
        encode(&mut record, &mut sender);
        assert!(matches!(record, Record::Encoded(_)));
        decode(&mut record, &mut receiver);
        assert_eq!(record, Record::Decoded(sent));
        assert_eq!(sender.len(), receiver.len());
    }
}

#[test]
fn articles_come_back_under_eviction() {
    let mut lru_sender = LruUniCache::new(3).unwrap();
    let mut lru_receiver = LruUniCache::new(3).unwrap();
    let mut lfu_sender = LfuUniCache::new(3).unwrap();
    let mut lfu_receiver = LfuUniCache::new(3).unwrap();
    for round in 0..50usize {
        let sent = article(
            &format!("2020-01-{:02}", round % 28 + 1),
            &format!("Title number {} of series {}", round, round % 3),
            &format!("Author{} Surname{}", round % 4, round % 5),
            &format!("Publication {}", round % 2),
            [&format!("tag{}", round % 3), "a", "", &format!("t{}", round % 6)],
        );
        let mut record = Record::Decoded(sent.clone());
        encode(&mut record, &mut lru_sender);
        decode(&mut record, &mut lru_receiver);
        assert_eq!(record, Record::Decoded(sent.clone()));
        let mut record = Record::Decoded(sent.clone());
        encode(&mut record, &mut lfu_sender);
        decode(&mut record, &mut lfu_receiver);
        assert_eq!(record, Record::Decoded(sent));
        assert_eq!(lru_sender.len(), 3);
        assert_eq!(lfu_sender.len(), 3);
        for index in 0..3u8 {
            let held = lru_sender.get_with_encoded_index(index);
            assert_eq!(lru_receiver.get_with_encoded_index(index), held);
            let held = lfu_sender.get_with_encoded_index(index);
            assert_eq!(lfu_receiver.get_with_encoded_index(index), held);
        }
    }
}

#[test]
fn article_of_empty_fields() {
    let mut sender = LfuUniCache::new(1).unwrap();
    let mut receiver = LfuUniCache::new(1).unwrap();
    let sent = article("", "", "", "", ["", "", "", ""]);
    let mut record = Record::Decoded(sent.clone());
    encode(&mut record, &mut sender);
    let expected = Record::Encoded(EncodedMediumRecord {
        post_time: String::new(),
        post_name: Vec::new(),
        post_author: Vec::new(),
        post_publication: literal(""),
        post_tag_1: literal(""),
        post_tag_2: literal(""),
        post_tag_3: literal(""),
        post_tag_4: literal(""),
    });
    assert_eq!(record, expected);
    assert_eq!(sender.len(), 1);
    decode(&mut record, &mut receiver);
    assert_eq!(record, Record::Decoded(sent.clone()));
    let mut record = Record::Decoded(sent.clone());
    encode(&mut record, &mut sender);
    match &record {
        Record::Encoded(encoded) => assert_eq!(encoded.post_publication, MaybeEncoded::Encoded(0)),
        _ => panic!("the record was not encoded"),
    }
    decode(&mut record, &mut receiver);
    assert_eq!(record, Record::Decoded(sent));
}

#[test]
fn one_letter_tags_are_never_admitted() {
    let mut cache = LruUniCache::new(8).unwrap();
    for _ in 0..3 {
        let mut record = Record::Decoded(article("t", "", "", "p", ["a", "b", "ab", "a"]));
        encode(&mut record, &mut cache);
        match record {
            Record::Encoded(encoded) => {
                assert_eq!(encoded.post_tag_1, literal("a"));
                assert_eq!(encoded.post_tag_2, literal("b"));
                assert_eq!(encoded.post_tag_4, literal("a"));
            }
            _ => panic!("the record was not encoded"),
        }
        assert_eq!(cache.len(), 2);
    }
    assert_eq!(cache.get_encoded_index("ab"), Some(1));
}

#[test]
fn words_come_back_single_spaced() {
    let mut sender = LruUniCache::new(8).unwrap();
    let mut receiver = LruUniCache::new(8).unwrap();
    let mut record = Record::Decoded(article("t", " Two  spaces\there ", "A  B", "p", ["", "", "", ""]));
    encode(&mut record, &mut sender);
    decode(&mut record, &mut receiver);
    assert_eq!(record, Record::Decoded(article("t", "Two spaces here", "A B", "p", ["", "", "", ""])));
    assert_eq!(sender.len(), receiver.len());
}
