use unicache::cache::lfu_cache::LfuUniCache;
use unicache::cache::lru_cache::LruUniCache;
use unicache::cache::unicache::UniCache;
use unicache::text::strip_prefix;
use unicache::url::{
    split_rest_at, split_url, try_decode_url, try_encode_url, try_encode_url_parts, EncodedURL,
    MaybeEncodedURL, UrlParts, NAME_SEP, PATH_SEP,
};
use unicache::util::{MaybeEncoded, MaybeProcessed};

const BASE: &str = "https://www.nytimes.com/";

fn literal(value: &str) -> MaybeEncoded {
    MaybeEncoded::Decoded(value.to_string())
}

fn parts(date: &str, path: Option<&str>, name: &str) -> UrlParts {
    UrlParts {
        date: date.to_string(),
        path: path.map(|path| path.to_string()),
        name: name.to_string(),
    }
}

#[test]
fn address_constants() {
    assert_eq!(PATH_SEP, '/');
    assert_eq!(NAME_SEP, '-');
}

#[test]
fn strip_prefix_agrees_with_std() {
    let cases = [
        ("https://www.nytimes.com/2019", BASE),
        ("https://www.nytimes.com/", BASE),
        ("https://www.nytimes.co", BASE),
        ("http://www.nytimes.com/2019", BASE),
        ("", BASE),
        ("abc", ""),
        ("", ""),
        ("éa", "é"),
        ("ea", "é"),
    ];
    for (text, prefix) in cases {
        let expected = text.strip_prefix(prefix).map(|rest| rest.to_string());
        assert_eq!(strip_prefix(text, prefix), expected);
    }
}

#[test]
fn dated_address_is_taken_apart() {
    let url = "https://www.nytimes.com/2019/12/31/us/texas-church-shooting-white-settlement.html";
    let expected = parts("2019/12/31/", Some("us"), "texas-church-shooting-white-settlement.html");
    assert_eq!(split_url(url, BASE), Some(expected));
}

#[test]
fn path_may_be_long_or_missing() {
    let url = "https://www.nytimes.com/2020/01/02/world/europe/some-name.html";
    assert_eq!(
        split_url(url, BASE),
        Some(parts("2020/01/02/", Some("world/europe"), "some-name.html"))
    );
    let url = "https://www.nytimes.com/2020/01/02/some-name.html";
    assert_eq!(split_url(url, BASE), Some(parts("2020/01/02/", None, "some-name.html")));
    let url = "https://www.nytimes.com/2020/01/02/";
    assert_eq!(split_url(url, BASE), Some(parts("2020/01/02/", None, "")));
    let url = "https://www.nytimes.com/2020/01/02/us/";
    assert_eq!(split_url(url, BASE), Some(parts("2020/01/02/", Some("us"), "")));
    let url = "https://www.nytimes.com/2020/01/02//x";
    assert_eq!(split_url(url, BASE), Some(parts("2020/01/02/", Some(""), "x")));
}

#[test]
fn address_without_base_or_date_is_left_whole() {
    assert_eq!(split_url("https://example.com/2019/12/31/us/name.html", BASE), None);
    assert_eq!(split_url("https://www.nytimes.com/interactive/2019/name.html", BASE), None);
    assert_eq!(split_url("https://www.nytimes.com/2019/12/3/us/name.html", BASE), None);
    assert_eq!(split_url("https://www.nytimes.com/", BASE), None);
    assert_eq!(split_url("", BASE), None);
}

#[test]
fn rest_is_split_where_the_date_ends() {
    assert_eq!(split_rest_at("2019/12/31/us/a-b", 11), Some(parts("2019/12/31/", Some("us"), "a-b")));
    assert_eq!(split_rest_at("2019/12/31/us/a-b", 0), None);
    assert_eq!(split_rest_at("2019/12/31/us/a-b", 18), None);
    assert_eq!(split_rest_at("2019/12/31/us/a-b", 17), Some(parts("2019/12/31/us/a-b", None, "")));
    assert_eq!(split_rest_at("é/x", 1), None);
    assert_eq!(split_rest_at("é/x", 3), Some(parts("é/", None, "x")));
}

#[test]
fn parts_go_through_their_dictionaries() {
    let mut dates = LruUniCache::new(8).unwrap();
    let mut paths = LruUniCache::new(8).unwrap();
    let mut names = LruUniCache::new(8).unwrap();
    let given = parts("2019/12/31/", Some("us"), "texas-church-shooting-white-settlement.html");
    let made = try_encode_url_parts(given, &mut dates, &mut paths, &mut names, 3, 40);
    let expected = EncodedURL {
        date: literal("2019/12/31/"),
        path: Some(MaybeProcessed::Processed(vec![literal("us")])),
        name: MaybeProcessed::NotProcessed("texas-church-shooting-white-settlement.html".to_string()),
    };
    assert_eq!(made, expected);
    assert_eq!(dates.len(), 1);
    assert_eq!(paths.len(), 0);
    assert_eq!(names.len(), 0);
    let given = parts("2019/12/31/", Some("world/europe"), "texas-church-shooting.html");
    let made = try_encode_url_parts(given, &mut dates, &mut paths, &mut names, 3, 40);
    let expected = EncodedURL {
        date: MaybeEncoded::Encoded(0),
        path: Some(MaybeProcessed::Processed(vec![literal("world"), literal("europe")])),
        name: MaybeProcessed::Processed(vec![
            literal("texas"),
            literal("church"),
            literal("shooting.html"),
        ]),
    };
    assert_eq!(made, expected);
    assert_eq!(paths.len(), 2);
    assert_eq!(names.len(), 3);
}

#[test]
fn second_address_of_a_day_sends_the_date_as_index() {
    let mut dates = LruUniCache::new(8).unwrap();
    let mut paths = LruUniCache::new(8).unwrap();
    let mut names = LruUniCache::new(8).unwrap();
    let first = "https://www.nytimes.com/2019/12/31/us/texas-church-shooting.html";
    let second = "https://www.nytimes.com/2019/12/31/world/new-year-church-bells.html";
    let made = try_encode_url(first.to_string(), BASE, &mut dates, &mut paths, &mut names, 3, 700);
    match made {
        MaybeEncodedURL::Encoded(url) => assert_eq!(url.date, literal("2019/12/31/")),
        MaybeEncodedURL::Decoded(_) => panic!("the address was not taken apart"),
    }
    let made = try_encode_url(second.to_string(), BASE, &mut dates, &mut paths, &mut names, 3, 700);
    let expected = MaybeEncodedURL::Encoded(EncodedURL {
        date: MaybeEncoded::Encoded(0),
        path: Some(MaybeProcessed::Processed(vec![literal("world")])),
        name: MaybeProcessed::Processed(vec![
            literal("new"),
            literal("year"),
            MaybeEncoded::Encoded(1),
            literal("bells.html"),
        ]),
    });
    assert_eq!(made, expected);
}

#[test]
fn foreign_address_travels_whole() {
    let mut dates = LfuUniCache::new(8).unwrap();
    let mut paths = LfuUniCache::new(8).unwrap();
    let mut names = LfuUniCache::new(8).unwrap();
    let url = "https://example.com/2019/12/31/us/name.html";
    let made = try_encode_url(url.to_string(), BASE, &mut dates, &mut paths, &mut names, 3, 40);
    assert_eq!(made, MaybeEncodedURL::Decoded(url.to_string()));
    assert_eq!(dates.len() + paths.len() + names.len(), 0);
    assert_eq!(try_decode_url(made, BASE, &mut dates, &mut paths, &mut names, 3), url);
    assert_eq!(dates.len() + paths.len() + names.len(), 0);
}

#[test]
fn addresses_come_back_as_they_went() {
    let mut sender = [
        LruUniCache::new(4).unwrap(),
        LruUniCache::new(4).unwrap(),
        LruUniCache::new(4).unwrap(),
    ];
    let mut receiver = [
        LruUniCache::new(4).unwrap(),
        LruUniCache::new(4).unwrap(),
        LruUniCache::new(4).unwrap(),
    ];
    let urls = [
        "https://www.nytimes.com/2019/12/31/us/texas-church-shooting-white-settlement.html",
        "https://www.nytimes.com/2019/12/31/us/politics/texas-vote.html",
        "https://www.nytimes.com/2019/12/30/us/",
        "https://www.nytimes.com/2019/12/30/--a--b-/c",
        "https://www.nytimes.com/2019/12/30/",
        "https://www.nytimes.com/2019/12/31/opinion/a-very-long-name-for-an-article-that-goes-on.html",
        "https://www.nytimes.com/video/2019/name.html",
        "https://www.nytimes.com/2019/12/31/us//politics///texas-vote.html",
        "https://www.nytimes.com/2019/12/31/é/ü-ö-texas.html",
        "",
    ];
    for round in 0..40usize {
        let url = urls[(round * 3 + round / 4) % urls.len()];
        let [dates, paths, names] = &mut sender;
        let made = try_encode_url(url.to_string(), BASE, dates, paths, names, 3, 40);
        let [dates, paths, names] = &mut receiver;
        assert_eq!(try_decode_url(made, BASE, dates, paths, names, 3), url);
        for which in 0..3 {
            assert_eq!(sender[which].len(), receiver[which].len());
            for index in 0..sender[which].len() {
                let held = sender[which].get_with_encoded_index(index as u8);
                assert_eq!(receiver[which].get_with_encoded_index(index as u8), held);
            }
        }
    }
}

#[test]
fn name_is_taken_apart_word_by_word_under_a_wide_ceiling() {
    let mut dates = LruUniCache::new(8).unwrap();
    let mut paths = LruUniCache::new(8).unwrap();
    let mut names = LruUniCache::new(8).unwrap();
    let url = "https://www.nytimes.com/2019/12/31/us/texas-church-shooting-white-settlement.html";
    let made = try_encode_url(url.to_string(), BASE, &mut dates, &mut paths, &mut names, 3, 700);
    let expected = MaybeEncodedURL::Encoded(EncodedURL {
        date: literal("2019/12/31/"),
        path: Some(MaybeProcessed::Processed(vec![literal("us")])),
        name: MaybeProcessed::Processed(vec![
            literal("texas"),
            literal("church"),
            literal("shooting"),
            literal("white"),
            literal("settlement.html"),
        ]),
    });
    assert_eq!(made, expected);
    assert_eq!(dates.get_encoded_index("2019/12/31/"), Some(0));
    assert_eq!(paths.len(), 0);
    assert_eq!(names.len(), 5);
    let mut receiver = [
        LruUniCache::new(8).unwrap(),
        LruUniCache::new(8).unwrap(),
        LruUniCache::new(8).unwrap(),
    ];
    let [dates, paths, names] = &mut receiver;
    assert_eq!(try_decode_url(made, BASE, dates, paths, names, 3), url);
}
