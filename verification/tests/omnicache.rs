use unicache::cache::lfu_cache::LfuUniCache;
use unicache::cache::lru_cache::LruUniCache;
use unicache::cache::unicache::{CapacityError, OmniCache};
use unicache::cache::CacheType;
use unicache::load::StoreCommand;
use unicache::medium::preprocess::MediumUniCache;
use unicache::medium::{MediumRecord, Record};
use unicache::preprocess::{Command, EncodedCommand, QueryUniCache};
use unicache::util::MaybeEncoded;

fn statement(id: usize, sql: &str) -> Command {
    Command::Decoded(StoreCommand { id, sql: sql.to_string() })
}

fn article(round: usize) -> MediumRecord {
    MediumRecord {
        post_time: format!("12:{:02}", round % 60),
        post_name: format!("Episode {} of the series", round % 4),
        post_author: "Grace Hopper".to_string(),
        post_publication: format!("Weekly {}", round % 2),
        post_tag_1: "code".to_string(),
        post_tag_2: format!("t{}", round % 3),
        post_tag_3: "c".to_string(),
        post_tag_4: String::new(),
    }
}

#[test]
fn cache_types_are_three() {
    assert_ne!(CacheType::LFU, CacheType::LRU);
    assert_ne!(CacheType::LRU, CacheType::LECAR);
    assert_ne!(CacheType::LFU, CacheType::LECAR);
}

#[test]
fn coders_refuse_a_capacity_out_of_range() {
    assert_eq!(QueryUniCache::<LruUniCache>::new(0).err(), Some(CapacityError::Zero));
    assert_eq!(QueryUniCache::<LfuUniCache>::new(256).err(), Some(CapacityError::TooLarge));
    assert_eq!(MediumUniCache::<LfuUniCache>::new(0).err(), Some(CapacityError::Zero));
    assert_eq!(MediumUniCache::<LruUniCache>::new(1000).err(), Some(CapacityError::TooLarge));
    assert!(QueryUniCache::<LruUniCache>::new(255).is_ok());
    assert!(MediumUniCache::<LfuUniCache>::new(1).is_ok());
}

#[test]
fn query_coder_round_trip() {
    let mut sender = QueryUniCache::<LruUniCache>::new(2).ok().unwrap();
    let mut receiver = QueryUniCache::<LruUniCache>::new(2).ok().unwrap();
    let mut command = statement(0, "SELECT * FROM t WHERE id = 1");
    sender.encode(&mut command);
    let expected = Command::Encoded(EncodedCommand {
        id: 0,
        template: MaybeEncoded::Decoded("SELECT * FROM t WHERE id =#".to_string()),
        parameters: vec![" 1".to_string()],
    });
    assert_eq!(command, expected);
    assert!(receiver.decode(&mut command));
    assert_eq!(command, statement(0, "SELECT * FROM t WHERE id = 1"));
    for round in 1..40usize {
        let sql = format!("SELECT * FROM t{} WHERE id = {}", round % 3, round);
        let mut command = statement(round, &sql);
        sender.encode(&mut command);
        assert!(receiver.decode(&mut command));
        assert_eq!(command, statement(round, &sql));
    }
}

#[test]
fn query_coder_reports_what_it_cannot_decode() {
    let mut sender = QueryUniCache::<LfuUniCache>::new(2).ok().unwrap();
    let mut receiver = QueryUniCache::<LfuUniCache>::new(2).ok().unwrap();
    let mut command = statement(1, "# 5");
    sender.encode(&mut command);
    let travelling = command.clone();
    assert!(!receiver.decode(&mut command));
    assert_eq!(command, travelling);
    let mut command = statement(2, "SELECT 5");
    sender.encode(&mut command);
    assert!(receiver.decode(&mut command));
    assert_eq!(command, statement(2, "SELECT 5"));
}

#[test]
fn medium_coder_round_trip() {
    let mut lru_sender = MediumUniCache::<LruUniCache>::new(5).ok().unwrap();
    let mut lru_receiver = MediumUniCache::<LruUniCache>::new(5).ok().unwrap();
    let mut lfu_sender = MediumUniCache::<LfuUniCache>::new(5).ok().unwrap();
    let mut lfu_receiver = MediumUniCache::<LfuUniCache>::new(5).ok().unwrap();
    for round in 0..60usize {
        let mut record = Record::Decoded(article(round));
        lru_sender.encode(&mut record);
        assert!(matches!(record, Record::Encoded(_)));
        assert!(lru_receiver.decode(&mut record));
        assert_eq!(record, Record::Decoded(article(round)));
        let mut record = Record::Decoded(article(round));
        lfu_sender.encode(&mut record);
        assert!(lfu_receiver.decode(&mut record));
        assert_eq!(record, Record::Decoded(article(round)));
    }
}

#[test]
fn long_stream_keeps_sender_and_receiver_in_step() {
    let mut lru_sender = MediumUniCache::<LruUniCache>::new(7).ok().unwrap();
    let mut lru_receiver = MediumUniCache::<LruUniCache>::new(7).ok().unwrap();
    let mut lfu_sender = MediumUniCache::<LfuUniCache>::new(7).ok().unwrap();
    let mut lfu_receiver = MediumUniCache::<LfuUniCache>::new(7).ok().unwrap();
    let mut seed: usize = 12345;
    for round in 0..10000usize {
        seed = (seed * 1103515245 + 12345) % 2147483648;
        let pick = (seed / 65536) % 23;
        let sent = MediumRecord {
            post_time: format!("{}", round),
            post_name: format!("word{} word{} word{}", pick % 5, pick % 7, pick % 3),
            post_author: format!("author{}", pick % 11),
            post_publication: format!("publication{}", pick % 4),
            post_tag_1: format!("tag{}", pick % 6),
            post_tag_2: format!("tag{}", pick % 2),
            post_tag_3: "t".to_string(),
            post_tag_4: String::new(),
        };
        let mut record = Record::Decoded(sent.clone());
        lru_sender.encode(&mut record);
        assert!(lru_receiver.decode(&mut record));
        assert_eq!(record, Record::Decoded(sent.clone()));
        let mut record = Record::Decoded(sent.clone());
        lfu_sender.encode(&mut record);
        assert!(lfu_receiver.decode(&mut record));
        assert_eq!(record, Record::Decoded(sent));
    }
}

#[test]
fn statement_stream_keeps_sender_and_receiver_in_step() {
    let mut sender = QueryUniCache::<LfuUniCache>::new(7).ok().unwrap();
    let mut receiver = QueryUniCache::<LfuUniCache>::new(7).ok().unwrap();
    let mut seed: usize = 12345;
    for round in 0..300usize {
        seed = (seed * 1103515245 + 12345) % 2147483648;
        let table = (seed / 65536) % 23;
        let sql = format!("SELECT c{} FROM table_{} WHERE k = {}", table % 5, table, round);
        let mut command = statement(round, &sql);
        sender.encode(&mut command);
        assert!(receiver.decode(&mut command));
        assert_eq!(command, statement(round, &sql));
    }
}
