use unicache::cache::lfu_cache::LfuUniCache;
use unicache::cache::lru_cache::LruUniCache;
use unicache::cache::unicache::UniCache;
use unicache::load::StoreCommand;
use unicache::preprocess::{
    capture, decode, encode, encode_parts, merge_query, split_at_candidates, split_at_spans,
    split_query, Command, EncodedCommand, TemplateError, SEPARATOR,
};
use unicache::util::MaybeEncoded;

fn strings(items: &[&str]) -> Vec<String> {
    items.iter().map(|item| item.to_string()).collect()
}

fn statement(id: usize, sql: &str) -> Command {
    Command::Decoded(StoreCommand { id, sql: sql.to_string() })
}

fn encoded(id: usize, template: MaybeEncoded, parameters: &[&str]) -> Command {
    Command::Encoded(EncodedCommand { id, template, parameters: strings(parameters) })
}

#[test]
fn separator_is_the_hash_sign() {
    assert_eq!(SEPARATOR, '#');
}

#[test]
fn number_is_captured_with_the_character_before_it() {
    let (template, parameters) = split_query("SELECT * FROM t WHERE id = 1");
    assert_eq!(template, "SELECT * FROM t WHERE id =#");
    assert_eq!(parameters, strings(&[" 1"]));
}

#[test]
fn statement_without_literals_is_its_own_template() {
    let (template, parameters) = split_query("SELECT name FROM users");
    assert_eq!(template, "SELECT name FROM users");
    assert_eq!(parameters, strings(&[]));
}

#[test]
fn empty_statement_splits_into_nothing() {
    let (template, parameters) = split_query("");
    assert_eq!(template, "");
    assert_eq!(parameters, strings(&[]));
    assert_eq!(merge_query("", &parameters), Ok(String::new()));
}

#[test]
fn decimals_and_several_numbers() {
    let (template, parameters) = split_query("UPDATE t SET a = 1.5, b = 22 WHERE c > 3");
    assert_eq!(template, "UPDATE t SET a =#, b =# WHERE c >#");
    assert_eq!(parameters, strings(&[" 1.5", " 22", " 3"]));
}

#[test]
fn digits_after_a_letter_bracket_comma_or_quote_are_left() {
    let (template, parameters) = split_query("SELECT a1 FROM t WHERE f(2,3) = '4'");
    assert_eq!(template, "SELECT a1 FROM t WHERE f(2,3) = '4'");
    assert_eq!(parameters, strings(&[]));
}

#[test]
fn hash_literal_wins_over_the_number_inside_it() {
    let query = "INSERT INTO t VALUES ('123\\abc', 45)";
    let (template, parameters) = split_query(query);
    assert_eq!(template, "INSERT INTO t VALUES (#,#)");
    assert_eq!(parameters, strings(&["'123\\abc'", " 45"]));
    assert_eq!(merge_query(&template, &parameters), Ok(query.to_string()));
}

#[test]
fn parameters_come_in_the_order_of_the_statement() {
    let query = "SELECT 7 FROM t WHERE h = '9\\x' AND n = 8";
    let (template, parameters) = split_query(query);
    assert_eq!(template, "SELECT# FROM t WHERE h = # AND n =#");
    assert_eq!(parameters, strings(&[" 7", "'9\\x'", " 8"]));
    assert_eq!(merge_query(&template, &parameters), Ok(query.to_string()));
}

#[test]
fn adjacent_literals_stay_apart() {
    let query = "VALUES 1 2 3";
    let (template, parameters) = split_query(query);
    assert_eq!(template, "VALUES###");
    assert_eq!(parameters, strings(&[" 1", " 2", " 3"]));
    assert_eq!(merge_query(&template, &parameters), Ok(query.to_string()));
}

#[test]
fn statements_beyond_ascii_are_cut_at_characters() {
    let query = "SELECT café FROM été WHERE prix = 12 AND ville = 'Zürich' AND n =😀 5";
    let (template, parameters) = split_query(query);
    assert_eq!(template, "SELECT café FROM été WHERE prix =# AND ville = 'Zürich' AND n =😀#");
    assert_eq!(parameters, strings(&[" 12", " 5"]));
    assert_eq!(merge_query(&template, &parameters), Ok(query.to_string()));
    let (template, parameters) = split_query("é1 ü22");
    assert_eq!(template, "# #");
    assert_eq!(parameters, strings(&["é1", "ü22"]));
}

#[test]
fn merge_undoes_split() {
    let queries = [
        "",
        "SELECT 1",
        "1",
        "SELECT * FROM orders WHERE total > 100.25 AND id = 7",
        "INSERT INTO log VALUES ('77\\ab''cd', 3, 4.0)",
        "no numbers here",
        "trailing 9",
        "a # sign but no literal",
    ];
    for query in queries {
        let (template, parameters) = split_query(query);
        assert_eq!(merge_query(&template, &parameters), Ok(query.to_string()));
    }
}

#[test]
fn separator_beside_a_literal_cannot_be_merged() {
    let (template, parameters) = split_query("SELECT 1 # comment");
    assert_eq!(template, "SELECT# # comment");
    assert_eq!(parameters, strings(&[" 1"]));
    assert_eq!(merge_query(&template, &parameters), Err(TemplateError::ParameterCount));
}

#[test]
fn merge_without_parameters_hands_the_template_back() {
    assert_eq!(merge_query("a#b", &strings(&[])), Ok("a#b".to_string()));
    assert_eq!(merge_query("abc", &strings(&[])), Ok("abc".to_string()));
}

#[test]
fn merge_puts_each_parameter_in_its_place() {
    assert_eq!(merge_query("a#b#c", &strings(&["1", "2"])), Ok("a1b2c".to_string()));
    assert_eq!(merge_query("#", &strings(&["x"])), Ok("x".to_string()));
    assert_eq!(merge_query("##", &strings(&["x", "y"])), Ok("xy".to_string()));
    assert_eq!(merge_query("a#", &strings(&[""])), Ok("a".to_string()));
    assert_eq!(merge_query("a#b", &strings(&["#"])), Ok("a#b".to_string()));
}

#[test]
fn merge_refuses_a_wrong_count() {
    assert_eq!(merge_query("a#b#c", &strings(&["1"])), Err(TemplateError::ParameterCount));
    assert_eq!(merge_query("abc", &strings(&["1"])), Err(TemplateError::ParameterCount));
    assert_eq!(merge_query("", &strings(&["1"])), Err(TemplateError::ParameterCount));
    assert_eq!(merge_query("a#b", &strings(&["1", "2"])), Err(TemplateError::ParameterCount));
}

#[test]
fn first_candidate_wins_over_one_that_shares_a_byte() {
    let text = "0123456789";
    assert_eq!(capture(text, &vec![(2, 5), (4, 6), (0, 2), (5, 7)]), vec![(0, 2), (2, 5), (5, 7)]);
    assert_eq!(capture(text, &vec![(4, 6), (2, 5)]), vec![(4, 6)]);
    assert_eq!(capture(text, &vec![(3, 4), (0, 10)]), vec![(3, 4)]);
    assert_eq!(capture(text, &vec![(0, 10), (3, 4)]), vec![(0, 10)]);
    assert_eq!(capture(text, &vec![(8, 9), (1, 2), (4, 5)]), vec![(1, 2), (4, 5), (8, 9)]);
    assert_eq!(capture(text, &vec![(1, 2), (1, 2)]), vec![(1, 2)]);
    assert_eq!(capture(text, &Vec::new()), Vec::new());
}

#[test]
fn candidates_that_cannot_be_cut_are_passed_over() {
    let text = "aé😀z";
    assert_eq!(capture(text, &vec![(3, 3), (5, 4), (0, 9), (7, 100)]), Vec::new());
    assert_eq!(capture(text, &vec![(1, 2), (2, 3), (4, 7), (3, 5)]), Vec::new());
    assert_eq!(capture(text, &vec![(1, 3), (3, 7), (0, 8)]), vec![(1, 3), (3, 7)]);
    let (template, parameters) = split_at_candidates(text, &vec![(2, 3), (3, 7), (0, 1)]);
    assert_eq!(template, "#é#z");
    assert_eq!(parameters, strings(&["a", "😀"]));
}

#[test]
fn split_at_spans_replaces_each_span() {
    let (template, parameters) = split_at_spans("hello world", &vec![(0, 5), (6, 11)]);
    assert_eq!(template, "# #");
    assert_eq!(parameters, strings(&["hello", "world"]));
    let (template, parameters) = split_at_spans("hello world", &Vec::new());
    assert_eq!(template, "hello world");
    assert_eq!(parameters, strings(&[]));
    let (template, parameters) = split_at_spans("hello", &vec![(0, 5)]);
    assert_eq!(template, "#");
    assert_eq!(parameters, strings(&["hello"]));
}

#[test]
fn encode_parts_sends_the_template_through_the_dictionary() {
    let mut cache = LruUniCache::new(4).unwrap();
    let (made, hit) = encode_parts(3, "t =#".to_string(), strings(&[" 1"]), &mut cache);
    assert!(!hit);
    assert_eq!(made.id, 3);
    assert_eq!(made.template, MaybeEncoded::Decoded("t =#".to_string()));
    assert_eq!(made.parameters, strings(&[" 1"]));
    let (made, hit) = encode_parts(4, "t =#".to_string(), strings(&[" 2"]), &mut cache);
    assert!(hit);
    assert_eq!(made.id, 4);
    assert_eq!(made.template, MaybeEncoded::Encoded(0));
    assert_eq!(made.parameters, strings(&[" 2"]));
}

#[test]
fn repeated_template_travels_as_index() {
    let mut sender = LruUniCache::new(4).unwrap();
    let mut receiver = LruUniCache::new(4).unwrap();
    let stream = [
        "SELECT * FROM t WHERE id = 1",
        "SELECT * FROM t WHERE id = 2",
        "SELECT * FROM t WHERE id = 1",
    ];
    let literal = MaybeEncoded::Decoded("SELECT * FROM t WHERE id =#".to_string());
    let expected = [
        (false, encoded(0, literal, &[" 1"])),
        (true, encoded(1, MaybeEncoded::Encoded(0), &[" 2"])),
        (true, encoded(2, MaybeEncoded::Encoded(0), &[" 1"])),
    ];
    for (id, sql) in stream.iter().enumerate() {
        let mut command = statement(id, sql);
        let hit = encode(&mut command, &mut sender);
        assert_eq!(hit, expected[id].0);
        assert_eq!(command, expected[id].1);
        assert_eq!(decode(&mut command, &mut receiver), Ok(()));
        assert_eq!(command, statement(id, sql));
    }
    assert_eq!(sender.len(), 1);
    assert_eq!(receiver.len(), 1);
}

#[test]
fn statements_round_trip_under_eviction() {
    let mut sender = LfuUniCache::new(2).unwrap();
    let mut receiver = LfuUniCache::new(2).unwrap();
    let forms = [
        "SELECT * FROM a WHERE x = {}",
        "UPDATE b SET y = {} WHERE z = {}",
        "DELETE FROM c WHERE k > {}",
        "INSERT INTO d VALUES ({}, 'name', {})",
    ];
    for round in 0..60usize {
        let form = forms[(round * 7 + round / 5) % forms.len()];
        let sql = form.replace("{}", &format!(" {}", round));
        let mut command = statement(round, &sql);
        encode(&mut command, &mut sender);
        assert!(matches!(command, Command::Encoded(_)));
        assert_eq!(decode(&mut command, &mut receiver), Ok(()));
        assert_eq!(command, statement(round, &sql));
        assert_eq!(sender.len(), receiver.len());
        for index in 0..sender.len() {
            let held = sender.get_with_encoded_index(index as u8);
            assert_eq!(receiver.get_with_encoded_index(index as u8), held);
        }
    }
}

#[test]
fn statement_that_cannot_be_merged_is_left_encoded() {
    let mut sender = LruUniCache::new(4).unwrap();
    let mut receiver = LruUniCache::new(4).unwrap();
    let mut command = statement(9, "SELECT 1 # comment");
    assert!(!encode(&mut command, &mut sender));
    let travelling = command.clone();
    assert_eq!(decode(&mut command, &mut receiver), Err(TemplateError::ParameterCount));
    assert_eq!(command, travelling);
    assert_eq!(receiver.len(), 1);
    assert_eq!(receiver.get_encoded_index("SELECT# # comment"), Some(0));
    let mut command = statement(10, "SELECT 2 # comment");
    assert!(encode(&mut command, &mut sender));
    let travelling = command.clone();
    assert_eq!(travelling, encoded(10, MaybeEncoded::Encoded(0), &[" 2"]));
    assert_eq!(decode(&mut command, &mut receiver), Err(TemplateError::ParameterCount));
    assert_eq!(command, travelling);
}
