use unicache::cache::index_table::IndexTable;

#[test]
fn new_table_is_empty() {
    let table = IndexTable::new(8);
    assert_eq!(table.len(), 0);
    assert_eq!(table.index_of("a"), None);
    let table = IndexTable::new(0);
    assert_eq!(table.len(), 0);
}

#[test]
fn pushed_values_take_the_next_index() {
    let mut table = IndexTable::new(8);
    assert!(table.push("a".to_string()));
    assert!(table.push("b".to_string()));
    assert!(table.push(String::new()));
    assert_eq!(table.len(), 3);
    assert_eq!(table.index_of("a"), Some(0));
    assert_eq!(table.index_of("b"), Some(1));
    assert_eq!(table.index_of(""), Some(2));
    assert_eq!(table.index_of("c"), None);
    assert_eq!(table.value_at(0), "a");
    assert_eq!(table.value_at(1), "b");
    assert_eq!(table.value_at(2), "");
}

#[test]
fn replaced_value_leaves_the_others_in_place() {
    let mut table = IndexTable::new(8);
    assert!(table.push("a".to_string()));
    assert!(table.push("b".to_string()));
    assert!(table.push("c".to_string()));
    assert!(table.replace(0, "d".to_string()));
    assert_eq!(table.len(), 3);
    assert_eq!(table.index_of("a"), None);
    assert_eq!(table.index_of("d"), Some(0));
    assert_eq!(table.index_of("b"), Some(1));
    assert_eq!(table.index_of("c"), Some(2));
    assert!(table.replace(2, "e".to_string()));
    assert_eq!(table.value_at(0), "d");
    assert_eq!(table.value_at(1), "b");
    assert_eq!(table.value_at(2), "e");
    assert!(table.replace(1, "a".to_string()));
    assert_eq!(table.index_of("a"), Some(1));
    assert_eq!(table.index_of("b"), None);
}

#[test]
fn table_grows_beyond_its_first_room() {
    let mut table = IndexTable::new(2);
    for round in 0..20usize {
        assert!(table.push(format!("v{}", round)));
    }
    assert_eq!(table.len(), 20);
    assert_eq!(table.index_of("v19"), Some(19));
    assert_eq!(table.value_at(7), "v7");
}

#[test]
fn value_that_is_held_is_not_stored_twice() {
    let mut table = IndexTable::new(8);
    assert!(table.push("a".to_string()));
    assert!(table.push("b".to_string()));
    assert!(!table.push("a".to_string()));
    assert_eq!(table.len(), 2);
    assert!(!table.replace(1, "a".to_string()));
    assert_eq!(table.value_at(0), "a");
    assert_eq!(table.value_at(1), "b");
    assert!(table.replace(1, "b".to_string()));
    assert_eq!(table.value_at(1), "b");
    assert_eq!(table.len(), 2);
}
