use phonebook::{JsonFile, Person, StoreError};

fn person(name: &str, number: &str) -> Person {
    Person { name: String::from(name), number: String::from(number), ..Default::default() }
}

fn record(id: u128, name: &str, number: &str) -> Person {
    Person { id, name: String::from(name), number: String::from(number) }
}

fn ids(store: &JsonFile) -> Vec<u128> {
    store.snapshot().iter().map(|p| p.id).collect()
}

fn mock() -> JsonFile {
    JsonFile::from_records(vec![
        record(4, "Dan Abramov", "12-43-234345"),
        record(1, "Arto Hellas", "040-123456"),
        record(3, "Ada Lovelace", "39-44-5323523"),
        record(2, "Mary Poppendieck", "39-23-6423122"),
    ])
}

#[test]
fn test_methods() {
    let mut json_file = mock();
    assert_eq!(ids(&json_file), vec![1, 2, 3, 4]);
    assert_eq!(json_file.add_to_phonebook(person("Abhishek R Shah", "999-123")).unwrap(), 5);
    // Rejected: the name is the same, only the whitespace differs.
    assert!(matches!(
        json_file.add_to_phonebook(person("Abhishek   R     Shah", "999-123")),
        Err(StoreError::DuplicateName)
    ));
    assert_eq!(
        json_file.add_to_phonebook(person("Harry puttar", "999-123123128930yu1893h")).unwrap(),
        6
    );
    json_file.update(1, person("Cassandra Fox", "099-887766")).unwrap();
    json_file.delete(4).unwrap();
    assert_eq!(ids(&json_file), vec![1, 2, 3, 5, 6]);
    assert_eq!(json_file.get_by_id(1), Some(record(1, "Cassandra Fox", "099-887766")));
    assert_eq!(None, json_file.get_by_id(4));
    assert_eq!(None, json_file.get_by_id(10));
}

#[test]
fn scenario_add_collide_delete_reload() {
    let mut store = JsonFile::new();
    assert_eq!(store.add_to_phonebook(person("Ann Lee", "111")).unwrap(), 1);
    assert_eq!(store.add_to_phonebook(person("Bob King", "222")).unwrap(), 2);
    assert!(matches!(
        store.add_to_phonebook(person("Ann   Lee", "999")),
        Err(StoreError::DuplicateName)
    ));
    assert_eq!(store.get_by_id(2), Some(record(2, "Bob King", "222")));
    assert!(store.delete(1).is_ok());
    assert_eq!(store.get_by_id(1), None);
    let reloaded = JsonFile::from_records(store.snapshot());
    assert_eq!(reloaded.snapshot(), vec![record(2, "Bob King", "222")]);
    assert_eq!(reloaded.len(), 1);
}

#[test]
fn new_store_is_empty() {
    assert_eq!(JsonFile::new().len(), 0);
    assert_eq!(JsonFile::default().len(), 0);
    assert!(JsonFile::new().snapshot().is_empty());
}

#[test]
fn first_identifier_is_one() {
    let mut store = JsonFile::new();
    assert_eq!(store.add_to_phonebook(person("Ann Lee", "111")).unwrap(), 1);
}

#[test]
fn identifier_is_largest_plus_one() {
    let mut store = JsonFile::from_records(vec![record(41, "Ann Lee", "1"), record(7, "Bob King", "2")]);
    assert_eq!(store.add_to_phonebook(person("Cy Young", "3")).unwrap(), 42);
    assert_eq!(ids(&store), vec![7, 41, 42]);
}

#[test]
fn deleted_identifier_below_the_largest_is_not_reused() {
    let mut store = JsonFile::new();
    store.add_to_phonebook(person("Ann Lee", "1")).unwrap();
    store.add_to_phonebook(person("Bob King", "2")).unwrap();
    store.add_to_phonebook(person("Cy Young", "3")).unwrap();
    store.delete(2).unwrap();
    assert_eq!(store.add_to_phonebook(person("Di Prince", "4")).unwrap(), 4);
    assert_eq!(ids(&store), vec![1, 3, 4]);
}

#[test]
fn identifiers_ascend_strictly_after_each_add() {
    let mut store = JsonFile::new();
    let names = ["Ann Lee", "Bob King", "Cy Young", "Di Prince", "Ed Wood", "Flo Rida"];
    for (n, name) in names.iter().enumerate() {
        store.add_to_phonebook(person(name, "0")).unwrap();
        let now = ids(&store);
        assert_eq!(now.len(), n + 1);
        assert!(now.windows(2).all(|w| w[0] < w[1]));
    }
}

#[test]
fn add_with_an_identifier_is_refused() {
    let mut store = JsonFile::new();
    store.add_to_phonebook(person("Ann Lee", "111")).unwrap();
    let before = store.snapshot();
    assert!(matches!(
        store.add_to_phonebook(record(9, "Bob King", "222")),
        Err(StoreError::InvalidId)
    ));
    assert!(matches!(
        store.add_to_phonebook(record(1, "Bob King", "222")),
        Err(StoreError::InvalidId)
    ));
    assert_eq!(store.snapshot(), before);
}

#[test]
fn identifier_is_tested_before_the_name() {
    let mut store = JsonFile::new();
    assert!(matches!(store.add_to_phonebook(record(3, "   ", "1")), Err(StoreError::InvalidId)));
}

#[test]
fn add_with_a_colliding_name_leaves_the_store_unchanged() {
    let mut store = JsonFile::new();
    store.add_to_phonebook(person("Ann Lee", "111")).unwrap();
    store.add_to_phonebook(person("Bob King", "222")).unwrap();
    let before = store.snapshot();
    assert!(matches!(
        store.add_to_phonebook(person("  ANN  middle  LEE ", "333")),
        Err(StoreError::DuplicateName)
    ));
    assert_eq!(store.snapshot(), before);
    assert_eq!(store.len(), 2);
}

#[test]
fn add_without_a_name_is_refused() {
    let mut store = JsonFile::new();
    assert!(matches!(store.add_to_phonebook(person("", "1")), Err(StoreError::MissingName)));
    assert!(matches!(store.add_to_phonebook(person(" \t\n ", "1")), Err(StoreError::MissingName)));
    assert_eq!(store.len(), 0);
}

#[test]
fn names_of_one_word_collide_with_the_same_word() {
    let mut store = JsonFile::new();
    assert_eq!(store.add_to_phonebook(person("Ann", "1")).unwrap(), 1);
    let before = store.snapshot();
    assert!(matches!(store.add_to_phonebook(person("Ann", "2")), Err(StoreError::DuplicateName)));
    assert!(matches!(store.add_to_phonebook(person(" ANN ", "2")), Err(StoreError::DuplicateName)));
    assert_eq!(store.snapshot(), before);
    assert_eq!(store.add_to_phonebook(person("Bob", "3")).unwrap(), 2);
    assert_eq!(store.get_by_name("ann"), Some(record(1, "Ann", "1")));
    assert_eq!(store.get_by_name("BOB").unwrap().id, 2);
    assert_eq!(store.get_by_name("Cy"), None);
    assert!(matches!(store.check_if_name_exists("ann"), Ok((true, Some(0)))));
}

#[test]
fn a_name_of_one_word_does_not_collide_with_longer_names() {
    let mut store = JsonFile::new();
    assert_eq!(store.add_to_phonebook(person("Ann", "1")).unwrap(), 1);
    assert_eq!(store.add_to_phonebook(person("Ann Ann", "2")).unwrap(), 2);
    assert_eq!(store.add_to_phonebook(person("Ann Lee", "3")).unwrap(), 3);
    assert!(matches!(
        store.add_to_phonebook(person("ann ann", "4")),
        Err(StoreError::DuplicateName)
    ));
    assert_eq!(store.get_by_name("ann").unwrap().id, 1);
    assert_eq!(store.get_by_name("ann bo ann").unwrap().id, 2);
}

#[test]
fn words_between_the_first_and_the_last_are_ignored() {
    let mut store = JsonFile::new();
    store.add_to_phonebook(person("Ann Lee", "1")).unwrap();
    assert!(matches!(
        store.add_to_phonebook(person("Ann Bo Lee", "2")),
        Err(StoreError::DuplicateName)
    ));
    assert!(matches!(
        store.add_to_phonebook(person("Ann Bo Cy Lee", "2")),
        Err(StoreError::DuplicateName)
    ));
    assert_eq!(store.add_to_phonebook(person("Ann Lee Bo", "3")).unwrap(), 2);
    assert_eq!(store.add_to_phonebook(person("Lee Ann", "4")).unwrap(), 3);
}

#[test]
fn the_name_is_stored_as_it_was_typed() {
    let mut store = JsonFile::new();
    store.add_to_phonebook(person("  Ann   LEE ", "1")).unwrap();
    assert_eq!(store.get_by_id(1).unwrap().name, "  Ann   LEE ");
}

#[test]
fn lookups_do_not_change_the_store() {
    let store = mock();
    let before = store.snapshot();
    let first = store.get_by_id(3);
    let second = store.get_by_id(3);
    assert_eq!(first, second);
    assert_eq!(first, Some(record(3, "Ada Lovelace", "39-44-5323523")));
    assert_eq!(store.get_by_name("ada lovelace"), store.get_by_name("ada lovelace"));
    assert_eq!(store.get_by_id(99), None);
    assert_eq!(store.get_by_name("No Body"), None);
    assert_eq!(store.snapshot(), before);
}

#[test]
fn get_by_id_finds_every_record() {
    let store = mock();
    for id in 1..=4u128 {
        assert_eq!(store.get_by_id(id).unwrap().id, id);
    }
    assert_eq!(store.get_by_id(0), None);
    assert_eq!(store.get_by_id(5), None);
    assert_eq!(store.get_by_id(u128::MAX), None);
}

#[test]
fn get_by_id_sorted_answers_as_get_by_id() {
    let mut store = mock();
    let before = store.snapshot();
    assert_eq!(store.get_by_id_sorted(2), Some(record(2, "Mary Poppendieck", "39-23-6423122")));
    assert_eq!(store.get_by_id_sorted(9), None);
    assert_eq!(store.snapshot(), before);
}

#[test]
fn get_by_name_normalises_the_name() {
    let store = mock();
    let found = store.get_by_name("  ARTO   hellas ");
    assert_eq!(found, Some(record(1, "Arto Hellas", "040-123456")));
    assert_eq!(store.get_by_name("Arto von Hellas").unwrap().id, 1);
    assert_eq!(store.get_by_name("Arto"), None);
    assert_eq!(store.get_by_name("Hellas Arto"), None);
    assert_eq!(store.get_by_name(""), None);
    assert_eq!(store.get_by_name("   "), None);
}

#[test]
fn get_by_name_returns_the_first_match() {
    let store = JsonFile::from_records(vec![
        record(2, "Ann Bo Lee", "2"),
        record(1, "Ann Lee", "1"),
    ]);
    assert_eq!(store.get_by_name("ann lee").unwrap().id, 1);
}

#[test]
fn check_if_name_exists_reports_the_place() {
    let store = mock();
    assert!(matches!(store.check_if_name_exists("ada lovelace"), Ok((true, Some(2)))));
    assert!(matches!(store.check_if_name_exists("Arto Hellas"), Ok((true, Some(0)))));
    assert!(matches!(store.check_if_name_exists("Grace Hopper"), Ok((false, None))));
    assert!(matches!(store.check_if_name_exists("Ada"), Ok((false, None))));
    assert!(matches!(store.check_if_name_exists(" "), Err(StoreError::MissingName)));
}

#[test]
fn a_stored_name_without_words_collides_with_nothing() {
    let mut store = JsonFile::from_records(vec![record(1, "  ", "1"), record(2, "", "2")]);
    assert!(matches!(store.check_if_name_exists("Ann Lee"), Ok((false, None))));
    assert_eq!(store.add_to_phonebook(person("Ann Lee", "3")).unwrap(), 3);
}

#[test]
fn delete_of_a_missing_identifier_changes_nothing() {
    let mut store = mock();
    let before = store.snapshot();
    assert!(store.delete(99).is_ok());
    assert!(store.delete(0).is_ok());
    assert_eq!(store.snapshot(), before);
    assert_eq!(store.len(), 4);
}

#[test]
fn delete_removes_the_record() {
    let mut store = mock();
    assert!(store.delete(2).is_ok());
    assert_eq!(ids(&store), vec![1, 3, 4]);
    assert_eq!(store.get_by_id(2), None);
    assert!(store.delete(2).is_ok());
    assert_eq!(ids(&store), vec![1, 3, 4]);
}

#[test]
fn delete_removes_every_record_with_the_identifier() {
    let mut store = JsonFile::from_records(vec![
        record(2, "Ann Lee", "1"),
        record(1, "Bob King", "2"),
        record(2, "Cy Young", "3"),
    ]);
    store.delete(2).unwrap();
    assert_eq!(store.snapshot(), vec![record(1, "Bob King", "2")]);
}

#[test]
fn update_with_an_empty_name_keeps_the_name() {
    let mut store = mock();
    store.update(1, person("", "555")).unwrap();
    assert_eq!(store.get_by_id(1), Some(record(1, "Arto Hellas", "555")));
}

#[test]
fn update_with_an_empty_number_keeps_the_number() {
    let mut store = mock();
    store.update(1, person("Arto Hell", "")).unwrap();
    assert_eq!(store.get_by_id(1), Some(record(1, "Arto Hell", "040-123456")));
}

#[test]
fn update_with_both_overwrites_both() {
    let mut store = mock();
    store.update(3, person("Grace Hopper", "1-2-3")).unwrap();
    assert_eq!(store.get_by_id(3), Some(record(3, "Grace Hopper", "1-2-3")));
    assert_eq!(ids(&store), vec![1, 2, 3, 4]);
}

#[test]
fn update_with_neither_changes_nothing() {
    let mut store = mock();
    let before = store.snapshot();
    store.update(3, person("", "")).unwrap();
    assert_eq!(store.snapshot(), before);
}

#[test]
fn update_ignores_the_identifier_of_the_patch() {
    let mut store = mock();
    store.update(2, record(77, "Mary Pop", "9")).unwrap();
    assert_eq!(store.get_by_id(2), Some(record(2, "Mary Pop", "9")));
    assert_eq!(store.get_by_id(77), None);
    assert_eq!(ids(&store), vec![1, 2, 3, 4]);
}

#[test]
fn update_of_a_missing_identifier_is_refused() {
    let mut store = mock();
    let before = store.snapshot();
    assert!(matches!(store.update(9, person("Grace Hopper", "1")), Err(StoreError::NotFound)));
    assert!(matches!(JsonFile::new().update(1, person("Grace Hopper", "1")), Err(StoreError::NotFound)));
    assert_eq!(store.snapshot(), before);
}

#[test]
fn update_does_not_compare_the_new_name_with_the_others() {
    let mut store = mock();
    assert!(store.update(2, person("Arto Hellas", "")).is_ok());
    assert_eq!(store.get_by_id(1).unwrap().name, "Arto Hellas");
    assert_eq!(store.get_by_id(2).unwrap().name, "Arto Hellas");
    assert_eq!(store.get_by_name("arto hellas").unwrap().id, 1);
}

#[test]
fn from_records_brings_the_records_into_order() {
    let store = mock();
    assert_eq!(
        store.snapshot(),
        vec![
            record(1, "Arto Hellas", "040-123456"),
            record(2, "Mary Poppendieck", "39-23-6423122"),
            record(3, "Ada Lovelace", "39-44-5323523"),
            record(4, "Dan Abramov", "12-43-234345"),
        ]
    );
}

#[test]
fn from_records_keeps_the_order_of_equal_identifiers() {
    let store = JsonFile::from_records(vec![
        record(5, "e", "1"),
        record(0, "a", "2"),
        record(5, "f", "3"),
        record(0, "b", "4"),
        record(3, "c", "5"),
    ]);
    let names: Vec<String> = store.snapshot().into_iter().map(|p| p.name).collect();
    assert_eq!(names, vec!["a", "b", "c", "e", "f"]);
}

#[test]
fn snapshot_then_from_records_gives_the_same_store() {
    let mut store = mock();
    store.add_to_phonebook(person("Grace Hopper", "1")).unwrap();
    store.delete(2).unwrap();
    let copy = JsonFile::from_records(store.snapshot());
    assert_eq!(copy.snapshot(), store.snapshot());
    let mut shuffled = store.snapshot();
    shuffled.reverse();
    shuffled.swap(0, 2);
    assert_eq!(JsonFile::from_records(shuffled).snapshot(), store.snapshot());
}

#[test]
fn snapshot_is_detached_from_the_store() {
    let mut store = mock();
    let snapshot = store.snapshot();
    store.delete(1).unwrap();
    assert_eq!(snapshot.len(), 4);
    assert_eq!(store.len(), 3);
}

#[test]
fn sort_changes_nothing() {
    let mut store = mock();
    let before = store.snapshot();
    store.sort();
    assert_eq!(store.snapshot(), before);
    store.sort();
    assert_eq!(store.snapshot(), before);
}

#[test]
fn add_beside_the_largest_identifier_there_is() {
    let mut store = JsonFile::from_records(vec![
        record(u128::MAX, "Ann Lee", "1"),
        record(1, "Bob King", "2"),
    ]);
    let id = store.add_to_phonebook(person("Cy Young", "3")).unwrap();
    assert!(id != 0 && id != 1 && id != u128::MAX);
    let now = ids(&store);
    assert_eq!(now.len(), 3);
    assert!(now.windows(2).all(|w| w[0] < w[1]));
    assert_eq!(store.get_by_id(id), Some(record(id, "Cy Young", "3")));
    let second = store.add_to_phonebook(person("Di Prince", "4")).unwrap();
    assert!(second != id && second != 0 && second != 1 && second != u128::MAX);
    assert!(ids(&store).windows(2).all(|w| w[0] < w[1]));
}
