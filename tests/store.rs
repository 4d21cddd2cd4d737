use merkle_trie_clock::clock::MerkleClock;
use merkle_trie_clock::error::{Error, HandlerError};
use merkle_trie_clock::merkle::MerkleTrie;
use merkle_trie_clock::models::{Message, ValueType};
use merkle_trie_clock::records::{Todo, TodoParam, TASK_TABLE};
use merkle_trie_clock::storage::MemStorage;
use merkle_trie_clock::timestamp::Timestamp;

fn ts(millis: i64, counter: usize) -> String {
    Timestamp::new(millis, counter, "5ef35ca3375b14c8".to_string()).to_string()
}

fn msg(timestamp: String, row: &str, column: &str, value: &str) -> Message {
    Message {
        timestamp,
        dataset: TASK_TABLE.to_string(),
        row: row.to_string(),
        column: column.to_string(),
        value_type: ValueType::String,
        value: value.to_string(),
    }
}

fn clock() -> MerkleClock<3> {
    MerkleClock::new(Timestamp::new(0, 0, "ffffffffffffffff".to_string()), MerkleTrie::new())
}

fn todo<'a>(s: &'a MemStorage<Todo, 3>, row: &str) -> &'a Todo {
    s.item(&row.to_string()).unwrap()
}

#[test]
fn later_write_wins_within_one_batch() {
    let mut s: MemStorage<Todo, 3> = MemStorage::new();
    let mut c = clock();
    let mut batch = vec![
        msg(ts(1712898800900, 0), "r1", "content", "second"),
        msg(ts(1712898800831, 0), "r1", "content", "first"),
        msg(ts(1712898800831, 1), "r1", "todo_type", "food"),
    ];
    s.apply_messages(&mut c, &mut batch).unwrap();
    let t = todo(&s, "r1");
    assert_eq!(t.content, "second");
    assert_eq!(t.todo_type, "food");
    assert_eq!(t.tombstone, 0);
    assert_eq!(c.merkle().length(), 3);
    assert!(batch[0].timestamp < batch[1].timestamp && batch[1].timestamp < batch[2].timestamp);
}

#[test]
fn older_write_arriving_later_does_not_overwrite() {
    let mut s: MemStorage<Todo, 3> = MemStorage::new();
    let mut c = clock();
    let mut newer = vec![msg(ts(1712898800900, 0), "r1", "content", "second")];
    s.apply_messages(&mut c, &mut newer).unwrap();
    let mut older = vec![msg(ts(1712898800831, 0), "r1", "content", "first")];
    s.apply_messages(&mut c, &mut older).unwrap();
    assert_eq!(todo(&s, "r1").content, "second");
    assert_eq!(s.applied_messages().len(), 2);
    assert_eq!(c.merkle().length(), 2);

    let mut s2: MemStorage<Todo, 3> = MemStorage::new();
    let mut c2 = clock();
    let mut first = vec![msg(ts(1712898800831, 0), "r1", "content", "first")];
    s2.apply_messages(&mut c2, &mut first).unwrap();
    let mut second = vec![msg(ts(1712898800900, 0), "r1", "content", "second")];
    s2.apply_messages(&mut c2, &mut second).unwrap();
    assert_eq!(todo(&s2, "r1").content, "second");
    assert_eq!(c2.merkle().root_hash(), c.merkle().root_hash());
}

#[test]
fn failure_part_way_keeps_what_came_before() {
    let mut s: MemStorage<Todo, 3> = MemStorage::new();
    let mut c = clock();
    let mut batch = vec![
        msg(ts(1712898800831, 0), "r1", "content", "buy"),
        msg(ts(1712898800832, 0), "r1", "colour", "red"),
        msg(ts(1712898800833, 0), "r2", "content", "never"),
    ];
    assert_eq!(s.apply_messages(&mut c, &mut batch).unwrap_err(), Error::Handler(HandlerError::UnknownColumn));
    assert_eq!(s.applied_messages().len(), 1);
    assert_eq!(c.merkle().length(), 1);
    assert_eq!(todo(&s, "r1").content, "buy");
    assert!(s.item(&"r2".to_string()).is_none());
}

#[test]
fn applying_a_batch_twice_changes_nothing() {
    let mut s: MemStorage<Todo, 3> = MemStorage::new();
    let mut c = clock();
    let mut batch = vec![
        msg(ts(1712898800831, 0), "r1", "content", "buy"),
        msg(ts(1712898800831, 1), "r2", "todo_type", "food"),
    ];
    s.apply_messages(&mut c, &mut batch).unwrap();
    let hash = c.merkle().root_hash();
    let applied = s.applied_messages().clone();
    s.apply_messages(&mut c, &mut batch).unwrap();
    assert_eq!(c.merkle().root_hash(), hash);
    assert_eq!(c.merkle().length(), 2);
    assert_eq!(s.applied_messages(), &applied);
    assert_eq!(s.items().len(), 2);
    assert_eq!(todo(&s, "r1").content, "buy");
}

#[test]
fn other_datasets_are_skipped() {
    let mut s: MemStorage<Todo, 3> = MemStorage::new();
    let mut c = clock();
    let mut m = msg(ts(1712898800831, 0), "r1", "content", "buy");
    m.dataset = "notes".to_string();
    let mut batch = vec![m];
    s.apply_messages(&mut c, &mut batch).unwrap();
    assert!(s.items().is_empty());
    assert!(c.merkle().is_empty());
}

#[test]
fn tombstone_is_parsed_as_a_number() {
    let mut s: MemStorage<Todo, 3> = MemStorage::new();
    let mut c = clock();
    let mut batch = vec![msg(ts(1712898800831, 0), "r1", "tombstone", "1")];
    s.apply_messages(&mut c, &mut batch).unwrap();
    assert_eq!(todo(&s, "r1").tombstone, 1);
}

#[test]
fn handler_errors_abort_the_batch() {
    let mut s: MemStorage<Todo, 3> = MemStorage::new();
    let mut c = clock();
    let mut batch = vec![msg(ts(1712898800831, 0), "r1", "colour", "red")];
    assert_eq!(s.apply_messages(&mut c, &mut batch).unwrap_err(), Error::Handler(HandlerError::UnknownColumn));
    let mut batch = vec![msg(ts(1712898800831, 1), "r1", "tombstone", "yes")];
    assert_eq!(s.apply_messages(&mut c, &mut batch).unwrap_err(), Error::Handler(HandlerError::InvalidValue));
    assert!(s.applied_messages().is_empty());
}

#[test]
fn malformed_timestamp_fails_the_apply() {
    let mut s: MemStorage<Todo, 3> = MemStorage::new();
    let mut c = clock();
    let mut batch = vec![msg("not-a-time".to_string(), "r1", "content", "buy")];
    assert_eq!(s.apply_messages(&mut c, &mut batch).unwrap_err(), Error::Parse);
    assert!(c.merkle().is_empty());
    assert!(s.items().is_empty());
}

#[test]
fn todo_handler_checks_table_and_row() {
    let mut t = Todo::new("r1".to_string());
    let mut m = msg(ts(1, 0), "r2", "content", "x");
    assert_eq!(t.handle_message(&m).unwrap_err(), HandlerError::WrongRow);
    m.dataset = "notes".to_string();
    assert_eq!(t.handle_message(&m).unwrap_err(), HandlerError::WrongTable);
    assert_eq!(t.content, "");
}

#[test]
fn todo_columns_by_name() {
    assert_eq!(TodoParam::try_from("todo_type"), Some(TodoParam::TodoType));
    assert_eq!(TodoParam::try_from("owner"), None);
    assert_eq!(TodoParam::Tombstone.to_string(), "tombstone");
    assert_eq!(ValueType::from_name("Number"), ValueType::Number);
    assert_eq!(ValueType::from_name("None"), ValueType::Null);
    assert_eq!(ValueType::from_name("anything"), ValueType::String);
    assert_eq!(ValueType::Null.to_string(), "None");
}
