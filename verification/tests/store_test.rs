use kv_server::store::engine::log::{check_log, Log, LogType, BATCH_SIZE};
use kv_server::store::engine::{Kvdb, LOG_PATH};
use kv_server::store::order::{compare_bytes, compare_keys, KeyOrder};
use kv_server::store::table::SortedTable;
use kv_server::store::Engine;

fn s(x: &str) -> String {
    x.to_string()
}

#[test]
fn log_type_codes() {
    assert_eq!(LogType::Put.to_string(), "0");
    assert_eq!(LogType::Delete.to_string(), "1");
}

#[test]
fn log_record_flushes_each_record() {
    assert_eq!(BATCH_SIZE, 1);
    let mut log = Log::new("some.log");
    assert_eq!(log.file_path(), "some.log");
    log.record(LogType::Put, "A", "Alex");
    log.record(LogType::Delete, "A", "Alex");
    assert_eq!(log.take_output(), "0 A Alex\n1 A Alex\n");
    assert_eq!(log.take_output(), "");
    log.flush();
    assert_eq!(log.take_output(), "");
}

#[test]
fn kvdb_logs_puts_and_deletes() {
    let mut db = Kvdb::new();
    assert_eq!(db.log_file(), LOG_PATH);
    assert_eq!(db.put(&s("k"), &s("v1")), Ok(None));
    assert_eq!(db.put(&s("k"), &s("v2")), Ok(Some(s("v1"))));
    assert_eq!(db.delete(&s("missing")), Ok(None));
    assert_eq!(db.delete(&s("k")), Ok(Some(s("v2"))));
    assert_eq!(db.take_log_output(), "0 k v1\n0 k v2\n1 k v2\n");
    assert_eq!(db.get(&s("k")), Ok(None));
}

#[test]
fn reopen_restores_store() {
    let mut db = Kvdb::new();
    db.put(&s("a"), &s("1")).unwrap();
    db.put(&s("b"), &s("2")).unwrap();
    db.put(&s("c"), &s("3")).unwrap();
    db.delete(&s("b")).unwrap();
    db.put(&s("a"), &s("10")).unwrap();
    let mut file = db.take_log_output();

    let mut again = Kvdb::new();
    assert!(check_log(&file));
    again.recover(&file);
    assert_eq!(again.get(&s("a")), Ok(Some(s("10"))));
    assert_eq!(again.get(&s("b")), Ok(None));
    assert_eq!(again.get(&s("c")), Ok(Some(s("3"))));

    // a second session appends to the same file
    again.put(&s("d"), &s("4")).unwrap();
    again.delete(&s("c")).unwrap();
    file.push_str(&again.take_log_output());
    let mut third = Kvdb::new();
    third.recover(&file);
    assert_eq!(
        third.scan(&s("a"), &s("z")),
        Ok(Some(vec![(s("a"), s("10")), (s("d"), s("4"))]))
    );
}

#[test]
fn recover_reads_lines_and_words() {
    let mut db = Kvdb::new();
    // CRLF line ends, runs of white space, extra words, unknown types
    let text = "0 a 1\r\n0\t b   2 extra\n7 c 3\n0 c\u{3000}3\n1 a x\n";
    assert!(check_log(text));
    db.recover(text);
    assert_eq!(db.get(&s("a")), Ok(None));
    assert_eq!(db.get(&s("b")), Ok(Some(s("2"))));
    assert_eq!(db.get(&s("c")), Ok(Some(s("3"))));
}

#[test]
fn recover_last_line_without_line_end() {
    let mut db = Kvdb::new();
    db.recover("0 a 1\n0 b 2");
    assert_eq!(db.get(&s("b")), Ok(Some(s("2"))));
    db.recover("");
    assert_eq!(db.get(&s("a")), Ok(Some(s("1"))));
}

#[test]
fn check_log_rejects_short_lines() {
    assert!(check_log(""));
    assert!(check_log("0 a b\n"));
    assert!(!check_log("0 a\n"));
    assert!(!check_log("0 a b\n\n"));
    assert!(!check_log("0 a  \n"));
    // a value that is empty cannot be read back
    let mut db = Kvdb::new();
    db.put(&s("k"), &s("")).unwrap();
    assert!(!check_log(&db.take_log_output()));
}

#[test]
fn compare_orders_by_bytes() {
    assert_eq!(compare_keys("a", "b"), KeyOrder::Less);
    assert_eq!(compare_keys("b", "a"), KeyOrder::Greater);
    assert_eq!(compare_keys("abc", "abc"), KeyOrder::Equal);
    assert_eq!(compare_keys("ab", "abc"), KeyOrder::Less);
    assert_eq!(compare_keys("", "a"), KeyOrder::Less);
    assert_eq!(compare_keys("Z", "a"), KeyOrder::Less);
    assert_eq!(compare_keys("\u{e9}", "z"), KeyOrder::Greater);
    assert_eq!(compare_bytes(&[1, 2], &[1, 3]), KeyOrder::Less);
    assert_eq!(compare_bytes(&[], &[]), KeyOrder::Equal);
}

#[test]
fn table_insert_get_remove_range() {
    let mut t = SortedTable::new();
    assert_eq!(t.len(), 0);
    assert_eq!(t.insert(s("m"), s("1")), None);
    assert_eq!(t.insert(s("c"), s("2")), None);
    assert_eq!(t.insert(s("x"), s("3")), None);
    assert_eq!(t.insert(s("c"), s("4")), Some(s("2")));
    assert_eq!(t.len(), 3);
    assert_eq!(t.get("c"), Some(s("4")));
    assert_eq!(t.get("d"), None);
    assert_eq!(t.range("a", "z"), vec![(s("c"), s("4")), (s("m"), s("1")), (s("x"), s("3"))]);
    assert_eq!(t.range("d", "x"), vec![(s("m"), s("1"))]);
    assert_eq!(t.remove("m"), Some(s("1")));
    assert_eq!(t.remove("m"), None);
    assert_eq!(t.len(), 2);
    assert_eq!(t.range("a", "z"), vec![(s("c"), s("4")), (s("x"), s("3"))]);
}

#[test]
fn scan_of_empty_engine_is_none() {
    let db = Kvdb::new();
    assert_eq!(db.scan(&s("a"), &s("b")), Ok(None));
}

#[test]
fn keys_with_spaces_do_not_survive_the_log() {
    let mut db = Kvdb::new();
    db.put(&s("a b"), &s("c")).unwrap();
    let file = db.take_log_output();
    assert_eq!(file, "0 a b c\n");
    let mut again = Kvdb::new();
    again.recover(&file);
    assert_eq!(again.get(&s("a")), Ok(Some(s("b"))));
    assert_eq!(again.get(&s("a b")), Ok(None));
}

#[test]
fn records_on_a_log_replay_to_their_history() {
    let mut log = Log::new(LOG_PATH);
    log.record(LogType::Put, "x", "1");
    log.record(LogType::Put, "y", "2");
    log.record(LogType::Delete, "x", "1");
    log.record(LogType::Put, "y", "3");
    let text = log.take_output();
    let mut db = Kvdb::new();
    assert!(check_log(&text));
    db.recover(&text);
    assert_eq!(db.scan(&s("a"), &s("z")), Ok(Some(vec![(s("y"), s("3"))])));
}
