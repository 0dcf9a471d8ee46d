use kvs::codec::{encode, KvCommand};
use kvs::directory::Directory;
use kvs::error::KvError;
use kvs::log::KvLocation;
use kvs::model::{LOG_COMPACTION_COUNT, LOG_FILE_SIZE};
use kvs::segment::{load_file_ids, segment_file_name};
use kvs::KvStore;

fn text(value: &str) -> String {
    value.to_owned()
}

fn open(files: Directory) -> KvStore {
    match KvStore::open(text("data"), files) {
        Ok(store) => store,
        Err(error) => panic!("the directory must open: {:?}", error),
    }
}

fn fresh() -> KvStore {
    open(Directory::new())
}

fn reopen(store: KvStore) -> KvStore {
    open(store.into_directory())
}

fn get(store: &KvStore, key: &str) -> Option<String> {
    store.get(text(key)).unwrap()
}

fn is_not_found(result: Result<(), KvError>) -> bool {
    match result {
        Err(KvError::KvError(message)) => message == "Key not found",
        _ => false,
    }
}

fn segment(records: &[KvCommand]) -> Vec<u8> {
    let mut data = Vec::new();
    for record in records {
        data.extend(encode(record).unwrap());
        data.push(b'\n');
    }
    data
}

fn directory(files: &[(&str, Vec<u8>)]) -> Directory {
    let mut dir = Directory::new();
    for (name, data) in files {
        dir.write(name.to_string(), data.clone());
    }
    dir
}

fn segments_on_disk(store: &KvStore) -> Vec<u32> {
    load_file_ids(&store.directory().names()).unwrap()
}

fn known(store: &KvStore) -> Vec<u32> {
    let mut ids = store.file_ids();
    ids.sort();
    ids
}

/// A value that makes the `Set` record of a one-letter key, with its line
/// feed, exactly `length` bytes long.
fn value_for_record_of(length: usize) -> String {
    // {"Set":["k","..."]} and the line feed: 17 bytes around the value
    "v".repeat(length - 17)
}

fn fill_segment(store: &mut KvStore, key: &str) {
    let before = store.current_file_id();
    store.set(text(key), value_for_record_of(LOG_FILE_SIZE as usize + 1)).unwrap();
    assert_eq!(store.current_file_id(), before + 1);
}

#[test]
fn set_then_get_in_a_fresh_directory() {
    let mut store = fresh();
    store.set(text("a"), text("1")).unwrap();
    assert_eq!(get(&store, "a"), Some(text("1")));
}

#[test]
fn set_remove_get_remove() {
    let mut store = fresh();
    store.set(text("a"), text("1")).unwrap();
    store.remove(text("a")).unwrap();
    assert_eq!(get(&store, "a"), None);
    assert!(is_not_found(store.remove(text("a"))));
    assert!(is_not_found(store.remove(text("a"))));
    assert_eq!(get(&store, "a"), None);
}

#[test]
fn get_of_a_missing_key_in_an_empty_store() {
    let store = fresh();
    assert_eq!(get(&store, "missing"), None);
    assert_eq!(store.current_file_id(), 0);
    assert!(store.file_ids().is_empty());
    assert!(store.directory().names().is_empty());
    assert_eq!(store.path(), "data");
}

#[test]
fn remove_of_a_key_that_was_never_set_is_an_error() {
    let mut store = fresh();
    assert!(is_not_found(store.remove(text("a"))));
    store.set(text("b"), text("1")).unwrap();
    assert!(is_not_found(store.remove(text("a"))));
    assert_eq!(get(&store, "b"), Some(text("1")));
    // nothing was written for the failed removes
    assert_eq!(store.directory().read(&text("000000000.log")).unwrap().len(), 18);
    let error = store.remove(text("a")).unwrap_err();
    assert_eq!(error.message(), "Key not found");
}

#[test]
fn the_last_write_wins() {
    let mut store = fresh();
    store.set(text("k"), text("v1")).unwrap();
    store.set(text("k"), text("v2")).unwrap();
    assert_eq!(get(&store, "k"), Some(text("v2")));
    store.set(text("k"), text("")).unwrap();
    assert_eq!(get(&store, "k"), Some(text("")));
    store.remove(text("k")).unwrap();
    store.set(text("k"), text("v4")).unwrap();
    assert_eq!(get(&store, "k"), Some(text("v4")));
}

#[test]
fn records_go_to_the_end_of_the_active_segment() {
    let mut store = fresh();
    store.set(text("a"), text("1")).unwrap();
    store.set(text("b"), text("2")).unwrap();
    store.remove(text("a")).unwrap();
    let expected = b"{\"Set\":[\"a\",\"1\"]}\n{\"Set\":[\"b\",\"2\"]}\n{\"Rm\":\"a\"}\n".to_vec();
    assert_eq!(store.directory().read(&text("000000000.log")), Some(&expected));
    assert_eq!(store.directory().names(), vec![text("000000000.log")]);
    assert_eq!(store.locate(&text("b")), Some(KvLocation { file_id: 0, offset: 18 }));
    assert_eq!(store.locate(&text("a")), None);
}

#[test]
fn keys_and_values_may_hold_any_text() {
    let mut store = fresh();
    let key = "a key\nwith \"lines\"\n";
    let value = "{\"Set\":[\"a\",\"1\"]}\n{\"Rm\":\"a\"}\n";
    store.set(text(key), text(value)).unwrap();
    store.set(text(""), text("\u{1f600}")).unwrap();
    assert_eq!(get(&store, key), Some(text(value)));
    assert_eq!(get(&store, ""), Some(text("\u{1f600}")));
    assert_eq!(get(&store, "a"), None);
    let store = reopen(store);
    assert_eq!(get(&store, key), Some(text(value)));
    assert_eq!(get(&store, ""), Some(text("\u{1f600}")));
    assert_eq!(get(&store, "a"), None);
}

#[test]
fn a_reopened_store_holds_what_the_store_held() {
    let mut store = fresh();
    store.set(text("a"), text("1")).unwrap();
    store.set(text("b"), text("2")).unwrap();
    store.set(text("a"), text("3")).unwrap();
    store.set(text("c"), text("4")).unwrap();
    store.remove(text("b")).unwrap();
    let keys = ["a", "b", "c", "d"];
    let before: Vec<Option<String>> = keys.iter().map(|key| get(&store, key)).collect();
    assert_eq!(before, vec![Some(text("3")), None, Some(text("4")), None]);
    let again = reopen(store);
    let after: Vec<Option<String>> = keys.iter().map(|key| get(&again, key)).collect();
    assert_eq!(after, before);
    assert_eq!(again.current_file_id(), 0);
    assert_eq!(known(&again), vec![0]);
}

#[test]
fn opening_replays_the_segments_in_ascending_order() {
    let put = |key: &str, value: &str| KvCommand::Put(text(key), text(value));
    let files = directory(&[
        ("000000010.log", segment(&[put("a", "ten"), KvCommand::Rm(text("b"))])),
        ("000000002.log", segment(&[put("a", "two"), put("b", "two"), put("c", "two")])),
        ("notes.txt", b"not a segment".to_vec()),
    ]);
    let store = open(files);
    assert_eq!(get(&store, "a"), Some(text("ten")));
    assert_eq!(get(&store, "b"), None);
    assert_eq!(get(&store, "c"), Some(text("two")));
    assert_eq!(store.current_file_id(), 10);
    assert_eq!(known(&store), vec![2, 10]);
    assert_eq!(store.locate(&text("c")), Some(KvLocation { file_id: 2, offset: 40 }));
}

#[test]
fn ten_digit_segments_are_replayed_after_nine_digit_ones() {
    let put = |key: &str, value: &str| KvCommand::Put(text(key), text(value));
    let files = directory(&[
        ("1000000000.log", segment(&[put("a", "later")])),
        ("999999999.log", segment(&[put("a", "earlier")])),
    ]);
    let store = open(files);
    assert_eq!(get(&store, "a"), Some(text("later")));
    assert_eq!(store.current_file_id(), 1000000000);
}

#[test]
fn opening_fails_on_a_segment_name_without_a_number() {
    let files = directory(&[("000000000.log", Vec::new()), ("old.log", Vec::new())]);
    match KvStore::open(text("data"), files) {
        Err(KvError::KvError(message)) => assert_eq!(message, "Error parsing Int"),
        other => panic!("expected a parse error, got {:?}", other.map(|_| ())),
    }
}

#[test]
fn opening_fails_on_a_malformed_record() {
    let files = directory(&[("000000000.log", b"{\"Set\":[\"a\",\"1\"]}\n{\"Set\":[\"b\"\n".to_vec())]);
    assert!(matches!(KvStore::open(text("data"), files), Err(KvError::SerdeError(_))));
}

#[test]
fn opening_fails_on_a_record_that_was_cut_off() {
    let files = directory(&[("000000000.log", b"{\"Set\":[\"a\",\"1\"]}\n{\"Set\":[\"b\",\"2\"]}".to_vec())]);
    assert!(matches!(KvStore::open(text("data"), files), Err(KvError::SerdeError(_))));
}

#[test]
fn opening_fails_where_the_file_of_a_segment_is_missing() {
    // the name holds segment 1, whose file would be 000000001.log
    let files = directory(&[("1.log", Vec::new())]);
    assert!(matches!(KvStore::open(text("data"), files), Err(KvError::IoError(_))));
}

#[test]
fn a_segment_is_closed_once_it_is_longer_than_a_mebibyte() {
    assert_eq!(LOG_FILE_SIZE, 1024 * 1024);
    let mut store = fresh();
    store.set(text("a"), value_for_record_of(LOG_FILE_SIZE as usize)).unwrap();
    assert_eq!(store.directory().read(&text("000000000.log")).unwrap().len(), 1048576);
    // exactly a mebibyte is not yet too long
    assert_eq!(store.current_file_id(), 0);
    assert!(store.file_ids().is_empty());
    store.set(text("b"), text("")).unwrap();
    assert_eq!(store.current_file_id(), 1);
    assert_eq!(known(&store), vec![0]);
    // the next segment is made by the first write to it
    assert_eq!(store.directory().names(), vec![text("000000000.log")]);
    store.set(text("c"), text("3")).unwrap();
    assert_eq!(store.locate(&text("c")), Some(KvLocation { file_id: 1, offset: 0 }));
    assert_eq!(segments_on_disk(&store), vec![0, 1]);
    assert_eq!(store.current_file_id(), 1);
}

#[test]
fn one_record_longer_than_a_mebibyte_closes_the_segment() {
    let mut store = fresh();
    store.set(text("a"), value_for_record_of(LOG_FILE_SIZE as usize + 1)).unwrap();
    assert_eq!(store.current_file_id(), 1);
    assert_eq!(store.locate(&text("a")), Some(KvLocation { file_id: 0, offset: 0 }));
    assert_eq!(get(&store, "a").unwrap().len(), LOG_FILE_SIZE as usize + 1 - 17);
}

#[test]
fn a_remove_goes_to_the_active_segment_and_makes_it() {
    let mut store = fresh();
    store.set(text("a"), text("1")).unwrap();
    fill_segment(&mut store, "b");
    assert_eq!(store.current_file_id(), 1);
    store.remove(text("a")).unwrap();
    assert_eq!(store.directory().read(&text("000000001.log")), Some(&b"{\"Rm\":\"a\"}\n".to_vec()));
    assert_eq!(get(&store, "a"), None);
    let store = reopen(store);
    assert_eq!(get(&store, "a"), None);
    assert_eq!(store.current_file_id(), 1);
}

#[test]
fn two_rotations_and_a_reopen() {
    let mut store = fresh();
    let mut expected: Vec<(String, String)> = Vec::new();
    let mut n = 0;
    while store.current_file_id() < 2 {
        let key = format!("key{}", n);
        let value = format!("{}{}", n, "x".repeat(100_000));
        store.set(key.clone(), value.clone()).unwrap();
        expected.push((key, value));
        n += 1;
    }
    assert!(n >= 20);
    assert_eq!(store.current_file_id(), 2);
    for (key, value) in &expected {
        assert_eq!(get(&store, key).as_ref(), Some(value));
    }
    let on_disk = segments_on_disk(&store);
    assert_eq!(on_disk, vec![0, 1]);
    let store = reopen(store);
    for (key, value) in &expected {
        assert_eq!(get(&store, key).as_ref(), Some(value));
    }
    assert_eq!(get(&store, "key"), None);
    assert_eq!(segments_on_disk(&store), on_disk);
    assert_eq!(known(&store), on_disk);
    // the highest segment that has a file is the active one
    assert_eq!(store.current_file_id(), 1);
}

#[test]
fn closing_every_tenth_segment_runs_the_compaction() {
    assert_eq!(LOG_COMPACTION_COUNT, 10);
    let mut store = fresh();
    store.set(text("kept"), text("in segment 0")).unwrap();
    // segment 0 is closed, and the compaction finds its keys alive
    fill_segment(&mut store, "big");
    assert_eq!(segments_on_disk(&store), vec![0]);
    assert_eq!(known(&store), vec![0]);
    // segments 1 to 9: each write of `big` leaves the segment before without a live key
    for id in 1..10 {
        fill_segment(&mut store, "big");
        assert_eq!(segments_on_disk(&store), (0..=id).collect::<Vec<u32>>());
        assert_eq!(known(&store), (0..=id).collect::<Vec<u32>>());
    }
    store.set(text("also kept"), text("in segment 10")).unwrap();
    let big = get(&store, "big");
    // closing segment 10 removes segments 1 to 8; the latest `big` lies in segment 9
    fill_segment(&mut store, "other");
    assert_eq!(store.current_file_id(), 11);
    assert_eq!(segments_on_disk(&store), vec![0, 9, 10]);
    assert_eq!(known(&store), vec![0, 9, 10]);
    for id in 1..9 {
        assert!(!store.directory().contains(&segment_file_name(id)));
    }
    assert_eq!(get(&store, "kept"), Some(text("in segment 0")));
    assert_eq!(get(&store, "also kept"), Some(text("in segment 10")));
    assert_eq!(get(&store, "big"), big);
    assert_eq!(store.locate(&text("big")).unwrap().file_id, 9);
}

#[test]
fn a_compaction_keeps_every_live_key() {
    let mut store = fresh();
    store.set(text("a"), text("1")).unwrap();
    store.set(text("b"), text("2")).unwrap();
    fill_segment(&mut store, "big");
    store.set(text("b"), text("3")).unwrap();
    fill_segment(&mut store, "big");
    store.remove(text("b")).unwrap();
    let before: Vec<Option<String>> = ["a", "b", "big"].iter().map(|key| get(&store, key)).collect();
    store.compact();
    let after: Vec<Option<String>> = ["a", "b", "big"].iter().map(|key| get(&store, key)).collect();
    assert_eq!(after, before);
    assert_eq!(get(&store, "a"), Some(text("1")));
    assert_eq!(get(&store, "b"), None);
    // both closed segments hold a live key; the active one is not known yet
    assert_eq!(known(&store), vec![0, 1]);
    assert_eq!(segments_on_disk(&store), vec![0, 1, 2]);
}

#[test]
fn a_compaction_removes_the_segments_without_a_live_key() {
    let put = |key: &str, value: &str| KvCommand::Put(text(key), text(value));
    let files = directory(&[
        ("000000001.log", segment(&[put("a", "1"), put("b", "1")])),
        ("000000002.log", segment(&[put("a", "2")])),
        ("000000003.log", segment(&[put("a", "3"), put("b", "3")])),
        ("000000004.log", segment(&[put("c", "4")])),
        ("notes.txt", b"left alone".to_vec()),
    ]);
    let mut store = open(files);
    store.compact();
    assert_eq!(known(&store), vec![3, 4]);
    assert_eq!(segments_on_disk(&store), vec![3, 4]);
    assert!(store.directory().contains(&text("notes.txt")));
    assert!(!store.directory().contains(&text("000000001.log")));
    assert!(!store.directory().contains(&text("000000002.log")));
    assert_eq!(get(&store, "a"), Some(text("3")));
    assert_eq!(get(&store, "b"), Some(text("3")));
    assert_eq!(get(&store, "c"), Some(text("4")));
    assert_eq!(store.locate(&text("a")), Some(KvLocation { file_id: 3, offset: 0 }));
    assert_eq!(store.current_file_id(), 4);
    // a second compaction finds nothing to do
    store.compact();
    assert_eq!(known(&store), vec![3, 4]);
    let store = reopen(store);
    assert_eq!(get(&store, "a"), Some(text("3")));
    assert_eq!(get(&store, "b"), Some(text("3")));
    assert_eq!(get(&store, "c"), Some(text("4")));
}

#[test]
fn a_compaction_may_remove_the_record_of_a_remove() {
    let put = |key: &str, value: &str| KvCommand::Put(text(key), text(value));
    let files = directory(&[
        ("000000001.log", segment(&[put("a", "1"), put("b", "1")])),
        ("000000002.log", segment(&[KvCommand::Rm(text("a")), put("c", "2")])),
        ("000000003.log", segment(&[put("c", "3")])),
    ]);
    let mut store = open(files);
    assert_eq!(get(&store, "a"), None);
    // segment 2 holds no live key, only the record that removed `a`
    store.compact();
    assert_eq!(segments_on_disk(&store), vec![1, 3]);
    assert_eq!(get(&store, "a"), None);
    assert_eq!(get(&store, "b"), Some(text("1")));
    assert_eq!(get(&store, "c"), Some(text("3")));
    // the files no longer say that `a` was removed
    let store = reopen(store);
    assert_eq!(get(&store, "a"), Some(text("1")));
    assert_eq!(get(&store, "b"), Some(text("1")));
    assert_eq!(get(&store, "c"), Some(text("3")));
}

#[test]
fn a_second_name_for_a_removed_segment_fails_the_next_open() {
    let put = |key: &str, value: &str| KvCommand::Put(text(key), text(value));
    let files = directory(&[
        ("000000001.log", segment(&[put("a", "1")])),
        ("1.log", segment(&[put("a", "never read")])),
        ("000000002.log", segment(&[put("a", "2")])),
    ]);
    let mut store = open(files);
    assert_eq!(known(&store), vec![1, 2]);
    assert_eq!(get(&store, "a"), Some(text("2")));
    // segment 1 is dead; its file goes, the file with its other name stays
    store.compact();
    assert_eq!(get(&store, "a"), Some(text("2")));
    assert!(!store.directory().contains(&text("000000001.log")));
    assert!(store.directory().contains(&text("1.log")));
    let files = store.into_directory();
    assert!(matches!(KvStore::open(text("data"), files), Err(KvError::IoError(_))));
}

#[test]
fn set_does_not_fail_on_a_key_that_is_there() {
    let mut store = fresh();
    assert!(store.set(text("a"), text("1")).is_ok());
    assert!(store.set(text("a"), text("1")).is_ok());
    assert_eq!(store.directory().read(&text("000000000.log")).unwrap().len(), 36);
}
