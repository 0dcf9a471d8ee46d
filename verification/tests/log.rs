use kvs::assoc::AssocList;
use kvs::codec::{encode, KvCommand};
use kvs::directory::Directory;
use kvs::error::KvError;
use kvs::log::{find_line_end, read_record, KvLocation};
use kvs::store::{points_into, read_value, update_cache};

fn put(key: &str, value: &str) -> KvCommand {
    KvCommand::Put(key.to_owned(), value.to_owned())
}

fn rm(key: &str) -> KvCommand {
    KvCommand::Rm(key.to_owned())
}

fn segment(records: &[KvCommand]) -> Vec<u8> {
    let mut data = Vec::new();
    for record in records {
        data.extend(encode(record).unwrap());
        data.push(b'\n');
    }
    data
}

fn directory(files: &[(&str, Vec<u8>)]) -> Directory {
    let mut dir = Directory::new();
    for (name, data) in files {
        dir.write(name.to_string(), data.clone());
    }
    dir
}

fn at(file_id: u32, offset: u64) -> KvLocation {
    KvLocation { file_id, offset }
}

fn place(index: &AssocList<KvLocation>, key: &str) -> Option<KvLocation> {
    index.get(&key.to_owned()).copied()
}

#[test]
fn a_line_ends_at_the_next_line_feed() {
    let data = b"ab\ncd\n\nef";
    assert_eq!(find_line_end(data, 0), 2);
    assert_eq!(find_line_end(data, 1), 2);
    assert_eq!(find_line_end(data, 2), 2);
    assert_eq!(find_line_end(data, 3), 5);
    assert_eq!(find_line_end(data, 6), 6);
    assert_eq!(find_line_end(data, 7), 9);
    assert_eq!(find_line_end(data, 9), 9);
    assert_eq!(find_line_end(b"", 0), 0);
}

#[test]
fn a_record_is_read_at_its_offset() {
    let data = segment(&[put("a", "1"), rm("a"), put("b", "two")]);
    assert_eq!(read_record(&data, 0).unwrap(), put("a", "1"));
    assert_eq!(read_record(&data, 18).unwrap(), rm("a"));
    assert_eq!(read_record(&data, 29).unwrap(), put("b", "two"));
}

#[test]
fn nothing_is_read_between_or_behind_the_records() {
    let data = segment(&[put("a", "1"), rm("a")]);
    assert!(matches!(read_record(&data, 1), Err(KvError::SerdeError(_))));
    assert!(matches!(read_record(&data, 17), Err(KvError::SerdeError(_))));
    assert!(matches!(read_record(&data, data.len() as u64), Err(KvError::SerdeError(_))));
    assert!(matches!(read_record(&data, u64::MAX), Err(KvError::SerdeError(_))));
    assert!(matches!(read_record(b"", 0), Err(KvError::SerdeError(_))));
}

#[test]
fn a_record_without_its_line_feed_is_not_read() {
    let mut data = segment(&[put("a", "1")]);
    data.extend(encode(&put("b", "2")).unwrap());
    assert_eq!(read_record(&data, 0).unwrap(), put("a", "1"));
    assert!(matches!(read_record(&data, 18), Err(KvError::SerdeError(_))));
    let error = read_record(&data, 18).unwrap_err();
    assert_eq!(error.message(), "Serde error: record cut off before its end");
    data.push(b'\n');
    assert_eq!(read_record(&data, 18).unwrap(), put("b", "2"));
}

#[test]
fn replaying_a_segment_indexes_each_key_at_its_latest_set() {
    let data = segment(&[put("a", "1"), put("b", "2"), put("a", "3")]);
    let dir = directory(&[("000000004.log", data)]);
    let index = update_cache(AssocList::new(), 4, &dir).unwrap();
    assert_eq!(index.len(), 2);
    assert_eq!(place(&index, "a"), Some(at(4, 36)));
    assert_eq!(place(&index, "b"), Some(at(4, 18)));
    assert_eq!(place(&index, "c"), None);
}

#[test]
fn replaying_a_rm_takes_the_key_out() {
    let data = segment(&[put("a", "1"), put("b", "2"), rm("a"), rm("never set")]);
    let dir = directory(&[("000000000.log", data)]);
    let index = update_cache(AssocList::new(), 0, &dir).unwrap();
    assert_eq!(index.len(), 1);
    assert_eq!(place(&index, "a"), None);
    assert_eq!(place(&index, "b"), Some(at(0, 18)));
}

#[test]
fn replaying_a_get_changes_nothing() {
    let data = segment(&[put("a", "1"), KvCommand::Get("a".to_owned()), KvCommand::Get("b".to_owned())]);
    let dir = directory(&[("000000000.log", data)]);
    let index = update_cache(AssocList::new(), 0, &dir).unwrap();
    assert_eq!(index.len(), 1);
    assert_eq!(place(&index, "a"), Some(at(0, 0)));
}

#[test]
fn replaying_goes_on_from_the_index_it_is_given() {
    let dir = directory(&[
        ("000000001.log", segment(&[put("a", "1"), put("b", "2")])),
        ("000000002.log", segment(&[rm("b"), put("c", "3")])),
    ]);
    let index = update_cache(AssocList::new(), 1, &dir).unwrap();
    let index = update_cache(index, 2, &dir).unwrap();
    assert_eq!(place(&index, "a"), Some(at(1, 0)));
    assert_eq!(place(&index, "b"), None);
    assert_eq!(place(&index, "c"), Some(at(2, 11)));
}

#[test]
fn replaying_an_empty_segment_changes_nothing() {
    let dir = directory(&[("000000000.log", Vec::new())]);
    let index = update_cache(AssocList::new(), 0, &dir).unwrap();
    assert_eq!(index.len(), 0);
}

#[test]
fn replaying_a_missing_segment_is_an_io_error() {
    let dir = directory(&[("000000001.log", segment(&[put("a", "1")]))]);
    match update_cache(AssocList::new(), 2, &dir) {
        Err(KvError::IoError(error)) => assert_eq!(error.kind(), std::io::ErrorKind::NotFound),
        other => panic!("expected an I/O error, got {:?}", other.map(|index| index.len())),
    }
}

#[test]
fn replaying_a_malformed_record_is_a_codec_error() {
    let mut data = segment(&[put("a", "1")]);
    data.extend(b"not a record\n");
    let dir = directory(&[("000000000.log", data)]);
    assert!(matches!(update_cache(AssocList::new(), 0, &dir), Err(KvError::SerdeError(_))));
    let dir = directory(&[("000000000.log", b"\n".to_vec())]);
    assert!(matches!(update_cache(AssocList::new(), 0, &dir), Err(KvError::SerdeError(_))));
}

#[test]
fn replaying_a_segment_that_was_cut_off_is_a_codec_error() {
    let whole = segment(&[put("a", "1"), put("b", "2")]);
    // cut in the middle of the last record
    let dir = directory(&[("000000000.log", whole[..whole.len() - 5].to_vec())]);
    assert!(matches!(update_cache(AssocList::new(), 0, &dir), Err(KvError::SerdeError(_))));
    // cut just before the last line feed
    let dir = directory(&[("000000000.log", whole[..whole.len() - 1].to_vec())]);
    assert!(matches!(update_cache(AssocList::new(), 0, &dir), Err(KvError::SerdeError(_))));
    // not cut
    let dir = directory(&[("000000000.log", whole)]);
    assert!(update_cache(AssocList::new(), 0, &dir).is_ok());
}

#[test]
fn the_value_of_a_set_record_is_read_at_its_place() {
    let dir = directory(&[("000000003.log", segment(&[put("a", "1"), put("b", "two")]))]);
    assert_eq!(read_value(&dir, at(3, 0)).unwrap(), "1");
    assert_eq!(read_value(&dir, at(3, 18)).unwrap(), "two");
}

#[test]
fn a_place_that_holds_no_set_record_is_inconsistent() {
    let dir = directory(&[("000000003.log", segment(&[rm("a"), KvCommand::Get("a".to_owned())]))]);
    match read_value(&dir, at(3, 0)) {
        Err(KvError::KvError(text)) => assert_eq!(text, "Inconsistent backing storage"),
        other => panic!("expected an inconsistency, got {:?}", other),
    }
    match read_value(&dir, at(3, 11)) {
        Err(KvError::KvError(text)) => assert_eq!(text, "Inconsistent backing storage"),
        other => panic!("expected an inconsistency, got {:?}", other),
    }
}

#[test]
fn a_place_in_a_missing_segment_is_an_io_error() {
    let dir = directory(&[("000000003.log", segment(&[put("a", "1")]))]);
    assert!(matches!(read_value(&dir, at(4, 0)), Err(KvError::IoError(_))));
    let error = read_value(&dir, at(4, 0)).unwrap_err();
    assert!(error.message().starts_with("IO error: "));
}

#[test]
fn a_place_that_holds_no_record_is_a_codec_error() {
    let dir = directory(&[("000000003.log", segment(&[put("a", "1")]))]);
    assert!(matches!(read_value(&dir, at(3, 1)), Err(KvError::SerdeError(_))));
    assert!(matches!(read_value(&dir, at(3, 18)), Err(KvError::SerdeError(_))));
    assert!(matches!(read_value(&dir, at(3, 1000)), Err(KvError::SerdeError(_))));
}

#[test]
fn a_segment_is_live_while_an_entry_points_into_it() {
    let dir = directory(&[
        ("000000001.log", segment(&[put("a", "1")])),
        ("000000002.log", segment(&[put("a", "2")])),
        ("000000003.log", segment(&[put("b", "3")])),
    ]);
    let index = update_cache(AssocList::new(), 1, &dir).unwrap();
    assert!(points_into(&index, 1));
    let index = update_cache(index, 2, &dir).unwrap();
    let index = update_cache(index, 3, &dir).unwrap();
    assert!(!points_into(&index, 1));
    assert!(points_into(&index, 2));
    assert!(points_into(&index, 3));
    assert!(!points_into(&index, 4));
    assert!(!points_into(&AssocList::new(), 0));
}
