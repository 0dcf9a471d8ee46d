use kvs::error::KvError;

#[test]
fn the_message_of_a_rule_that_was_broken_is_its_text() {
    assert_eq!(KvError::not_found().message(), "Key not found");
    assert_eq!(KvError::inconsistent().message(), "Inconsistent backing storage");
    assert_eq!(KvError::bad_segment_name().message(), "Error parsing Int");
    assert_eq!(KvError::KvError("anything".to_owned()).message(), "anything");
}

#[test]
fn the_message_of_an_io_error_names_it() {
    let error = KvError::IoError(std::io::Error::new(std::io::ErrorKind::Other, "disk on fire"));
    assert_eq!(error.message(), "IO error: disk on fire");
}

#[test]
fn the_message_of_a_codec_error_names_it() {
    let inner = serde_json::from_str::<String>("").unwrap_err();
    let expected = format!("Serde error: {}", inner);
    assert_eq!(KvError::SerdeError(inner).message(), expected);
}

#[test]
fn an_io_error_becomes_an_io_error_of_the_store() {
    let inner = std::io::Error::new(std::io::ErrorKind::PermissionDenied, "no");
    match KvError::from(inner) {
        KvError::IoError(error) => assert_eq!(error.kind(), std::io::ErrorKind::PermissionDenied),
        other => panic!("expected an I/O error, got {:?}", other),
    }
}

#[test]
fn a_serde_json_error_becomes_a_codec_error_of_the_store() {
    let inner = serde_json::from_str::<String>("{").unwrap_err();
    let text = inner.to_string();
    match KvError::from(inner) {
        KvError::SerdeError(error) => assert_eq!(error.to_string(), text),
        other => panic!("expected a codec error, got {:?}", other),
    }
}
