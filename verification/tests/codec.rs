use kvs::codec::{decode, encode, KvCommand};
use kvs::error::KvError;

fn put(key: &str, value: &str) -> KvCommand {
    KvCommand::Put(key.to_owned(), value.to_owned())
}

#[test]
fn a_set_record_is_a_json_object_with_a_pair() {
    let bytes = encode(&put("a", "1")).unwrap();
    assert_eq!(bytes, b"{\"Set\":[\"a\",\"1\"]}".to_vec());
    assert_eq!(bytes.len(), 17);
}

#[test]
fn a_rm_record_is_a_json_object_with_a_string() {
    let bytes = encode(&KvCommand::Rm("a".to_owned())).unwrap();
    assert_eq!(bytes, b"{\"Rm\":\"a\"}".to_vec());
}

#[test]
fn a_get_record_is_a_json_object_with_a_string() {
    let bytes = encode(&KvCommand::Get("key".to_owned())).unwrap();
    assert_eq!(bytes, b"{\"Get\":\"key\"}".to_vec());
}

#[test]
fn the_strings_are_written_as_serde_json_writes_them() {
    let key = "k\"e\\y";
    let value = "line one\nline two\ttab \u{1} \u{e9}\u{4e2d}";
    let bytes = encode(&put(key, value)).unwrap();
    let pair = serde_json::to_string(&(key, value)).unwrap();
    assert_eq!(bytes, format!("{{\"Set\":{}}}", pair).into_bytes());
    let bytes = encode(&KvCommand::Rm(value.to_owned())).unwrap();
    let text = serde_json::to_string(value).unwrap();
    assert_eq!(bytes, format!("{{\"Rm\":{}}}", text).into_bytes());
}

#[test]
fn a_line_feed_in_a_string_is_escaped() {
    let bytes = encode(&put("a\nb", "c\nd\n")).unwrap();
    assert!(!bytes.contains(&b'\n'));
    assert_eq!(bytes, b"{\"Set\":[\"a\\nb\",\"c\\nd\\n\"]}".to_vec());
    let bytes = encode(&KvCommand::Rm("\n".to_owned())).unwrap();
    assert!(!bytes.contains(&b'\n'));
}

#[test]
fn decoding_gives_the_record_back() {
    let records = vec![
        put("a", "1"),
        put("", ""),
        put("key with spaces", "value\nwith\nlines"),
        put("quote\"", "back\\slash"),
        put("\u{e9}t\u{e9}", "\u{1f600} \u{0} \u{7f}"),
        put("{\"Set\":[\"a\",\"1\"]}", "}"),
        KvCommand::Get("a".to_owned()),
        KvCommand::Get("".to_owned()),
        KvCommand::Rm("a".to_owned()),
        KvCommand::Rm("\n\r\t".to_owned()),
    ];
    for record in records {
        let bytes = encode(&record).unwrap();
        assert_eq!(decode(&bytes).unwrap(), record);
    }
}

#[test]
fn decoding_reads_what_serde_json_reads() {
    assert_eq!(decode(b"{\"Set\":[\"a\\u0041\",\"\\ud83d\\ude00\"]}").unwrap(), put("aA", "\u{1f600}"));
    assert_eq!(decode(b"{\"Rm\":\"a\\/b\"}").unwrap(), KvCommand::Rm("a/b".to_owned()));
    assert_eq!(decode(b"{\"Set\": [ \"a\" , \"b\" ] }").unwrap(), put("a", "b"));
}

fn is_codec_error(bytes: &[u8]) -> bool {
    matches!(decode(bytes), Err(KvError::SerdeError(_)))
}

#[test]
fn malformed_bytes_are_a_codec_error() {
    assert!(is_codec_error(b""));
    assert!(is_codec_error(b"}"));
    assert!(is_codec_error(b"{}"));
    assert!(is_codec_error(b"{\"Set\":[\"a\",\"1\"]"));
    assert!(is_codec_error(b"{\"Set\":[\"a\",\"1\""));
    assert!(is_codec_error(b"{\"Set\":[\"a\"]}"));
    assert!(is_codec_error(b"{\"Set\":[\"a\",\"b\",\"c\"]}"));
    assert!(is_codec_error(b"{\"Set\":\"a\"}"));
    assert!(is_codec_error(b"{\"Set\":[\"a\",1]}"));
    assert!(is_codec_error(b"{\"Rm\":[\"a\",\"b\"]}"));
    assert!(is_codec_error(b"{\"Rm\":1}"));
    assert!(is_codec_error(b"{\"Rm\":\"a}"));
    assert!(is_codec_error(b"{\"Rm\":\"a\"}}"));
    assert!(is_codec_error(b"{\"Del\":\"a\"}"));
    assert!(is_codec_error(b"{\"set\":[\"a\",\"1\"]}"));
    assert!(is_codec_error(b"[\"a\",\"1\"]"));
    assert!(is_codec_error(b"\"a\""));
    assert!(is_codec_error(b"{\"Rm\":\"\xff\"}"));
    assert!(is_codec_error(b"{\"Rm\":\"a\nb\"}"));
}

#[test]
fn a_codec_error_says_so() {
    let error = decode(b"{\"Rm\":1}").unwrap_err();
    assert!(error.message().starts_with("Serde error: "));
    let error = decode(b"nothing").unwrap_err();
    assert_eq!(error.message(), "Serde error: malformed record");
}
