//! The record codec: one log operation to and from its bytes in a segment.
//!
//! A record is a JSON object with one member, named after the operation:
//! `{"Set":["key","value"]}`, `{"Get":"key"}` or `{"Rm":"key"}`. The strings
//! are written and read by `serde_json`; this module frames them.
use vstd::prelude::*;
use vstd::slice::slice_subrange;
use crate::error::KvError;

verus! {

/// The byte that ends a record in a segment.
pub const NEWLINE: u8 = 10;

/// The byte that closes a record.
pub const CLOSE: u8 = 125;

/// One operation of the log.
#[derive(Debug, PartialEq, Eq)]
pub enum KvCommand {
    /// The key has the value from here on.
    Put(String, String),
    /// A lookup; it changes nothing and is never written by the store.
    Get(String),
    /// The key is absent from here on.
    Rm(String),
}

/// A record as a mathematical value.
pub enum Record {
    Put(Seq<char>, Seq<char>),
    Get(Seq<char>),
    Rm(Seq<char>),
}

impl View for KvCommand {
    type V = Record;

    open spec fn view(&self) -> Record {
        match self {
            KvCommand::Put(key, value) => Record::Put(key@, value@),
            KvCommand::Get(key) => Record::Get(key@),
            KvCommand::Rm(key) => Record::Rm(key@),
        }
    }
}

/// The JSON text that `serde_json::to_vec` writes for a string, `None` where it fails.
pub uninterp spec fn json_of_text(text: Seq<char>) -> Option<Seq<u8>>;

/// The JSON text that `serde_json::to_vec` writes for a pair of strings,
/// `None` where it fails.
pub uninterp spec fn json_of_pair(first: Seq<char>, second: Seq<char>) -> Option<Seq<u8>>;

/// The string that `serde_json::from_slice` reads from a JSON text, `None`
/// where it rejects the text.
pub uninterp spec fn text_of_json(json: Seq<u8>) -> Option<Seq<char>>;

/// The pair of strings that `serde_json::from_slice` reads from a JSON
/// text, `None` where it rejects the text.
pub uninterp spec fn pair_of_json(json: Seq<u8>) -> Option<(Seq<char>, Seq<char>)>;

/// `{"Set":`
pub open spec fn set_tag() -> Seq<u8> {
    seq![123u8, 34u8, 83u8, 101u8, 116u8, 34u8, 58u8]
}

/// `{"Get":`
pub open spec fn get_tag() -> Seq<u8> {
    seq![123u8, 34u8, 71u8, 101u8, 116u8, 34u8, 58u8]
}

/// `{"Rm":`
pub open spec fn rm_tag() -> Seq<u8> {
    seq![123u8, 34u8, 82u8, 109u8, 34u8, 58u8]
}

/// The JSON of the strings of a record, `None` where they cannot be written.
pub open spec fn json_of(record: Record) -> Option<Seq<u8>> {
    match record {
        Record::Put(key, value) => json_of_pair(key, value),
        Record::Get(key) => json_of_text(key),
        Record::Rm(key) => json_of_text(key),
    }
}

/// The tag that opens a record.
pub open spec fn tag_of(record: Record) -> Seq<u8> {
    match record {
        Record::Put(_, _) => set_tag(),
        Record::Get(_) => get_tag(),
        Record::Rm(_) => rm_tag(),
    }
}

/// The bytes of a record: the tag of its operation, the JSON of its
/// strings, a closing brace. `None` where the strings cannot be written.
pub open spec fn encode_spec(record: Record) -> Option<Seq<u8>> {
    match json_of(record) {
        Some(json) => Some(tag_of(record) + json + seq![CLOSE]),
        None => None,
    }
}

/// The bytes of a record that can be written.
pub open spec fn record_bytes(record: Record) -> Seq<u8> {
    encode_spec(record)->0
}

/// True of a record that can be written: it has bytes, they decode to it,
/// and they hold no line feed.
pub open spec fn encodes_well(record: Record) -> bool {
    &&& encode_spec(record) is Some
    &&& decode_spec(record_bytes(record)) == Some(record)
    &&& !record_bytes(record).contains(NEWLINE)
}

/// The record that a run of bytes stands for, `None` where they are no record.
pub open spec fn decode_spec(bytes: Seq<u8>) -> Option<Record> {
    if bytes.len() == 0 || bytes.last() != CLOSE {
        None
    } else {
        let body = bytes.drop_last();
        if set_tag().is_prefix_of(body) {
            match pair_of_json(body.skip(7)) {
                Some((key, value)) => Some(Record::Put(key, value)),
                None => None,
            }
        } else if get_tag().is_prefix_of(body) {
            match text_of_json(body.skip(7)) {
                Some(key) => Some(Record::Get(key)),
                None => None,
            }
        } else if rm_tag().is_prefix_of(body) {
            match text_of_json(body.skip(6)) {
                Some(key) => Some(Record::Rm(key)),
                None => None,
            }
        } else {
            None
        }
    }
}

/// Calls `serde_json::to_vec` on a string; what it gives is named
/// `json_of_text`. Two things are taken on trust of the bytes it writes:
/// `serde_json::from_slice` reads the same string back from them; and none
/// of them is a raw line feed, since the writer escapes every control
/// character of a string (a line feed becomes `\n`) and puts no white space
/// between the tokens.
#[verifier::external_body]
fn write_json_text(text: &str) -> (res: Result<Vec<u8>, serde_json::Error>)
    ensures
        res matches Ok(json) ==> json_of_text(text@) == Some(json@),
        res matches Ok(json) ==> text_of_json(json@) == Some(text@),
        res matches Ok(json) ==> !json@.contains(NEWLINE),
        res is Err ==> json_of_text(text@) is None,
{
    serde_json::to_vec(text)
}

/// Calls `serde_json::to_vec` on a pair of strings; what it gives, the JSON
/// array of the two, is named `json_of_pair`. The same two things are taken
/// on trust: `serde_json::from_slice` reads the same pair back from the
/// bytes, and none of them is a raw line feed.
#[verifier::external_body]
fn write_json_pair(first: &str, second: &str) -> (res: Result<Vec<u8>, serde_json::Error>)
    ensures
        res matches Ok(json) ==> json_of_pair(first@, second@) == Some(json@),
        res matches Ok(json) ==> pair_of_json(json@) == Some((first@, second@)),
        res matches Ok(json) ==> !json@.contains(NEWLINE),
        res is Err ==> json_of_pair(first@, second@) is None,
{
    serde_json::to_vec(&(first, second))
}

/// Calls `serde_json::from_slice` for a `String`; what it gives is named
/// `text_of_json`, with `None` for bytes that it rejects.
#[verifier::external_body]
fn read_json_text(json: &[u8]) -> (res: Result<String, serde_json::Error>)
    ensures
        res matches Ok(text) ==> text_of_json(json@) == Some(text@),
        res is Err ==> text_of_json(json@) is None,
{
    serde_json::from_slice::<String>(json)
}

/// Calls `serde_json::from_slice` for a pair of `String`s; what it gives is
/// named `pair_of_json`, with `None` for bytes that it rejects.
#[verifier::external_body]
fn read_json_pair(json: &[u8]) -> (res: Result<(String, String), serde_json::Error>)
    ensures
        res matches Ok(pair) ==> pair_of_json(json@) == Some((pair.0@, pair.1@)),
        res is Err ==> pair_of_json(json@) is None,
{
    serde_json::from_slice::<(String, String)>(json)
}

/// Makes a `serde_json::Error` that says why bytes are no record, with
/// `serde::de::Error::custom`. Nothing is said of the error.
#[verifier::external_body]
pub(crate) fn codec_error(reason: &str) -> serde_json::Error {
    <serde_json::Error as serde::de::Error>::custom(reason)
}

/// The codec error for bytes that are not framed as a record.
fn frame_error() -> (e: KvError)
    ensures
        e is SerdeError,
{
    KvError::SerdeError(codec_error("malformed record"))
}

/// The codec error for a record that no line feed closes.
pub(crate) fn cut_off_error() -> (e: KvError)
    ensures
        e is SerdeError,
{
    KvError::SerdeError(codec_error("record cut off before its end"))
}

fn set_tag_bytes() -> (tag: Vec<u8>)
    ensures
        tag@ == set_tag(),
{
    vec![123u8, 34u8, 83u8, 101u8, 116u8, 34u8, 58u8]
}

fn get_tag_bytes() -> (tag: Vec<u8>)
    ensures
        tag@ == get_tag(),
{
    vec![123u8, 34u8, 71u8, 101u8, 116u8, 34u8, 58u8]
}

fn rm_tag_bytes() -> (tag: Vec<u8>)
    ensures
        tag@ == rm_tag(),
{
    vec![123u8, 34u8, 82u8, 109u8, 34u8, 58u8]
}

fn tag_bytes(command: &KvCommand) -> (tag: Vec<u8>)
    ensures
        tag@ == tag_of(command@),
{
    match command {
        KvCommand::Put(_, _) => set_tag_bytes(),
        KvCommand::Get(_) => get_tag_bytes(),
        KvCommand::Rm(_) => rm_tag_bytes(),
    }
}

/// Frames the JSON of a record's strings: the tag of the operation before
/// it, the closing brace behind it.
pub fn frame(command: &KvCommand, json: Vec<u8>) -> (bytes: Vec<u8>)
    ensures
        bytes@ == tag_of(command@) + json@ + seq![CLOSE],
{
    let mut bytes = tag_bytes(command);
    let mut json = json;
    bytes.append(&mut json);
    bytes.push(CLOSE);
    bytes
}

/// Encodes a record. The bytes decode to the same record, and hold no line
/// feed: in a segment, the next line feed behind the start of a record is
/// the one that closes it.
pub fn encode(command: &KvCommand) -> (res: Result<Vec<u8>, KvError>)
    ensures
        res matches Ok(bytes) ==> encode_spec(command@) == Some(bytes@),
        res matches Ok(bytes) ==> decode_spec(bytes@) == Some(command@),
        res matches Ok(bytes) ==> encodes_well(command@),
        res matches Err(e) ==> encode_spec(command@) is None && e is SerdeError,
{
    let written = match command {
        KvCommand::Put(key, value) => write_json_pair(key.as_str(), value.as_str()),
        KvCommand::Get(key) => write_json_text(key.as_str()),
        KvCommand::Rm(key) => write_json_text(key.as_str()),
    };
    match written {
        Ok(json) => {
            let ghost inner = json@;
            let bytes = frame(command, json);
            proof {
                let tag = tag_of(command@);
                assert(bytes@.last() == CLOSE);
                assert(bytes@.drop_last() =~= tag + inner);
                assert(tag.is_prefix_of(tag + inner));
                assert((tag + inner).skip(tag.len() as int) =~= inner);
                assert((tag + inner)[2] == tag[2]);
                assert forall|i: int| 0 <= i < bytes@.len() implies bytes@[i] != NEWLINE by {
                    if tag.len() <= i < tag.len() + inner.len() {
                        assert(inner.contains(inner[i - tag.len()]));
                    }
                }
            }
            Ok(bytes)
        },
        Err(err) => Err(KvError::SerdeError(err)),
    }
}

fn starts_with(bytes: &[u8], tag: &Vec<u8>) -> (yes: bool)
    ensures
        yes == tag@.is_prefix_of(bytes@),
{
    if bytes.len() < tag.len() {
        return false;
    }
    let mut i: usize = 0;
    while i < tag.len()
        invariant
            i <= tag.len() <= bytes.len(),
            forall|j: int| 0 <= j < i ==> bytes@[j] == tag@[j],
        decreases tag.len() - i,
    {
        if bytes[i] != tag[i] {
            assert(bytes@.subrange(0, tag@.len() as int)[i as int] != tag@[i as int]);
            return false;
        }
        i += 1;
    }
    assert(tag@ =~= bytes@.subrange(0, tag@.len() as int));
    true
}

/// Decodes the bytes of one record, without the line feed behind it. Bytes
/// that are no record are a codec error.
pub fn decode(bytes: &[u8]) -> (res: Result<KvCommand, KvError>)
    ensures
        res matches Ok(command) ==> decode_spec(bytes@) == Some(command@),
        res matches Err(e) ==> decode_spec(bytes@) is None && e is SerdeError,
{
    let n: usize = bytes.len();
    if n == 0 || bytes[n - 1] != CLOSE {
        return Err(frame_error());
    }
    let body = slice_subrange(bytes, 0, n - 1);
    assert(body@ == bytes@.drop_last());
    let m: usize = n - 1;
    if starts_with(body, &set_tag_bytes()) {
        assert(body@.skip(7) == body@.subrange(7, m as int));
        match read_json_pair(slice_subrange(body, 7, m)) {
            Ok(pair) => Ok(KvCommand::Put(pair.0, pair.1)),
            Err(err) => Err(KvError::SerdeError(err)),
        }
    } else if starts_with(body, &get_tag_bytes()) {
        assert(body@.skip(7) == body@.subrange(7, m as int));
        match read_json_text(slice_subrange(body, 7, m)) {
            Ok(key) => Ok(KvCommand::Get(key)),
            Err(err) => Err(KvError::SerdeError(err)),
        }
    } else if starts_with(body, &rm_tag_bytes()) {
        assert(body@.skip(6) == body@.subrange(6, m as int));
        match read_json_text(slice_subrange(body, 6, m)) {
            Ok(key) => Ok(KvCommand::Rm(key)),
            Err(err) => Err(KvError::SerdeError(err)),
        }
    } else {
        Err(frame_error())
    }
}

} // verus!
