//! The errors of the store.
use vstd::prelude::*;

verus! {

/// `std::io::Error`, carried through as it is: nothing is known of what it holds.
#[verifier::external_type_specification]
#[verifier::external_body]
pub struct ExIoError(std::io::Error);

/// `serde_json::Error`, carried through as it is: nothing is known of what it holds.
#[verifier::external_type_specification]
#[verifier::external_body]
pub struct ExJsonError(serde_json::Error);

/// What an operation of the store can fail with.
#[derive(Debug)]
pub enum KvError {
    /// A file of the log is not there, or could not be read or written.
    IoError(std::io::Error),
    /// A record of the log is malformed or truncated.
    SerdeError(serde_json::Error),
    /// A rule of the store was broken; the text says which.
    KvError(String),
}

/// The text of the error for a key that is not in the index.
pub open spec fn key_not_found_text() -> Seq<char> {
    "Key not found"@
}

/// The text of the error for an index entry that does not point at a `Set` record.
pub open spec fn inconsistent_text() -> Seq<char> {
    "Inconsistent backing storage"@
}

/// The text of the error for a segment file whose name holds no segment number.
pub open spec fn bad_segment_name_text() -> Seq<char> {
    "Error parsing Int"@
}

impl KvError {
    /// True of the error that `remove` gives for an absent key.
    pub open spec fn is_not_found(self) -> bool {
        self matches KvError::KvError(text) && text@ == key_not_found_text()
    }

    /// True of the error for an index entry that points at something other than a `Set` record.
    pub open spec fn is_inconsistent(self) -> bool {
        self matches KvError::KvError(text) && text@ == inconsistent_text()
    }

    /// True of the error for a segment file name whose number cannot be read.
    pub open spec fn is_bad_segment_name(self) -> bool {
        self matches KvError::KvError(text) && text@ == bad_segment_name_text()
    }

    /// The error for a key that is not in the index.
    pub fn not_found() -> (e: KvError)
        ensures
            e.is_not_found(),
    {
        KvError::KvError("Key not found".to_owned())
    }

    /// The error for an index entry that does not point at a `Set` record.
    pub fn inconsistent() -> (e: KvError)
        ensures
            e.is_inconsistent(),
    {
        KvError::KvError("Inconsistent backing storage".to_owned())
    }

    /// The error for a segment file name whose number cannot be read.
    pub fn bad_segment_name() -> (e: KvError)
        ensures
            e.is_bad_segment_name(),
    {
        KvError::KvError("Error parsing Int".to_owned())
    }

    /// The error as a line of text for the user.
    pub fn message(&self) -> (text: String)
        ensures
            self matches KvError::KvError(m) ==> text@ == m@,
            self is IoError ==> "IO error: "@.is_prefix_of(text@),
            self is SerdeError ==> "Serde error: "@.is_prefix_of(text@),
    {
        match self {
            KvError::IoError(err) => io_error_text(err),
            KvError::SerdeError(err) => codec_error_text(err),
            KvError::KvError(msg) => msg.clone(),
        }
    }
}

impl From<std::io::Error> for KvError {
    fn from(error: std::io::Error) -> (e: KvError) {
        KvError::IoError(error)
    }
}

impl vstd::std_specs::convert::FromSpecImpl<std::io::Error> for KvError {
    open spec fn obeys_from_spec() -> bool {
        true
    }

    open spec fn from_spec(error: std::io::Error) -> KvError {
        KvError::IoError(error)
    }
}

impl From<serde_json::Error> for KvError {
    fn from(error: serde_json::Error) -> (e: KvError) {
        KvError::SerdeError(error)
    }
}

impl vstd::std_specs::convert::FromSpecImpl<serde_json::Error> for KvError {
    open spec fn obeys_from_spec() -> bool {
        true
    }

    open spec fn from_spec(error: serde_json::Error) -> KvError {
        KvError::SerdeError(error)
    }
}

/// Makes the `std::io::Error` of the kind `NotFound`, with
/// `std::io::Error::from`. Nothing is said of the error.
#[verifier::external_body]
pub(crate) fn missing_file() -> std::io::Error {
    std::io::Error::from(std::io::ErrorKind::NotFound)
}

/// Formats a `std::io::Error` with `format!`, behind the words `IO error: `.
/// What the error itself prints depends on the platform, so nothing is said of it.
#[verifier::external_body]
fn io_error_text(err: &std::io::Error) -> (text: String)
    ensures
        "IO error: "@.is_prefix_of(text@),
{
    format!("IO error: {}", err)
}

/// Formats a `serde_json::Error` with `format!`, behind the words `Serde error: `.
/// Nothing is said of what the error itself prints.
#[verifier::external_body]
fn codec_error_text(err: &serde_json::Error) -> (text: String)
    ensures
        "Serde error: "@.is_prefix_of(text@),
{
    format!("Serde error: {}", err)
}

} // verus!
