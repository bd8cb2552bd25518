//! The two kinds of failure a caller can see.

use vstd::prelude::*;

verus! {

/// The bytes of the compact JSON object with the single member `key`, whose
/// value is the string `value`, as `serde_json` writes it.
pub uninterp spec fn json_member_text(key: Seq<char>, value: Seq<char>) -> Seq<u8>;

/// Calls `serde_json::to_vec` on the object `{key: value}` built from the two
/// strings.  The contract claims only that the bytes are a function of the
/// two strings: `serde_json` writes a value the same way every time.  If
/// writing fails, the result is empty.
#[verifier::external_body]
fn json_member(key: &str, value: &str) -> (bytes: Vec<u8>)
    ensures
        bytes@ == json_member_text(key@, value@),
{
    let mut object = serde_json::Map::new();
    object.insert(key.to_string(), serde_json::Value::String(value.to_string()));
    serde_json::to_vec(&serde_json::Value::Object(object)).unwrap_or_default()
}

/// What went wrong, as far as a caller needs to know.
#[derive(Clone, Copy, Debug, PartialEq, Eq, Structural)]
pub enum ErrorKind {
    /// The request is malformed or out of range.  The caller can correct it.
    InvalidInput,
    /// An internal invariant was found broken.  No detail is given out.
    InternalFault,
}

/// A failure with the text that is shown to the caller.
#[derive(Debug)]
pub struct AppError {
    pub kind: ErrorKind,
    pub message: String,
}

impl AppError {
    pub fn new(kind: ErrorKind, message: &str) -> (e: AppError)
        ensures
            e.kind == kind,
            e.message@ == message@,
    {
        AppError { kind, message: message.to_owned() }
    }

    /// The failure reported for a broken internal invariant: it carries no
    /// text at all.
    pub fn internal() -> (e: AppError)
        ensures
            e.kind == ErrorKind::InternalFault,
            e.message@ == Seq::<char>::empty(),
    {
        AppError { kind: ErrorKind::InternalFault, message: String::new() }
    }

    pub fn kind(&self) -> (k: ErrorKind)
        ensures
            k == self.kind,
    {
        self.kind
    }

    pub fn message(&self) -> (m: &str)
        ensures
            m@ == self.message@,
    {
        self.message.as_str()
    }

    /// The body of the response that reports this failure: a JSON object
    /// whose member `error` holds the text.
    pub fn body(&self) -> (bytes: Vec<u8>)
        ensures
            bytes@ == json_member_text("error"@, self.message@),
    {
        json_member("error", self.message.as_str())
    }

    /// The HTTP status that stands for this failure: 400 for a request the
    /// caller can correct, 500 otherwise.
    pub fn status_code(&self) -> (code: u16)
        ensures
            code == match self.kind {
                ErrorKind::InvalidInput => 400u16,
                ErrorKind::InternalFault => 500u16,
            },
    {
        match self.kind {
            ErrorKind::InvalidInput => 400,
            ErrorKind::InternalFault => 500,
        }
    }
}

} // verus!
