//! Error values reported by the cache engine.

use vstd::prelude::*;

verus! {

broadcast use vstd::string::to_string_from_display_ensures_for_str;

/// The classes of failure the cache engine distinguishes.
///
/// `IoError` stands for a byte stream that ends in the middle of a header or
/// an entry; `InvalidInput` for inputs that cannot be combined (a version
/// mismatch between files, an unsupported migration step); `InvalidData` for
/// a malformed file (bad magic, unrecognized version) or corrupted payload
/// bytes, and for a merge that yields no valid entries at all.
#[derive(Clone, Copy, PartialEq, Eq, Structural, Debug)]
pub enum ErrorKind {
    IoError,
    InvalidInput,
    InvalidData,
}

/// A fatal failure: a machine-readable kind plus a human-readable message.
#[derive(Debug)]
pub struct Error {
    kind: ErrorKind,
    message: String,
}

impl Error {
    /// The kind stored in this error.
    pub closed spec fn spec_kind(self) -> ErrorKind {
        self.kind
    }

    /// The message stored in this error.
    pub closed spec fn spec_message(self) -> Seq<char> {
        self.message@
    }

    pub fn new(kind: ErrorKind, message: &str) -> (e: Error)
        ensures
            e.spec_kind() == kind,
            e.spec_message() == message@,
    {
        Error { kind, message: message.to_string() }
    }

    pub fn kind(&self) -> (k: ErrorKind)
        ensures
            k == self.spec_kind(),
    {
        self.kind
    }

    /// The human-readable message, for callers that report failures.
    pub fn message(&self) -> (m: &str)
        ensures
            m@ == self.spec_message(),
    {
        self.message.as_str()
    }
}

} // verus!
