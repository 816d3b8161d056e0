//! Decoding errors.
use vstd::prelude::*;

verus! {

/// What went wrong in a decode.
#[derive(Clone, Copy, Debug, PartialEq, Eq, Structural)]
pub enum ErrorKind {
    /// A scalar's text does not fit the target primitive.
    Parse,
    /// A tagged union's scalar names none of its variants.
    MissingVariant,
    /// A unit variant was selected but its node has children.
    NotUnitVariant,
    /// A tagged-union encoding or variant form that is not supported.
    Unsupported,
    /// A required record field was not found and has no fallback.
    MissingField,
    /// A tuple's text has fewer elements than the tuple's arity.
    Length,
    /// Any other failure, described by its text.
    Custom,
}

/// The model of an error: its kind and the text it concerns.
pub struct Fail {
    pub kind: ErrorKind,
    pub detail: Seq<char>,
}

/// A decode error: its kind and the text it concerns (the offending scalar,
/// the unmatched variant text, the missing field's name, or a message).
#[derive(Debug)]
pub struct Error {
    kind: ErrorKind,
    detail: String,
}

impl View for Error {
    type V = Fail;

    closed spec fn view(&self) -> Fail {
        Fail { kind: self.kind, detail: self.detail@ }
    }
}

impl Error {
    /// An error of kind `kind` about `detail`.
    pub fn new(kind: ErrorKind, detail: String) -> (r: Error)
        ensures
            r@ == (Fail { kind, detail: detail@ }),
    {
        Error { kind, detail }
    }

    /// A custom error carrying the message `msg`.
    pub fn from_str(msg: &str) -> (r: Error)
        ensures
            r@ == (Fail { kind: ErrorKind::Custom, detail: msg@ }),
    {
        Error { kind: ErrorKind::Custom, detail: String::from_str(msg) }
    }

    /// The kind of this error.
    pub fn kind(&self) -> (r: ErrorKind)
        ensures
            r == self@.kind,
    {
        self.kind
    }

    /// The text this error concerns.
    pub fn detail(&self) -> (r: &str)
        ensures
            r@ == self@.detail,
    {
        self.detail.as_str()
    }
}

} // verus!
