//! The recoverable errors the buffer can report.
use vstd::prelude::*;

verus! {

/// An explicit capacity request was invalid (zero).
#[derive(Debug, Clone, Copy, PartialEq, Eq, Structural)]
pub struct InvalidArgument;

/// An offset was out of range or fell inside a multi-byte character.
#[derive(Debug, Clone, Copy, PartialEq, Eq, Structural)]
pub struct BoundaryViolation;

/// Details of a failed UTF-8 validation: how many leading bytes were
/// well-formed before the first invalid byte.
#[derive(Debug, Clone, Copy, PartialEq, Eq, Structural)]
pub struct Utf8Error {
    valid_up_to: usize,
}

impl Utf8Error {
    /// The number of well-formed bytes before the first invalid one.
    pub closed spec fn spec_valid_up_to(self) -> usize {
        self.valid_up_to
    }

    pub(crate) fn new(valid_up_to: usize) -> (r: Utf8Error)
        ensures
            r.spec_valid_up_to() == valid_up_to,
    {
        Utf8Error { valid_up_to }
    }

    /// The offset of the first invalid byte.
    pub fn valid_up_to(&self) -> (r: usize)
        ensures
            r == self.spec_valid_up_to(),
    {
        self.valid_up_to
    }
}

/// A byte sequence rejected by UTF-8 validation, returned to the caller
/// together with where validation failed.
#[derive(Debug)]
pub struct FromUtf8Error {
    bytes: Vec<u8>,
    error: Utf8Error,
}

impl FromUtf8Error {
    /// The rejected bytes.
    pub closed spec fn spec_bytes(self) -> Seq<u8> {
        self.bytes@
    }

    /// The offset of the first invalid byte.
    pub closed spec fn spec_valid_up_to(self) -> usize {
        self.error.spec_valid_up_to()
    }

    pub(crate) fn new(bytes: Vec<u8>, valid_up_to: usize) -> (r: FromUtf8Error)
        ensures
            r.spec_bytes() == bytes@,
            r.spec_valid_up_to() == valid_up_to,
    {
        FromUtf8Error { bytes, error: Utf8Error::new(valid_up_to) }
    }

    /// Borrows the bytes whose conversion was rejected.
    pub fn as_bytes(&self) -> (r: &[u8])
        ensures
            r@ == self.spec_bytes(),
    {
        self.bytes.as_slice()
    }

    /// Hands the rejected bytes back, consuming the error.
    pub fn into_bytes(self) -> (r: Vec<u8>)
        ensures
            r@ == self.spec_bytes(),
    {
        self.bytes
    }

    /// The validation details.
    pub fn utf8_error(&self) -> (r: Utf8Error)
        ensures
            r.spec_valid_up_to() == self.spec_valid_up_to(),
    {
        self.error
    }
}

} // verus!

