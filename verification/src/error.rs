//! The errors that reading CSV data can produce.

use vstd::prelude::*;

use crate::position::Position;

verus! {

/// `std::io::Error`, as reported by a byte source.
///
/// The type is declared opaquely: the library stores and returns such values
/// but never inspects them.
#[verifier::external_type_specification]
#[verifier::external_body]
pub struct ExIoError(std::io::Error);

/// A UTF-8 validation error, found when building a string record out of a
/// byte record.
#[derive(Clone, Copy, Debug, PartialEq, Eq, Structural)]
pub struct Utf8Error {
    /// The index of the first field with invalid UTF-8.
    pub field: usize,
    /// The number of bytes of that field that are valid UTF-8.
    pub valid_up_to: usize,
}

impl Utf8Error {
    /// The field index at which the UTF-8 error occurred.
    pub fn field(&self) -> (r: usize)
        ensures
            r == self.field,
    {
        self.field
    }

    /// The number of bytes up to which the failing field is valid UTF-8.
    pub fn valid_up_to(&self) -> (r: usize)
        ensures
            r == self.valid_up_to,
    {
        self.valid_up_to
    }
}

/// The specific kind of an [`Error`].
#[derive(Debug)]
pub enum ErrorKind {
    /// An I/O error reported by the underlying byte source.
    Io(std::io::Error),
    /// A record was found with a number of fields different from the number
    /// of fields of the first record.
    UnequalLengths {
        /// The position of this record, if available.
        pos: Option<Position>,
        /// The number of fields of the first record.
        expected_len: u64,
        /// The number of fields of the offending record.
        len: u64,
    },
    /// A single record outgrew the record buffer's addressable capacity.
    /// Reaching this would take a record of more field bytes, or more fields,
    /// than the machine can address.
    RecordTooLarge,
    /// A record contained a field that is not valid UTF-8.
    Utf8 {
        /// The position of this record, if available.
        pos: Option<Position>,
        /// The UTF-8 error, locating the failing field.
        err: Utf8Error,
    },
}

/// An error that occurred while reading CSV data.
#[derive(Debug)]
pub struct Error {
    kind: ErrorKind,
}

impl Error {
    /// The kind of this error.
    pub closed spec fn spec_kind(&self) -> ErrorKind {
        self.kind
    }

    /// Wraps an [`ErrorKind`].
    pub fn new(kind: ErrorKind) -> (r: Error)
        ensures
            r.spec_kind() == kind,
    {
        Error { kind }
    }

    /// Wraps an I/O error of the byte source.
    pub fn io(err: std::io::Error) -> (r: Error)
        ensures
            r.spec_kind() == ErrorKind::Io(err),
    {
        Error { kind: ErrorKind::Io(err) }
    }

    /// A reference to the kind of this error.
    pub fn kind(&self) -> (r: &ErrorKind)
        ensures
            *r == self.spec_kind(),
    {
        &self.kind
    }

    /// Unwraps this error into its kind.
    pub fn into_kind(self) -> (r: ErrorKind)
        ensures
            r == self.spec_kind(),
    {
        self.kind
    }
}

} // verus!
