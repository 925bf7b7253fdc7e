//! A verified CSV reading library.
//!
//! CSV data is parsed incrementally by the `csv_core` tokenizer, which owns
//! the character-level grammar; everything around it -- record storage,
//! position accounting, the header cache, row-width policy, whitespace
//! trimming and seeking -- is implemented and verified here.
//!
//! The heart of the crate is [`ReaderCore`](reader::ReaderCore), a
//! suspension-free engine that is fed input bytes in chunks of any size, so
//! that a caller may drive it from synchronous or asynchronous byte sources
//! alike. [`MemReader`](reader::MemReader) wraps it around an in-memory buffer.

use vstd::prelude::*;

pub mod byte_record;
pub mod error;
pub mod position;
pub mod reader;
pub mod string_record;
pub mod tokenizer;
pub mod trimming;

pub use byte_record::ByteRecord;
pub use error::{Error, ErrorKind, Utf8Error};
pub use position::Position;
pub use reader::{
    byte_stream_item, string_stream_item, MemReader, ReaderBuilder, ReaderCore, ReaderState,
};
pub use string_record::{FromUtf8Error, StringRecord};

verus! {

/// The quoting style to use when writing CSV data.
#[derive(Clone, Copy, Debug, PartialEq, Eq, Structural)]
pub enum QuoteStyle {
    /// This puts quotes around every field. Always.
    Always,
    /// This puts quotes around fields only when necessary.
    ///
    /// They are necessary when fields contain a quote, delimiter or record
    /// terminator. Quotes are also necessary when writing an empty record
    /// (which is indistinguishable from a record with one empty field).
    ///
    /// This is the default.
    Necessary,
    /// This puts quotes around all fields that are non-numeric. Namely, when
    /// writing a field that does not parse as a valid float or integer, then
    /// quotes will be used even if they aren't strictly necessary.
    NonNumeric,
    /// This *never* writes quotes, even if it would produce invalid CSV data.
    Never,
}

impl Default for QuoteStyle {
    fn default() -> (r: QuoteStyle)
        ensures
            r is Necessary,
    {
        QuoteStyle::Necessary
    }
}

/// A record terminator.
///
/// Use this to specify the record terminator while parsing CSV. The default
/// is CRLF, which treats `\r`, `\n` or `\r\n` as a single record terminator.
#[derive(Clone, Copy, Debug, PartialEq, Eq, Structural)]
pub enum Terminator {
    /// Parses `\r`, `\n` or `\r\n` as a single record terminator.
    CRLF,
    /// Parses the byte given as a record terminator.
    Any(u8),
}

impl Default for Terminator {
    fn default() -> (r: Terminator)
        ensures
            r is CRLF,
    {
        Terminator::CRLF
    }
}

/// The whitespace preservation behavior when reading CSV data.
#[derive(Clone, Copy, Debug, PartialEq, Eq, Structural)]
pub enum Trim {
    /// Preserves fields and headers. This is the default.
    Preserve,
    /// Trim whitespace from headers.
    Headers,
    /// Trim whitespace from fields, but not headers.
    Fields,
    /// Trim whitespace from fields and headers.
    All,
}

impl Trim {
    /// Whether this policy strips whitespace from ordinary (non-header) rows.
    pub fn should_trim_fields(&self) -> (r: bool)
        ensures
            r <==> (*self is Fields || *self is All),
    {
        match self {
            Trim::Fields => true,
            Trim::All => true,
            _ => false,
        }
    }

    /// Whether this policy strips whitespace from the header row.
    pub fn should_trim_headers(&self) -> (r: bool)
        ensures
            r <==> (*self is Headers || *self is All),
    {
        match self {
            Trim::Headers => true,
            Trim::All => true,
            _ => false,
        }
    }
}

impl Default for Trim {
    fn default() -> (r: Trim)
        ensures
            r == Trim::Preserve,
    {
        Trim::Preserve
    }
}

} // verus!
