//! The location of a record within CSV data.

use vstd::prelude::*;

verus! {

/// A position in CSV data.
///
/// A position is used to report errors in CSV data. All positions include the
/// byte offset, line number and record index at which the error occurred.
///
/// Byte offsets and record indices start at `0`. Line numbers start at `1`.
/// A position points at the byte immediately preceding the start of a record.
#[derive(Clone, Copy, Debug, PartialEq, Eq, Structural)]
pub struct Position {
    /// The byte offset, starting at `0`.
    pub byte: u64,
    /// The line number, starting at `1`.
    pub line: u64,
    /// The record index, starting at `0`.
    pub record: u64,
}

impl Position {
    /// Returns a new position initialized to the start value.
    pub fn new() -> (r: Position)
        ensures
            r.byte == 0,
            r.line == 1,
            r.record == 0,
    {
        Position { byte: 0, line: 1, record: 0 }
    }

    /// The byte offset, starting at `0`, of this position.
    pub fn byte(&self) -> (r: u64)
        ensures
            r == self.byte,
    {
        self.byte
    }

    /// The line number, starting at `1`, of this position.
    pub fn line(&self) -> (r: u64)
        ensures
            r == self.line,
    {
        self.line
    }

    /// The record index, starting with the first record at `0`.
    pub fn record(&self) -> (r: u64)
        ensures
            r == self.record,
    {
        self.record
    }

    /// Set the byte offset of this position.
    pub fn set_byte(&mut self, byte: u64)
        ensures
            *final(self) == (Position { byte, ..*old(self) }),
    {
        self.byte = byte;
    }

    /// Set the line number of this position.
    pub fn set_line(&mut self, line: u64)
        ensures
            *final(self) == (Position { line, ..*old(self) }),
    {
        self.line = line;
    }

    /// Set the record index of this position.
    pub fn set_record(&mut self, record: u64)
        ensures
            *final(self) == (Position { record, ..*old(self) }),
    {
        self.record = record;
    }
}

} // verus!
