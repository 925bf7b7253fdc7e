//! The CSV reader: state machine, incremental engine and in-memory reader.

use vstd::prelude::*;
use vstd::slice::{slice_subrange, slice_to_vec};

use crate::byte_record::{is_ascii_ws, ByteRecord};
use crate::error::{Error, ErrorKind, Utf8Error};
use crate::position::Position;
use crate::string_record::{is_unicode_ws, valid_prefix_len, StringRecord};
use crate::tokenizer::{
    line_of, outpos_of, tok_ends_of, tok_line, tok_new, tok_next_of, tok_nin_of, tok_out_of,
    tok_read, tok_reset, tok_set_line, tok_step_of, ParseStep,
};
use crate::trimming::{lemma_trim_rows_fixed, lemma_trim_seq_idempotent, trim_rows, trim_seq};
use crate::{Terminator, Trim};
use vstd::utf8::{decode_utf8, encode_utf8, valid_utf8};

verus! {

/// `a + n`, saturating at `u64::MAX`.
pub open spec fn sat_add_u64(a: u64, n: int) -> u64 {
    if a + n > u64::MAX {
        u64::MAX
    } else {
        (a + n) as u64
    }
}

/// Saturating addition chains collapse into one saturating addition.
pub proof fn lemma_sat_add_u64_chain(a: u64, m: int, n: int)
    requires
        m >= 0,
        n >= 0,
    ensures
        sat_add_u64(sat_add_u64(a, m), n) == sat_add_u64(a, m + n),
{
}

/// Executable saturating addition, matching [`sat_add_u64`].
fn sat_add(a: u64, b: u64) -> (r: u64)
    ensures
        r == sat_add_u64(a, b as int),
{
    if a > u64::MAX - b {
        u64::MAX
    } else {
        a + b
    }
}

/// The cached header row: the first logical row of the data, in byte form
/// and in (fallibly validated) string form.
pub struct Headers {
    /// The header row, as raw bytes.
    pub byte_record: ByteRecord,
    /// The header row as valid UTF-8, or the validation error found when the
    /// string form was derived from the byte form.
    pub string_record: Result<StringRecord, Utf8Error>,
}

/// The mutable state a reader threads through every operation.
pub struct ReaderState {
    /// The first row of the data, captured once, in both forms. Populated
    /// regardless of `has_headers`.
    pub headers: Option<Headers>,
    /// When set, the first row is withheld from record reads.
    pub has_headers: bool,
    /// When set, rows may differ in width; when clear, every row must have
    /// as many fields as the first row.
    pub flexible: bool,
    /// The whitespace trimming policy.
    pub trim: Trim,
    /// The number of fields of the first row read, fixed once known.
    pub first_field_count: Option<u64>,
    /// The current position: where the next row starts.
    pub cur_pos: Position,
    /// Whether a row read has yielded row 0 yet.
    pub first: bool,
    /// Whether this reader has ever been seeked.
    pub seeked: bool,
    /// Whether the tokenizer has reported the end of the data.
    pub eof: bool,
}

impl ReaderState {
    /// Counts one finished row: advances the record index and, when width
    /// checking is on, fixes the expected width from the first row or holds
    /// `record` to it.
    ///
    /// Exactly the rows that break the fixed width are rejected, with an
    /// error carrying the expected width, the actual width and the record's
    /// position; a flexible reader never rejects a row.
    pub fn add_record(&mut self, record: &ByteRecord) -> (r: Result<(), Error>)
        ensures
            final(self).cur_pos.record == sat_add_u64(old(self).cur_pos.record, 1),
            final(self).cur_pos.byte == old(self).cur_pos.byte,
            final(self).cur_pos.line == old(self).cur_pos.line,
            final(self).headers == old(self).headers,
            final(self).has_headers == old(self).has_headers,
            final(self).flexible == old(self).flexible,
            final(self).trim == old(self).trim,
            final(self).first == old(self).first,
            final(self).seeked == old(self).seeked,
            final(self).eof == old(self).eof,
            old(self).flexible ==> r is Ok && final(self).first_field_count == old(self).first_field_count,
            !old(self).flexible && old(self).first_field_count is None ==> r is Ok
                && final(self).first_field_count == Some(record@.len() as u64),
            old(self).first_field_count matches Some(e) ==> (!old(self).flexible ==> {
                &&& final(self).first_field_count == old(self).first_field_count
                &&& (record@.len() as u64 == e <==> r is Ok)
                &&& (r matches Err(err) ==> (err.spec_kind() matches ErrorKind::UnequalLengths {
                    pos,
                    expected_len,
                    len,
                } && pos == record.spec_position() && expected_len == e && len == record@.len()
                    as u64))
            }),
    {
        let i = self.cur_pos.record();
        self.cur_pos.set_record(sat_add(i, 1));
        if !self.flexible {
            match self.first_field_count {
                None => {
                    self.first_field_count = Some(record.len() as u64);
                },
                Some(expected) => {
                    if record.len() as u64 != expected {
                        return Err(
                            Error::new(
                                ErrorKind::UnequalLengths {
                                    pos: record.position(),
                                    expected_len: expected,
                                    len: record.len() as u64,
                                },
                            ),
                        );
                    }
                },
            }
        }
        Ok(())
    }
}

impl ReaderState {
    /// Caches the given row as the header row, deriving the missing form:
    /// bytes by UTF-8 encoding, or strings by UTF-8 validation (keeping the
    /// validation error, if one is found, without discarding the bytes). When
    /// the policy asks for header trimming both forms are trimmed, each by
    /// its own notion of whitespace; validation happens before trimming.
    fn set_headers_impl(&mut self, headers: Result<StringRecord, ByteRecord>)
        ensures
            *final(self) == (ReaderState { headers: final(self).headers, ..*old(self) }),
            final(self).headers matches Some(h) && match headers {
                Ok(s) => {
                    &&& (h.string_record matches Ok(s2) && s2@ == (if trims_headers(*old(self)) {
                        trim_rows(s@, |c: char| is_unicode_ws(c))
                    } else {
                        s@
                    }) && s2.spec_position() == s.spec_position())
                    &&& h.byte_record@.len() == s@.len()
                    &&& (forall|i: int|
                        0 <= i < s@.len() ==> #[trigger] h.byte_record@[i] == (if trims_headers(
                            *old(self),
                        ) {
                            trim_seq(encode_utf8(s@[i]), |b: u8| is_ascii_ws(b))
                        } else {
                            encode_utf8(s@[i])
                        }))
                    &&& h.byte_record.spec_position() == s.spec_position()
                },
                Err(b) => {
                    &&& h.byte_record@ == (if trims_headers(*old(self)) {
                        trim_rows(b@, |x: u8| is_ascii_ws(x))
                    } else {
                        b@
                    })
                    &&& h.byte_record.spec_position() == b.spec_position()
                    &&& match h.string_record {
                        Ok(s2) => {
                            &&& s2@.len() == b@.len()
                            &&& (forall|i: int|
                                0 <= i < b@.len() ==> valid_utf8(#[trigger] b@[i]) && s2@[i] == (
                                if trims_headers(*old(self)) {
                                    trim_seq(decode_utf8(b@[i]), |c: char| is_unicode_ws(c))
                                } else {
                                    decode_utf8(b@[i])
                                }))
                            &&& s2.spec_position() == b.spec_position()
                        },
                        Err(u) => {
                            &&& (u.field as int) < b@.len()
                            &&& !valid_utf8(b@[u.field as int])
                            &&& (forall|k: int| 0 <= k < u.field ==> valid_utf8(#[trigger] b@[k]))
                            &&& u.valid_up_to == valid_prefix_len(b@[u.field as int])
                        },
                    }
                },
            },
    {
        let trim_h = self.trim.should_trim_headers();
        let (mut str_headers, mut byte_headers): (Result<StringRecord, Utf8Error>, ByteRecord) =
            match headers {
            Ok(string) => {
                let bytes = string.clone().into_byte_record();
                (Ok(string), bytes)
            },
            Err(bytes) => {
                match StringRecord::from_byte_record(bytes.clone()) {
                    Ok(s) => (Ok(s), bytes),
                    Err(e) => {
                        let u = *e.utf8_error();
                        (Err(u), bytes)
                    },
                }
            },
        };
        if trim_h {
            match &mut str_headers {
                Ok(s) => {
                    s.trim();
                },
                Err(_) => {},
            }
            byte_headers.trim();
        }
        self.headers = Some(Headers { byte_record: byte_headers, string_record: str_headers });
    }
}

/// Builds a CSV reader with various configuration knobs.
///
/// The builder can tweak the field delimiter, record terminator and more.
/// Once a reader is built, its configuration cannot be changed.
#[derive(Clone, Copy, Debug)]
pub struct ReaderBuilder {
    /// The byte-source buffer capacity a driving loop should use.
    pub capacity: usize,
    /// Whether rows may differ in width.
    pub flexible: bool,
    /// Whether the first row is withheld from record reads.
    pub has_headers: bool,
    /// The whitespace trimming policy.
    pub trim: Trim,
    /// The field delimiter byte.
    pub delimiter: u8,
    /// The record terminator.
    pub terminator: Terminator,
    /// The quote byte.
    pub quote: u8,
    /// The escape byte, if escapes are recognized.
    pub escape: Option<u8>,
    /// Whether doubled quotes are read as escaped quotes.
    pub double_quote: bool,
    /// Whether quotes are treated specially at all.
    pub quoting: bool,
    /// The comment byte: a row starting with it is skipped.
    pub comment: Option<u8>,
}

impl ReaderBuilder {
    /// Returns a builder holding the default configuration: comma-delimited,
    /// CRLF-terminated, double-quoted CSV with headers, fixed row width, no
    /// trimming and an 8 KiB buffer.
    pub fn new() -> (r: ReaderBuilder)
        ensures
            r == ReaderBuilder::default_spec(),
    {
        ReaderBuilder {
            capacity: 8 * 1024,
            flexible: false,
            has_headers: true,
            trim: Trim::Preserve,
            delimiter: 0x2C,  // b','
            terminator: Terminator::CRLF,
            quote: 0x22,  // b'"'
            escape: None,
            double_quote: true,
            quoting: true,
            comment: None,
        }
    }

    /// The default configuration, as a value.
    pub open spec fn default_spec() -> ReaderBuilder {
        ReaderBuilder {
            capacity: (8 * 1024) as usize,
            flexible: false,
            has_headers: true,
            trim: Trim::Preserve,
            delimiter: 0x2C,  // b','
            terminator: Terminator::CRLF,
            quote: 0x22,  // b'"'
            escape: None,
            double_quote: true,
            quoting: true,
            comment: None,
        }
    }

    /// The field delimiter to use when parsing CSV. The default is `b','`.
    pub fn delimiter(&mut self, delimiter: u8)
        ensures
            *final(self) == (ReaderBuilder { delimiter, ..*old(self) }),
    {
        self.delimiter = delimiter;
    }

    /// Whether to treat the first row as a special header row. Enabled by
    /// default.
    pub fn has_headers(&mut self, yes: bool)
        ensures
            *final(self) == (ReaderBuilder { has_headers: yes, ..*old(self) }),
    {
        self.has_headers = yes;
    }

    /// Whether the number of fields in records is allowed to change. Disabled
    /// by default.
    pub fn flexible(&mut self, yes: bool)
        ensures
            *final(self) == (ReaderBuilder { flexible: yes, ..*old(self) }),
    {
        self.flexible = yes;
    }

    /// The whitespace trimming policy. The default preserves all whitespace.
    pub fn trim(&mut self, trim: Trim)
        ensures
            *final(self) == (ReaderBuilder { trim, ..*old(self) }),
    {
        self.trim = trim;
    }

    /// The record terminator to use when parsing CSV. The default treats
    /// `\r`, `\n` and `\r\n` as terminators.
    pub fn terminator(&mut self, terminator: Terminator)
        ensures
            *final(self) == (ReaderBuilder { terminator, ..*old(self) }),
    {
        self.terminator = terminator;
    }

    /// The quote character to use when parsing CSV. The default is `b'"'`.
    pub fn quote(&mut self, quote: u8)
        ensures
            *final(self) == (ReaderBuilder { quote, ..*old(self) }),
    {
        self.quote = quote;
    }

    /// The escape character to use. Disabled by default.
    pub fn escape(&mut self, escape: Option<u8>)
        ensures
            *final(self) == (ReaderBuilder { escape, ..*old(self) }),
    {
        self.escape = escape;
    }

    /// Enable double quote escapes. Enabled by default.
    pub fn double_quote(&mut self, yes: bool)
        ensures
            *final(self) == (ReaderBuilder { double_quote: yes, ..*old(self) }),
    {
        self.double_quote = yes;
    }

    /// Enable or disable quoting. Enabled by default.
    pub fn quoting(&mut self, yes: bool)
        ensures
            *final(self) == (ReaderBuilder { quoting: yes, ..*old(self) }),
    {
        self.quoting = yes;
    }

    /// The comment character: a row beginning with this byte is skipped.
    /// Disabled by default.
    pub fn comment(&mut self, comment: Option<u8>)
        ensures
            *final(self) == (ReaderBuilder { comment, ..*old(self) }),
    {
        self.comment = comment;
    }

    /// A convenience preset for ASCII-delimited text: the delimiter becomes
    /// the unit separator (`0x1F`) and the terminator the record separator
    /// (`0x1E`).
    pub fn ascii(&mut self)
        ensures
            *final(self) == (ReaderBuilder {
                delimiter: 0x1F,
                terminator: Terminator::Any(0x1E),
                ..*old(self)
            }),
    {
        self.delimiter = 0x1F;
        self.terminator = Terminator::Any(0x1E);
    }

    /// The capacity (in bytes) of the buffer a driving loop should use for
    /// its byte source. Defaults to 8 KiB.
    pub fn buffer_capacity(&mut self, capacity: usize)
        ensures
            *final(self) == (ReaderBuilder { capacity, ..*old(self) }),
    {
        self.capacity = capacity;
    }

    /// The configured buffer capacity.
    pub fn capacity(&self) -> (r: usize)
        ensures
            r == self.capacity,
    {
        self.capacity
    }

    /// The fresh reader state this configuration starts with.
    pub open spec fn initial_state(self) -> ReaderState {
        ReaderState {
            headers: None,
            has_headers: self.has_headers,
            flexible: self.flexible,
            trim: self.trim,
            first_field_count: None,
            cur_pos: Position { byte: 0, line: 1, record: 0 },
            first: false,
            seeked: false,
            eof: false,
        }
    }

    /// Builds the incremental reading engine from this configuration.
    pub fn build_core(&self) -> (r: ReaderCore)
        ensures
            r.wf(),
            r.is_idle(),
            r.spec_state() == self.initial_state(),
            forall|f: nat| (#[trigger] r.raw_state_model(Seq::empty(), f)) is None
                || r.raw_state_model(Seq::empty(), f) matches Some(RawOutcome::End { rest, tok }),
    {
        ReaderCore {
            tok: tok_new(
                self.delimiter,
                self.terminator,
                self.quote,
                self.escape,
                self.double_quote,
                self.quoting,
                self.comment,
            ),
            state: ReaderState {
                headers: None,
                has_headers: self.has_headers,
                flexible: self.flexible,
                trim: self.trim,
                first_field_count: None,
                cur_pos: Position::new(),
                first: false,
                seeked: false,
                eof: false,
            },
            out: Vec::new(),
            ends: Vec::new(),
            outlen: 0,
            endlen: 0,
            phase: Phase::Idle,
            row_pos: Position::new(),
        }
    }

    /// Builds a reader that parses the given in-memory CSV data.
    pub fn from_bytes(&self, data: Vec<u8>) -> (r: MemReader)
        ensures
            r.wf(),
            r.spec_state() == self.initial_state(),
            r.spec_input() == data@,
            data@.len() == 0 ==> forall|f: nat| (#[trigger] r.spec_model(f)) is None
                || r.spec_model(f) matches Some(RawOutcome::End { rest, tok }),
    {
        let r = MemReader { core: self.build_core(), input: data, input_pos: 0 };
        proof {
            if r.input@.len() == 0 {
                assert(r.spec_rest() =~= Seq::<u8>::empty());
            }
        }
        r
    }
}

impl Default for ReaderBuilder {
    /// The default configuration.
    fn default() -> (r: ReaderBuilder)
        ensures
            r == ReaderBuilder::default_spec(),
    {
        ReaderBuilder::new()
    }
}

/// Whether the next row read will yield the cached header row instead of
/// parsing: the reader was told the data has no header row, a header row was
/// nevertheless captured (by an explicit header query), no row has been
/// yielded yet, and no seek has disturbed what "first row" means. The one
/// physical first row is then never lost merely because headers were queried
/// before reading.
pub open spec fn yields_cached_header(s: ReaderState) -> bool {
    !s.seeked && !s.has_headers && !s.first && s.headers is Some
}

/// The header cache's two forms agree: when the string form validated, it
/// has exactly as many fields as the byte form. (Each string field is the
/// decoding of the corresponding pre-trim byte field, so the counts match.)
pub open spec fn headers_consistent(s: ReaderState) -> bool {
    s.headers matches Some(h) ==> (h.string_record matches Ok(sr) ==> sr@.len()
        == h.byte_record@.len())
}

/// Whether rows of `s` are to be stripped of whitespace.
pub open spec fn trims_fields(s: ReaderState) -> bool {
    s.trim is Fields || s.trim is All
}

/// Whether the header row of `s` is to be stripped of whitespace.
pub open spec fn trims_headers(s: ReaderState) -> bool {
    s.trim is Headers || s.trim is All
}

/// The size a record buffer store has after one growth step: doubled, at
/// least 4 entries, saturating at the largest addressable size.
pub open spec fn grown_cap(n: int) -> int {
    if n < 4 {
        4
    } else if n <= usize::MAX / 2 {
        2 * n
    } else {
        usize::MAX as int
    }
}

/// Doubles a record buffer store (at least to 4 entries), filling new space
/// with `fill`; once the store can no longer double it saturates at the
/// largest addressable size. What was written is untouched.
fn grow_store<T: Copy>(v: &mut Vec<T>, fill: T)
    ensures
        final(v)@.len() == grown_cap(old(v)@.len() as int),
        final(v)@.len() >= old(v)@.len(),
        final(v)@.len() <= usize::MAX,
        old(v)@.len() < usize::MAX ==> final(v)@.len() > old(v)@.len(),
        forall|k: int| 0 <= k < old(v)@.len() ==> final(v)@[k] == old(v)@[k],
{
    let n = v.len();
    let new_len: usize = if n < 4 {
        4
    } else if n <= usize::MAX / 2 {
        2 * n
    } else {
        usize::MAX
    };
    v.resize(new_len, fill);
    proof {
        if new_len > old(v)@.len() {
            assert forall|k: int| 0 <= k < old(v)@.len() implies v@[k] == old(v)@[k] by {
                assert(v@.subrange(0, old(v)@.len() as int) == old(v)@);
                assert(v@.subrange(0, old(v)@.len() as int)[k] == v@[k]);
            }
        } else {
            assert(v@ == old(v)@.subrange(0, new_len as int));
            assert(v@ =~= old(v)@);
        }
    }
}

/// The recorded field end offsets, as mathematical integers.
pub open spec fn ends_ints(ends: Seq<usize>, n: int) -> Seq<int> {
    Seq::new(n as nat, |i: int| ends[i] as int)
}

/// The fields of a record whose bytes sit concatenated in `out` with one end
/// offset per field: field `i` is the bytes between the previous end and its
/// own.
pub open spec fn split_row(out: Seq<u8>, ends: Seq<int>) -> Seq<Seq<u8>> {
    Seq::new(
        ends.len(),
        |i: int|
            out.subrange(
                if i == 0 {
                    0
                } else {
                    ends[i - 1]
                },
                ends[i],
            ),
    )
}

/// What reading one raw row from given tokenizer state, input bytes and
/// record buffer comes to, as determined by the named tokenizer outcomes:
/// the result of [`raw_model`].
pub enum RawOutcome {
    /// The input was exhausted (and then some) without completing a row.
    Pending,
    /// The record buffer cannot grow further.
    Saturated,
    /// A row completed.
    Row {
        /// The row's fields.
        fields: Seq<Seq<u8>>,
        /// The input left unconsumed.
        rest: Seq<u8>,
        /// The tokenizer state left behind.
        tok: csv_core::Reader,
        /// The byte store's size after this row's growth steps.
        out_cap: int,
        /// The end store's size after this row's growth steps.
        ends_cap: int,
    },
    /// The end of the data.
    End {
        /// The input left unconsumed.
        rest: Seq<u8>,
        /// The tokenizer state left behind.
        tok: csv_core::Reader,
    },
}

/// The outcome of reading one raw row: feed `rest` to the tokenizer (an
/// exhausted input keeps feeding empty input, as a driving loop does once
/// its source dries up), growing the record buffer stores whenever the
/// tokenizer asks, until a row completes, the data ends, or the stores
/// saturate. `fuel` bounds the number of tokenizer calls; a run that needs
/// more returns `None`, and any two sufficient fuels agree
/// ([`lemma_raw_model_frame`]).
pub open spec fn raw_model(
    tok: csv_core::Reader,
    rest: Seq<u8>,
    out: Seq<u8>,
    out_cap: int,
    ends: Seq<int>,
    ends_cap: int,
    fuel: nat,
) -> Option<RawOutcome>
    decreases fuel,
{
    if fuel == 0 {
        None
    } else {
        let oc = if out.len() == out_cap {
            grown_cap(out_cap)
        } else {
            out_cap
        };
        let ec = if ends.len() == ends_cap {
            grown_cap(ends_cap)
        } else {
            ends_cap
        };
        if out.len() == oc || ends.len() == ec {
            Some(RawOutcome::Saturated)
        } else {
            let step = tok_step_of(tok, rest, oc - out.len(), ec - ends.len());
            let nin = tok_nin_of(tok, rest, oc - out.len(), ec - ends.len());
            let out2 = out + tok_out_of(tok, rest, oc - out.len(), ec - ends.len());
            let ends2 = ends + tok_ends_of(tok, rest, oc - out.len(), ec - ends.len());
            let tok2 = tok_next_of(tok, rest, oc - out.len(), ec - ends.len());
            let rest2 = if 0 <= nin <= rest.len() {
                rest.skip(nin)
            } else {
                Seq::empty()
            };
            match step {
                ParseStep::Record => Some(
                    RawOutcome::Row {
                        fields: split_row(out2, ends2),
                        rest: rest2,
                        tok: tok2,
                        out_cap: oc,
                        ends_cap: ec,
                    },
                ),
                ParseStep::End => Some(RawOutcome::End { rest: rest2, tok: tok2 }),
                _ => raw_model(tok2, rest2, out2, oc, ends2, ec, (fuel - 1) as nat),
            }
        }
    }
}

/// Fuel only decides whether [`raw_model`] finishes, never what it returns:
/// a run that finished at some fuel returns the same outcome at any larger
/// fuel. In particular any two finished runs agree, so "the" raw-read
/// outcome is well defined.
pub proof fn lemma_raw_model_frame(
    tok: csv_core::Reader,
    rest: Seq<u8>,
    out: Seq<u8>,
    out_cap: int,
    ends: Seq<int>,
    ends_cap: int,
    f1: nat,
    f2: nat,
)
    requires
        f1 <= f2,
        raw_model(tok, rest, out, out_cap, ends, ends_cap, f1) is Some,
    ensures
        raw_model(tok, rest, out, out_cap, ends, ends_cap, f2) == raw_model(
            tok,
            rest,
            out,
            out_cap,
            ends,
            ends_cap,
            f1,
        ),
    decreases f1,
{
    let oc = if out.len() == out_cap {
        grown_cap(out_cap)
    } else {
        out_cap
    };
    let ec = if ends.len() == ends_cap {
        grown_cap(ends_cap)
    } else {
        ends_cap
    };
    if !(out.len() == oc || ends.len() == ec) {
        let step = tok_step_of(tok, rest, oc - out.len(), ec - ends.len());
        if !(step is Record) && !(step is End) {
            let nin = tok_nin_of(tok, rest, oc - out.len(), ec - ends.len());
            let out2 = out + tok_out_of(tok, rest, oc - out.len(), ec - ends.len());
            let ends2 = ends + tok_ends_of(tok, rest, oc - out.len(), ec - ends.len());
            let tok2 = tok_next_of(tok, rest, oc - out.len(), ec - ends.len());
            let rest2 = if 0 <= nin <= rest.len() {
                rest.skip(nin)
            } else {
                Seq::empty()
            };
            lemma_raw_model_frame(
                tok2,
                rest2,
                out2,
                oc,
                ends2,
                ec,
                (f1 - 1) as nat,
                (f2 - 1) as nat,
            );
        }
    }
}

/// The raw-read outcome `m` is a completed row whose fields, trimmed by the
/// field policy of `s`, are `rec`, leaving `rest_after` unconsumed.
pub open spec fn row_read_ok(
    m: Option<RawOutcome>,
    trim: bool,
    rec: Seq<Seq<u8>>,
    rest_after: Seq<u8>,
) -> bool {
    m matches Some(RawOutcome::Row { fields, rest, tok, out_cap, ends_cap }) && rec == (if trim {
        trim_rows(fields, |b: u8| is_ascii_ws(b))
    } else {
        fields
    }) && rest == rest_after
}

/// The raw-read outcome `m` is a completed row whose fields, untrimmed, are
/// `rec`, leaving `rest_after` unconsumed.
pub open spec fn row_read_raw(m: Option<RawOutcome>, rec: Seq<Seq<u8>>, rest_after: Seq<u8>) -> bool {
    m matches Some(RawOutcome::Row { fields, rest, tok, out_cap, ends_cap }) && rec == fields
        && rest == rest_after
}

/// The raw-read outcome `m` is the end of the data, leaving `rest_after`
/// unconsumed.
pub open spec fn row_read_end(m: Option<RawOutcome>, rest_after: Seq<u8>) -> bool {
    m matches Some(RawOutcome::End { rest, tok }) && rest == rest_after
}

/// The raw-read outcome `m` is a completed row that, validated as UTF-8
/// after byte-level trimming and then trimmed of Unicode whitespace (each as
/// the field policy of `s` asks), gives the string row `rec`, leaving
/// `rest_after` unconsumed.
pub open spec fn row_read_strings_ok(
    m: Option<RawOutcome>,
    trim: bool,
    rec: Seq<Seq<char>>,
    rest_after: Seq<u8>,
) -> bool {
    m matches Some(RawOutcome::Row { fields, rest, tok, out_cap, ends_cap }) && rest == rest_after
        && {
        let brow = if trim {
            trim_rows(fields, |b: u8| is_ascii_ws(b))
        } else {
            fields
        };
        &&& rec.len() == brow.len()
        &&& (forall|i: int|
            0 <= i < brow.len() ==> valid_utf8(#[trigger] brow[i]) && rec[i] == (if trim {
                trim_seq(decode_utf8(brow[i]), |c: char| is_unicode_ws(c))
            } else {
                decode_utf8(brow[i])
            }))
    }
}

/// The raw-read outcome `m` is a completed row that became the header cache
/// `h` of a reader with policy `s`: the byte form is the row trimmed by the
/// header policy, and the string form (when it validated) is the decoded row,
/// trimmed likewise. `rest_after` is left unconsumed.
pub open spec fn header_read_ok(
    m: Option<RawOutcome>,
    trim: bool,
    h: Headers,
    rest_after: Seq<u8>,
) -> bool {
    m matches Some(RawOutcome::Row { fields, rest, tok, out_cap, ends_cap }) && rest == rest_after
        && h.byte_record@ == (if trim {
        trim_rows(fields, |b: u8| is_ascii_ws(b))
    } else {
        fields
    }) && (h.string_record matches Ok(sr) ==> sr@.len() == fields.len() && forall|i: int|
        0 <= i < fields.len() ==> valid_utf8(#[trigger] fields[i]) && sr@[i] == (if trim {
            trim_seq(decode_utf8(fields[i]), |c: char| is_unicode_ws(c))
        } else {
            decode_utf8(fields[i])
        }))
}

/// The raw-read outcome `m` is the end of the data, recorded as a zero-field
/// header cache `h`, leaving `rest_after` unconsumed.
pub open spec fn header_read_end(m: Option<RawOutcome>, h: Headers, rest_after: Seq<u8>) -> bool {
    m matches Some(RawOutcome::End { rest, tok }) && rest == rest_after && h.byte_record@.len()
        == 0
}

/// The raw-read outcome `m` is a completed first row whose fields, trimmed
/// by the header policy, became the byte form of the header cache `hcache`.
pub open spec fn captured_headers(
    m: Option<RawOutcome>,
    trim: bool,
    hcache: Option<Headers>,
) -> bool {
    m matches Some(RawOutcome::Row { fields, rest, tok, out_cap, ends_cap }) && (hcache matches Some(
        h,
    ) && h.byte_record@ == (if trim {
        trim_rows(fields, |b: u8| is_ascii_ws(b))
    } else {
        fields
    }))
}

/// The raw-read outcome of the read that follows a completed row `m`: it
/// starts from the tokenizer state and input the row left behind, with an
/// empty record buffer at the same store sizes, and runs at fuel `f2`.
pub open spec fn after_capture(m: Option<RawOutcome>, f2: nat) -> Option<RawOutcome> {
    match m {
        Some(RawOutcome::Row { fields, rest, tok, out_cap, ends_cap }) => raw_model(
            tok,
            rest,
            Seq::empty(),
            out_cap,
            Seq::empty(),
            ends_cap,
            f2,
        ),
        _ => None,
    }
}

/// What one round of raw-row feeding reported.
enum RawStep {
    /// The input was exhausted before the row completed.
    More,
    /// A complete row sits in the record buffer.
    Row,
    /// The tokenizer reported the end of the data.
    Eof,
    /// The record buffer is saturated and the row still incomplete: the
    /// record cannot be represented in addressable memory.
    Stuck,
}

/// Which multi-step operation, if any, a [`ReaderCore`] is in the middle of.
enum Phase {
    /// No row read is in progress.
    Idle,
    /// A row is being read on behalf of a header query.
    HeaderRow,
    /// A row is being read on behalf of a record read. When `second` is set,
    /// the first row of the data was just captured as headers and the row in
    /// progress is the one to hand to the caller.
    UserRow { second: bool },
}

/// The incremental CSV reading engine.
///
/// The engine never touches a byte source: a driving loop hands it input
/// bytes in chunks of any size (an empty chunk means the source is
/// exhausted), and the engine reports how many bytes it consumed and whether
/// the operation finished. This keeps every decision the reader makes --
/// header capture, width checking, trimming, position accounting -- inside
/// verified code, while the driving loop does nothing but move bytes.
pub struct ReaderCore {
    tok: csv_core::Reader,
    state: ReaderState,
    /// The record buffer's concatenated field bytes, grown by doubling.
    out: Vec<u8>,
    /// The record buffer's field end offsets, grown by doubling.
    ends: Vec<usize>,
    outlen: usize,
    endlen: usize,
    phase: Phase,
    /// The position at which the row in progress started.
    row_pos: Position,
}

impl ReaderCore {
    /// The reader state.
    pub closed spec fn spec_state(&self) -> ReaderState {
        self.state
    }

    /// The tokenizer's running line counter.
    pub closed spec fn spec_line(&self) -> u64 {
        line_of(self.tok)
    }

    /// Whether no multi-step operation is in progress.
    pub closed spec fn is_idle(&self) -> bool {
        self.phase is Idle
    }

    /// Whether a header query is in progress.
    pub closed spec fn is_reading_headers(&self) -> bool {
        self.phase is HeaderRow
    }

    /// Whether a record read is in progress.
    pub closed spec fn is_reading_row(&self) -> bool {
        self.phase is UserRow
    }

    /// The record buffer counters cover valid prefixes of the stores, and the
    /// recorded field ends are non-decreasing and within the output counter.
    closed spec fn scratch_wf(&self) -> bool {
        &&& self.outlen <= self.out@.len()
        &&& self.endlen <= self.ends@.len()
        &&& self.out@.len() <= usize::MAX
        &&& self.ends@.len() <= usize::MAX
        &&& (forall|k: int| 0 <= k < self.endlen ==> #[trigger] self.ends@[k] <= self.outlen)
        &&& (forall|k: int| 0 < k < self.endlen ==> #[trigger] self.ends@[k - 1] <= self.ends@[k])
    }

    /// The scratch state is consistent and the tokenizer's write position
    /// agrees with the output counter.
    closed spec fn stream_wf(&self) -> bool {
        &&& self.scratch_wf()
        &&& outpos_of(self.tok) == self.outlen
    }

    /// The engine's internal consistency: the record buffer is consistent and
    /// aligned with the tokenizer, the tracked line number is the tokenizer's
    /// running counter, an idle engine that has not reached the end of the
    /// data holds an empty record buffer, a row read in progress precludes
    /// end-of-data, a read that is already past its header capture has the
    /// headers cached, and the header cache's two forms agree.
    pub closed spec fn wf(&self) -> bool {
        &&& self.stream_wf()
        &&& self.state.cur_pos.line == line_of(self.tok)
        &&& (self.phase is Idle && !self.state.eof ==> self.outlen == 0 && self.endlen == 0)
        &&& (!(self.phase is Idle) ==> !self.state.eof)
        &&& (self.phase matches Phase::UserRow { second: true } ==> self.state.headers is Some
            && self.state.first)
        &&& headers_consistent(self.state)
    }

    /// Whether the row read in progress (or the one a read would start) is a
    /// plain single-row read: no cached header will be yielded in its place,
    /// and completing it will not capture headers and read a second row.
    pub closed spec fn single_row_read(&self) -> bool {
        &&& (self.is_idle() || self.phase matches Phase::UserRow { second: false })
        &&& (self.state.headers is Some || self.state.seeked || !self.state.has_headers)
        &&& !(self.is_idle() && yields_cached_header(self.state))
    }

    /// The raw-read outcome this engine's tokenizer and record buffer
    /// determine on the given remaining input, at the given fuel: see
    /// [`raw_model`].
    pub closed spec fn raw_state_model(&self, rest: Seq<u8>, fuel: nat) -> Option<RawOutcome> {
        raw_model(
            self.tok,
            rest,
            self.out@.subrange(0, self.outlen as int),
            self.out@.len() as int,
            ends_ints(self.ends@, self.endlen as int),
            self.ends@.len() as int,
            fuel,
        )
    }

    /// Whether the row read in progress (or the one a read would start) will
    /// capture the first row of the data as headers and go on to a second
    /// row for the caller: the reader withholds headers, none are cached, no
    /// seek intervened, and no cached header replay applies.
    pub closed spec fn capture_read(&self) -> bool {
        &&& ((self.is_idle() && !yields_cached_header(self.state)) || self.phase
            matches Phase::UserRow { second: false })
        &&& self.state.headers is None
        &&& !self.state.seeked
        &&& self.state.has_headers
    }

    /// Whether the read in progress is past its header capture, on the row
    /// the caller gets.
    pub closed spec fn is_reading_second(&self) -> bool {
        self.phase matches Phase::UserRow { second: true }
    }

    /// Where the row in progress started; for an idle engine, where the next
    /// row will start.
    pub closed spec fn pending_row_pos(&self) -> Position {
        if self.is_idle() {
            self.state.cur_pos
        } else {
            self.row_pos
        }
    }

    /// Feeds `input` to the tokenizer until the input is exhausted, a row
    /// completes, or the data ends, growing the record buffer as the
    /// tokenizer asks. Consumed bytes advance the byte offset; the line
    /// number follows the tokenizer's counter. Nothing else changes.
    #[verifier::rlimit(80)]
    fn feed_raw(&mut self, input: &[u8]) -> (r: (usize, RawStep))
        requires
            old(self).stream_wf(),
            old(self).state.cur_pos.line == line_of(old(self).tok),
        ensures
            r.0 <= input@.len(),
            final(self).scratch_wf(),
            final(self).state.cur_pos.line == line_of(final(self).tok),
            (r.1 is More ==> r.0 == input@.len() && input@.len() > 0 && final(self).stream_wf()),
            (r.1 is Eof ==> final(self).stream_wf()),
            (r.1 is Stuck ==> final(self).stream_wf()),
            (r.1 is Row ==> outpos_of(final(self).tok) == 0),
            final(self).state == (ReaderState {
                cur_pos: final(self).state.cur_pos,
                ..old(self).state
            }),
            final(self).state.cur_pos.record == old(self).state.cur_pos.record,
            final(self).state.cur_pos.byte == sat_add_u64(
                old(self).state.cur_pos.byte,
                r.0 as int,
            ),
            final(self).phase == old(self).phase,
            final(self).row_pos == old(self).row_pos,
            (r.1 is Row ==> exists|f: nat|
                old(self).raw_state_model(input@, f) == Some(
                    RawOutcome::Row {
                        fields: split_row(
                            final(self).out@.subrange(0, final(self).outlen as int),
                            ends_ints(final(self).ends@, final(self).endlen as int),
                        ),
                        rest: input@.skip(r.0 as int),
                        tok: final(self).tok,
                        out_cap: final(self).out@.len() as int,
                        ends_cap: final(self).ends@.len() as int,
                    },
                )),
            (r.1 is Eof ==> exists|f: nat|
                old(self).raw_state_model(input@, f) == Some(
                    RawOutcome::End { rest: input@.skip(r.0 as int), tok: final(self).tok },
                )),
            (r.1 is Stuck ==> exists|f: nat|
                old(self).raw_state_model(input@, f) == Some(RawOutcome::Saturated)),
            (r.1 is More ==> forall|g: nat, o: RawOutcome|
                final(self).raw_state_model(input@.skip(r.0 as int), g) == Some(o)
                    ==> exists|f: nat| old(self).raw_state_model(input@, f) == Some(o)),
    {
        let ghost start_byte = self.state.cur_pos.byte;
        let mut used: usize = 0;
        proof {
            assert(input@.skip(0) =~= input@);
        }
        loop
            invariant
                self.stream_wf(),
                self.state.cur_pos.line == line_of(self.tok),
                used <= input@.len(),
                self.state == (ReaderState { cur_pos: self.state.cur_pos, ..old(self).state }),
                self.state.cur_pos.record == old(self).state.cur_pos.record,
                self.state.cur_pos.byte == sat_add_u64(start_byte, used as int),
                start_byte == old(self).state.cur_pos.byte,
                self.phase == old(self).phase,
                self.row_pos == old(self).row_pos,
                forall|g: nat, o: RawOutcome|
                    self.raw_state_model(input@.skip(used as int), g) == Some(o)
                        ==> exists|f: nat| old(self).raw_state_model(input@, f) == Some(o),
            decreases input@.len() - used,
        {
            let ghost head = *self;
            let ghost rest_head = input@.skip(used as int);
            if self.outlen == self.out.len() {
                grow_store(&mut self.out, 0u8);
            }
            if self.endlen == self.ends.len() {
                grow_store(&mut self.ends, 0usize);
            }
            let ghost oc = self.out@.len() as int;
            let ghost ec = self.ends@.len() as int;
            proof {
                assert(oc == if head.outlen == head.out@.len() {
                    grown_cap(head.out@.len() as int)
                } else {
                    head.out@.len() as int
                });
                assert(ec == if head.endlen == head.ends@.len() {
                    grown_cap(head.ends@.len() as int)
                } else {
                    head.ends@.len() as int
                });
            }
            if self.outlen == self.out.len() || self.endlen == self.ends.len() {
                proof {
                    assert(head.raw_state_model(rest_head, 1) == Some(RawOutcome::Saturated));
                }
                return (used, RawStep::Stuck);
            }
            let chunk = slice_subrange(input, used, input.len());
            proof {
                assert(chunk@ =~= rest_head);
            }
            let ghost pre_outlen = self.outlen;
            let ghost pre_endlen = self.endlen;
            let (step, nin, nout, nend) = tok_read(
                &mut self.tok,
                chunk,
                &mut self.out,
                self.outlen,
                &mut self.ends,
                self.endlen,
            );
            used = used + nin;
            let b = self.state.cur_pos.byte;
            self.state.cur_pos.byte = sat_add(b, nin as u64);
            proof {
                lemma_sat_add_u64_chain(start_byte, used - nin, nin as int);
            }
            self.state.cur_pos.line = tok_line(&self.tok);
            self.outlen = self.outlen + nout;
            self.endlen = self.endlen + nend;
            proof {
                assert forall|k: int| 0 <= k < self.endlen implies #[trigger] self.ends@[k]
                    <= self.outlen by {}
                assert forall|k: int| 0 < k < self.endlen implies #[trigger] self.ends@[k - 1]
                    <= self.ends@[k] by {
                    if k == pre_endlen && nend > 0 {
                        assert(self.ends@[k - 1] <= pre_outlen);
                    }
                }
                // This call took exactly the step the raw-read model takes
                // from the state at the top of this iteration.
                let fo = oc - head.outlen as int;
                let fe = ec - head.endlen as int;
                let wout = tok_out_of(head.tok, rest_head, fo, fe);
                let wends = tok_ends_of(head.tok, rest_head, fo, fe);
                assert forall|j: int| 0 <= j < self.outlen implies self.out@.subrange(
                    0,
                    self.outlen as int,
                )[j] == (head.out@.subrange(0, head.outlen as int) + wout)[j] by {
                    if j >= pre_outlen {
                        assert(self.out@[pre_outlen + (j - pre_outlen)] == wout[j - pre_outlen]);
                    }
                }
                assert(self.out@.subrange(0, self.outlen as int) =~= head.out@.subrange(
                    0,
                    head.outlen as int,
                ) + wout);
                assert forall|j: int| 0 <= j < self.endlen implies ends_ints(
                    self.ends@,
                    self.endlen as int,
                )[j] == (ends_ints(head.ends@, head.endlen as int) + wends)[j] by {
                    if j >= pre_endlen {
                        assert(self.ends@[pre_endlen + (j - pre_endlen)] as int == wends[j
                            - pre_endlen]);
                    }
                }
                assert(ends_ints(self.ends@, self.endlen as int) =~= ends_ints(
                    head.ends@,
                    head.endlen as int,
                ) + wends);
                assert(input@.skip(used as int) =~= rest_head.skip(
                    tok_nin_of(head.tok, rest_head, fo, fe),
                ));
            }
            match step {
                ParseStep::InputEmpty => {
                    proof {
                        assert forall|g: nat, o: RawOutcome|
                            self.raw_state_model(input@.skip(used as int), g) == Some(
                                o,
                            ) implies exists|f: nat|
                            old(self).raw_state_model(input@, f) == Some(o) by {
                            assert(head.raw_state_model(rest_head, g + 1)
                                == self.raw_state_model(input@.skip(used as int), g));
                        }
                    }
                    return (used, RawStep::More);
                },
                ParseStep::OutputFull => {
                    proof {
                        assert forall|g: nat, o: RawOutcome|
                            self.raw_state_model(input@.skip(used as int), g) == Some(
                                o,
                            ) implies exists|f: nat|
                            old(self).raw_state_model(input@, f) == Some(o) by {
                            assert(head.raw_state_model(rest_head, g + 1)
                                == self.raw_state_model(input@.skip(used as int), g));
                        }
                    }
                },
                ParseStep::OutputEndsFull => {
                    proof {
                        assert forall|g: nat, o: RawOutcome|
                            self.raw_state_model(input@.skip(used as int), g) == Some(
                                o,
                            ) implies exists|f: nat|
                            old(self).raw_state_model(input@, f) == Some(o) by {
                            assert(head.raw_state_model(rest_head, g + 1)
                                == self.raw_state_model(input@.skip(used as int), g));
                        }
                    }
                },
                ParseStep::Record => {
                    proof {
                        assert(head.raw_state_model(rest_head, 1) == Some(
                            RawOutcome::Row {
                                fields: split_row(
                                    self.out@.subrange(0, self.outlen as int),
                                    ends_ints(self.ends@, self.endlen as int),
                                ),
                                rest: input@.skip(used as int),
                                tok: self.tok,
                                out_cap: oc,
                                ends_cap: ec,
                            },
                        ));
                    }
                    return (used, RawStep::Row);
                },
                ParseStep::End => {
                    proof {
                        assert(head.raw_state_model(rest_head, 1) == Some(
                            RawOutcome::End { rest: input@.skip(used as int), tok: self.tok },
                        ));
                    }
                    return (used, RawStep::Eof);
                },
            }
        }
    }

    /// Returns the engine to a clean idle state after the record buffer
    /// saturated: the tokenizer is reset (keeping the current line number)
    /// and the partial row is dropped.
    fn recover_stuck(&mut self)
        requires
            old(self).scratch_wf(),
            headers_consistent(old(self).state),
        ensures
            final(self).wf(),
            final(self).is_idle(),
            final(self).state == old(self).state,
            final(self).row_pos == old(self).row_pos,
    {
        tok_reset(&mut self.tok);
        let line = self.state.cur_pos.line;
        tok_set_line(&mut self.tok, line);
        self.outlen = 0;
        self.endlen = 0;
        self.phase = Phase::Idle;
    }

    /// Feeds input bytes toward completing one record read.
    ///
    /// A driving loop calls this repeatedly: each call consumes some prefix
    /// of `input` (all of it when the outcome is pending) and either asks for
    /// more input (`None` -- feed the bytes after the consumed ones, or an
    /// empty slice once the source is exhausted) or finishes with the read's
    /// outcome: `Ok(true)` with the row in `record`, `Ok(false)` for no more
    /// rows, or an error.
    ///
    /// The first row of the data is captured as headers as a side effect (if
    /// none are cached and no seek intervened), and is additionally withheld
    /// from the caller when the reader was configured with headers. When the
    /// reader was configured without headers and a cached header row was
    /// never yielded, it is yielded verbatim first, so that querying headers
    /// beforehand loses no data. Width policy and field trimming are applied
    /// as configured.
    pub fn feed_row(&mut self, input: &[u8], record: &mut ByteRecord) -> (r: (
        usize,
        Option<Result<bool, Error>>,
    ))
        requires
            old(self).wf(),
            !old(self).is_reading_headers(),
        ensures
            final(self).wf(),
            r.0 <= input@.len(),
            final(self).spec_state().has_headers == old(self).spec_state().has_headers,
            final(self).spec_state().flexible == old(self).spec_state().flexible,
            final(self).spec_state().trim == old(self).spec_state().trim,
            final(self).spec_state().seeked == old(self).spec_state().seeked,
            (old(self).spec_state().eof ==> final(self).spec_state().eof),
            (old(self).spec_state().first_field_count matches Some(_) ==> final(self).spec_state().first_field_count == old(self).spec_state().first_field_count),
            (old(self).spec_state().flexible ==> final(self).spec_state().first_field_count == old(self).spec_state().first_field_count),
            final(self).spec_state().cur_pos.byte == sat_add_u64(
                old(self).spec_state().cur_pos.byte,
                r.0 as int,
            ),
            old(self).spec_state().cur_pos.byte <= final(self).spec_state().cur_pos.byte,
            old(self).spec_state().cur_pos.record <= final(self).spec_state().cur_pos.record,
            final(self).spec_state().cur_pos.line == final(self).spec_line(),
            headers_consistent(final(self).spec_state()),
            (r.1 is None ==> r.0 == input@.len() && input@.len() > 0 && final(self).is_reading_row() && !final(self).spec_state().eof),
            (r.1 matches Some(_) ==> final(self).is_idle()),
            (r.1 matches Some(Ok(got)) ==> {
                &&& final(self).spec_state().first
                &&& (!final(self).spec_state().seeked ==> final(self).spec_state().headers
                    is Some)
                &&& (!(old(self).is_idle() && yields_cached_header(old(self).spec_state()))
                    ==> final(record).spec_position() is Some)
                &&& (trims_fields(old(self).spec_state()) ==> forall|i: int|
                    0 <= i < final(record)@.len() ==> #[trigger] final(record)@[i] == trim_seq(
                        final(record)@[i],
                        |b: u8| is_ascii_ws(b),
                    ))
                &&& (!got ==> final(self).spec_state().eof || final(record)@.len() == 0)
                &&& (got && !final(self).spec_state().flexible && !(old(self).is_idle()
                    && yields_cached_header(old(self).spec_state())) ==> final(self).spec_state().first_field_count == Some(final(record)@.len() as u64))
            }),
            (r.1 matches Some(Err(e)) ==> {
                &&& (e.spec_kind() is UnequalLengths || e.spec_kind() is RecordTooLarge)
                &&& !final(self).spec_state().eof
                &&& (e.spec_kind() matches ErrorKind::UnequalLengths { pos, expected_len, len }
                    ==> {
                    &&& !old(self).spec_state().flexible
                    &&& pos == final(record).spec_position()
                    &&& len == final(record)@.len() as u64
                    &&& len != expected_len
                    &&& final(self).spec_state().first_field_count == Some(expected_len)
                })
                &&& (e.spec_kind() is RecordTooLarge ==> final(record)@.len() == 0 && final(record).spec_position() is Some)
            }),
            (old(self).is_idle() && yields_cached_header(old(self).spec_state()) ==> {
                &&& r.0 == 0
                &&& final(self).spec_state() == (ReaderState {
                    first: true,
                    ..old(self).spec_state()
                })
                &&& (old(self).spec_state().headers matches Some(h) && {
                    &&& final(record)@ == (if trims_fields(old(self).spec_state()) {
                        trim_rows(h.byte_record@, |b: u8| is_ascii_ws(b))
                    } else {
                        h.byte_record@
                    })
                    &&& final(record).spec_position() == h.byte_record.spec_position()
                })
                &&& (r.1 matches Some(Ok(got)) && got == (final(record)@.len() != 0))
            }),
            (old(self).is_idle() && !yields_cached_header(old(self).spec_state()) && old(self).spec_state().eof ==> {
                &&& r.0 == 0
                &&& (r.1 matches Some(Ok(got)) && !got)
                &&& final(self).spec_state().cur_pos == old(self).spec_state().cur_pos
                &&& final(record)@.len() == 0
                &&& final(record).spec_position() == Some(old(self).spec_state().cur_pos)
            }),
            (old(self).capture_read() && !old(self).spec_state().eof ==> {
                &&& (r.1 matches Some(Ok(got)) ==> (got ==> exists|f: nat, f2: nat|
                    captured_headers(
                        old(self).raw_state_model(input@, f),
                        trims_headers(old(self).spec_state()),
                        final(self).spec_state().headers,
                    ) && #[trigger] row_read_ok(
                        after_capture(old(self).raw_state_model(input@, f), f2),
                        trims_fields(old(self).spec_state()),
                        final(record)@,
                        input@.skip(r.0 as int),
                    )))
                &&& (r.1 matches Some(Ok(got)) ==> (!got ==> final(self).spec_state().eof && ({
                    ||| ((exists|f: nat|
                        #[trigger] row_read_end(
                            old(self).raw_state_model(input@, f),
                            input@.skip(r.0 as int),
                        )) && (final(self).spec_state().headers matches Some(h)
                        && h.byte_record@.len() == 0))
                    ||| exists|f: nat, f2: nat|
                        captured_headers(
                            old(self).raw_state_model(input@, f),
                            trims_headers(old(self).spec_state()),
                            final(self).spec_state().headers,
                        ) && #[trigger] row_read_end(
                            after_capture(old(self).raw_state_model(input@, f), f2),
                            input@.skip(r.0 as int),
                        )
                })))
                &&& (r.1 matches Some(Err(e)) ==> (e.spec_kind() is UnequalLengths ==> ({
                    ||| exists|f: nat|
                        #[trigger] row_read_raw(
                            old(self).raw_state_model(input@, f),
                            final(record)@,
                            input@.skip(r.0 as int),
                        )
                    ||| exists|f: nat, f2: nat|
                        captured_headers(
                            old(self).raw_state_model(input@, f),
                            trims_headers(old(self).spec_state()),
                            final(self).spec_state().headers,
                        ) && #[trigger] row_read_raw(
                            after_capture(old(self).raw_state_model(input@, f), f2),
                            final(record)@,
                            input@.skip(r.0 as int),
                        )
                })))
                &&& (r.1 matches Some(Err(e)) ==> (e.spec_kind() is RecordTooLarge ==> ({
                    ||| exists|f: nat|
                        old(self).raw_state_model(input@, f) == Some(RawOutcome::Saturated)
                    ||| exists|f: nat, f2: nat|
                        captured_headers(
                            old(self).raw_state_model(input@, f),
                            trims_headers(old(self).spec_state()),
                            final(self).spec_state().headers,
                        ) && #[trigger] after_capture(old(self).raw_state_model(input@, f), f2)
                            == Some(RawOutcome::Saturated)
                })))
                &&& (r.1 is None ==> ({
                    ||| (final(self).capture_read() && !final(self).spec_state().eof && forall|
                        g: nat,
                        o: RawOutcome,
                    |
                        final(self).raw_state_model(input@.skip(r.0 as int), g) == Some(o)
                            ==> exists|f: nat| old(self).raw_state_model(input@, f) == Some(o))
                    ||| (final(self).is_reading_second() && exists|f: nat|
                        captured_headers(
                            #[trigger] old(self).raw_state_model(input@, f),
                            trims_headers(old(self).spec_state()),
                            final(self).spec_state().headers,
                        ) && (forall|g: nat, o: RawOutcome|
                            final(self).raw_state_model(input@.skip(r.0 as int), g) == Some(o)
                                ==> exists|f2: nat|
                                after_capture(old(self).raw_state_model(input@, f), f2) == Some(
                                    o,
                                )))
                }))
            }),
            (old(self).is_reading_second() ==> {
                &&& (r.1 matches Some(_) ==> final(self).spec_state().headers == old(self).spec_state().headers)
                &&& (r.1 matches Some(Ok(got)) ==> (got ==> exists|f: nat|
                    #[trigger] row_read_ok(
                        old(self).raw_state_model(input@, f),
                        trims_fields(old(self).spec_state()),
                        final(record)@,
                        input@.skip(r.0 as int),
                    )))
                &&& (r.1 matches Some(Ok(got)) ==> (!got ==> final(self).spec_state().eof
                    && exists|f: nat|
                    #[trigger] row_read_end(
                        old(self).raw_state_model(input@, f),
                        input@.skip(r.0 as int),
                    )))
                &&& (r.1 matches Some(Err(e)) ==> (e.spec_kind() is UnequalLengths ==> exists|
                    f: nat,
                |
                    #[trigger] row_read_raw(
                        old(self).raw_state_model(input@, f),
                        final(record)@,
                        input@.skip(r.0 as int),
                    )))
                &&& (r.1 matches Some(Err(e)) ==> (e.spec_kind() is RecordTooLarge ==> exists|
                    f: nat,
                |
                    old(self).raw_state_model(input@, f) == Some(RawOutcome::Saturated)))
                &&& (r.1 is None ==> final(self).is_reading_second() && final(self).spec_state().headers == old(self).spec_state().headers && (forall|g: nat, o: RawOutcome|
                    final(self).raw_state_model(input@.skip(r.0 as int), g) == Some(o)
                        ==> exists|f: nat| old(self).raw_state_model(input@, f) == Some(o)))
            }),
            (old(self).single_row_read() && !old(self).spec_state().eof ==> {
                &&& (r.1 matches Some(Ok(got)) ==> (got ==> final(record).spec_position() == Some(
                    old(self).pending_row_pos(),
                ) && final(self).spec_state().cur_pos.record == sat_add_u64(
                    old(self).spec_state().cur_pos.record,
                    1,
                )) && (!got ==> final(self).spec_state().eof && final(record)@.len() == 0
                    && final(record).spec_position() == Some(old(self).pending_row_pos())))
                &&& (r.1 matches Some(Ok(got)) ==> (got ==> exists|f: nat|
                    #[trigger] row_read_ok(
                        old(self).raw_state_model(input@, f),
                        trims_fields(old(self).spec_state()),
                        final(record)@,
                        input@.skip(r.0 as int),
                    )))
                &&& (r.1 matches Some(Ok(got)) ==> (!got ==> exists|f: nat|
                    #[trigger] row_read_end(
                        old(self).raw_state_model(input@, f),
                        input@.skip(r.0 as int),
                    )))
                &&& (r.1 matches Some(Err(e)) ==> (e.spec_kind() is UnequalLengths ==> exists|f: nat|
                    #[trigger] row_read_raw(
                        old(self).raw_state_model(input@, f),
                        final(record)@,
                        input@.skip(r.0 as int),
                    )))
                &&& (r.1 matches Some(Err(e)) ==> (e.spec_kind() is RecordTooLarge
                    ==> exists|f: nat| old(self).raw_state_model(input@, f) == Some(
                    RawOutcome::Saturated,
                )))
                &&& (r.1 is None ==> forall|g: nat, o: RawOutcome|
                    final(self).raw_state_model(input@.skip(r.0 as int), g) == Some(o)
                        ==> exists|f: nat| old(self).raw_state_model(input@, f) == Some(o))
                &&& (r.1 matches Some(Err(e)) ==> (e.spec_kind() is UnequalLengths ==> final(record).spec_position() == Some(old(self).pending_row_pos())
                    && final(self).spec_state().cur_pos.record == sat_add_u64(
                    old(self).spec_state().cur_pos.record,
                    1,
                )))
                &&& (r.1 matches Some(Err(e)) ==> (e.spec_kind() is RecordTooLarge ==> final(record).spec_position() == Some(old(self).pending_row_pos())))
                &&& (r.1 is None ==> final(self).single_row_read() && final(self).pending_row_pos()
                    == old(self).pending_row_pos() && final(self).spec_state().cur_pos.record
                    == old(self).spec_state().cur_pos.record && final(self).spec_state().headers
                    == old(self).spec_state().headers && final(self).spec_state().first == old(self).spec_state().first)
            }),
    {
        let mut used: usize = 0;
        let is_idle = match &self.phase {
            Phase::Idle => true,
            _ => false,
        };
        if is_idle {
            // Yield the cached header row in place of the never-yielded
            // physical first row.
            if !self.state.seeked && !self.state.has_headers && !self.state.first
                && self.state.headers.is_some() {
                match &self.state.headers {
                    Some(h) => {
                        *record = h.byte_record.clone();
                    },
                    None => {
                        proof {
                            assert(false);
                        }
                    },
                }
                self.state.first = true;
                if self.state.trim.should_trim_fields() {
                    let ghost pre = record@;
                    record.trim();
                    proof {
                        lemma_trim_rows_fixed(pre, |b: u8| is_ascii_ws(b));
                    }
                }
                let got = !record.is_empty();
                return (0, Some(Ok(got)));
            }
            // At the end of the data report "no more rows", still letting an
            // empty row stand as headers if none were captured.
            if self.state.eof {
                record.clear();
                record.set_position(Some(self.state.cur_pos));
                self.state.first = true;
                if !self.state.seeked && self.state.headers.is_none() {
                    let cached = record.clone();
                    self.state.set_headers_impl(Err(cached));
                }
                return (0, Some(Ok(false)));
            }
            // Start the row.
            self.phase = Phase::UserRow { second: false };
            self.row_pos = self.state.cur_pos;
            record.clear();
            record.set_position(Some(self.state.cur_pos));
        }
        let second0 = match &self.phase {
            Phase::UserRow { second } => *second,
            _ => false,
        };
        proof {
            assert forall|f: nat| self.raw_state_model(input@, f) == old(self).raw_state_model(
                input@,
                f,
            ) by {}
        }
        let (n1, raw1) = self.feed_raw(input);
        used = n1;
        match raw1 {
            RawStep::More => {
                return (used, None);
            },
            RawStep::Stuck => {
                self.recover_stuck();
                record.clear();
                record.set_position(Some(self.row_pos));
                return (used, Some(Err(Error::new(ErrorKind::RecordTooLarge))));
            },
            RawStep::Eof => {
                self.state.eof = true;
                self.phase = Phase::Idle;
                record.clear();
                record.set_position(Some(self.row_pos));
                self.state.first = true;
                if !second0 && !self.state.seeked && self.state.headers.is_none() {
                    let cached = record.clone();
                    self.state.set_headers_impl(Err(cached));
                }
                proof {
                    let f0 = choose|f: nat|
                        old(self).raw_state_model(input@, f) == Some(
                            RawOutcome::End { rest: input@.skip(used as int), tok: self.tok },
                        );
                    assert(row_read_end(
                        old(self).raw_state_model(input@, f0),
                        input@.skip(used as int),
                    ));
                }
                return (used, Some(Ok(false)));
            },
            RawStep::Row => {},
        }
        // A row completed.
        let ghost m_fields = split_row(
            self.out@.subrange(0, self.outlen as int),
            ends_ints(self.ends@, self.endlen as int),
        );
        let ghost m_rest = input@.skip(used as int);
        let ghost m_tok = self.tok;
        let ghost m_oc = self.out@.len() as int;
        let ghost m_ec = self.ends@.len() as int;
        self.assemble_row(record);
        match self.state.add_record(record) {
            Err(e) => {
                self.phase = Phase::Idle;
                proof {
                    let f0 = choose|f: nat|
                        old(self).raw_state_model(input@, f) == Some(
                            RawOutcome::Row {
                                fields: m_fields,
                                rest: m_rest,
                                tok: m_tok,
                                out_cap: m_oc,
                                ends_cap: m_ec,
                            },
                        );
                    assert(row_read_raw(
                        old(self).raw_state_model(input@, f0),
                        record@,
                        input@.skip(used as int),
                    ));
                }
                return (used, Some(Err(e)));
            },
            Ok(()) => {},
        }
        if !second0 {
            self.state.first = true;
            if !self.state.seeked && self.state.headers.is_none() {
                let cached = record.clone();
                self.state.set_headers_impl(Err(cached));
                if self.state.has_headers {
                    // Row 0 became the headers; go on to the row the caller
                    // gets.
                    self.phase = Phase::UserRow { second: true };
                    self.row_pos = self.state.cur_pos;
                    record.clear();
                    record.set_position(Some(self.state.cur_pos));
                    let rest = slice_subrange(input, used, input.len());
                    proof {
                        assert(rest@ =~= m_rest);
                        assert forall|f2: nat| #[trigger] self.raw_state_model(rest@, f2)
                            == raw_model(
                            m_tok,
                            m_rest,
                            Seq::<u8>::empty(),
                            m_oc,
                            Seq::<int>::empty(),
                            m_ec,
                            f2,
                        ) by {
                            assert(self.out@.subrange(0, self.outlen as int) =~= Seq::<
                                u8,
                            >::empty());
                            assert(ends_ints(self.ends@, self.endlen as int) =~= Seq::<
                                int,
                            >::empty());
                            assert(self.tok == m_tok);
                            assert(self.out@.len() as int == m_oc);
                            assert(self.ends@.len() as int == m_ec);
                        }
                    }
                    let ghost pre2 = *self;
                    let (n2, raw2) = self.feed_raw(rest);
                    proof {
                        lemma_sat_add_u64_chain(
                            old(self).state.cur_pos.byte,
                            n1 as int,
                            n2 as int,
                        );
                    }
                    used = used + n2;
                    match raw2 {
                        RawStep::More => {
                            proof {
                                let f0 = choose|f: nat|
                                    old(self).raw_state_model(input@, f) == Some(
                                        RawOutcome::Row {
                                            fields: m_fields,
                                            rest: m_rest,
                                            tok: m_tok,
                                            out_cap: m_oc,
                                            ends_cap: m_ec,
                                        },
                                    );
                                assert(captured_headers(
                                    old(self).raw_state_model(input@, f0),
                                    trims_headers(old(self).spec_state()),
                                    self.state.headers,
                                ));
                                assert(rest@.skip(n2 as int) =~= input@.skip(used as int));
                                assert forall|g: nat, o: RawOutcome|
                                    self.raw_state_model(input@.skip(used as int), g) == Some(
                                        o,
                                    ) implies exists|f2: nat|
                                    after_capture(old(self).raw_state_model(input@, f0), f2)
                                        == Some(o) by {
                                    assert(self.raw_state_model(rest@.skip(n2 as int), g) == Some(
                                        o,
                                    ));
                                    let fp = choose|f2: nat|
                                        pre2.raw_state_model(rest@, f2) == Some(o);
                                    assert(after_capture(
                                        old(self).raw_state_model(input@, f0),
                                        fp,
                                    ) == Some(o));
                                }
                            }
                            return (used, None);
                        },
                        RawStep::Stuck => {
                            self.recover_stuck();
                            record.clear();
                            record.set_position(Some(self.row_pos));
                            proof {
                                let f0 = choose|f: nat|
                                    old(self).raw_state_model(input@, f) == Some(
                                        RawOutcome::Row {
                                            fields: m_fields,
                                            rest: m_rest,
                                            tok: m_tok,
                                            out_cap: m_oc,
                                            ends_cap: m_ec,
                                        },
                                    );
                                assert(captured_headers(
                                    old(self).raw_state_model(input@, f0),
                                    trims_headers(old(self).spec_state()),
                                    self.state.headers,
                                ));
                                let f2b = choose|f2: nat|
                                    pre2.raw_state_model(rest@, f2) == Some(RawOutcome::Saturated);
                                assert(after_capture(
                                    old(self).raw_state_model(input@, f0),
                                    f2b,
                                ) == Some(RawOutcome::Saturated));
                            }
                            return (used, Some(Err(Error::new(ErrorKind::RecordTooLarge))));
                        },
                        RawStep::Eof => {
                            self.state.eof = true;
                            self.phase = Phase::Idle;
                            record.clear();
                            record.set_position(Some(self.row_pos));
                            proof {
                                let f0 = choose|f: nat|
                                    old(self).raw_state_model(input@, f) == Some(
                                        RawOutcome::Row {
                                            fields: m_fields,
                                            rest: m_rest,
                                            tok: m_tok,
                                            out_cap: m_oc,
                                            ends_cap: m_ec,
                                        },
                                    );
                                assert(captured_headers(
                                    old(self).raw_state_model(input@, f0),
                                    trims_headers(old(self).spec_state()),
                                    self.state.headers,
                                ));
                                assert(rest@.skip(n2 as int) =~= input@.skip(used as int));
                                let f2b = choose|f2: nat|
                                    pre2.raw_state_model(rest@, f2) == Some(
                                        RawOutcome::End {
                                            rest: rest@.skip(n2 as int),
                                            tok: self.tok,
                                        },
                                    );
                                assert(row_read_end(
                                    after_capture(old(self).raw_state_model(input@, f0), f2b),
                                    input@.skip(used as int),
                                ));
                            }
                            return (used, Some(Ok(false)));
                        },
                        RawStep::Row => {
                            let ghost m2_fields = split_row(
                                self.out@.subrange(0, self.outlen as int),
                                ends_ints(self.ends@, self.endlen as int),
                            );
                            let ghost m2_tok = self.tok;
                            let ghost m2_oc = self.out@.len() as int;
                            let ghost m2_ec = self.ends@.len() as int;
                            self.assemble_row(record);
                            match self.state.add_record(record) {
                                Err(e) => {
                                    self.phase = Phase::Idle;
                                    proof {
                                        let f0 = choose|f: nat|
                                    old(self).raw_state_model(input@, f) == Some(
                                        RawOutcome::Row {
                                            fields: m_fields,
                                            rest: m_rest,
                                            tok: m_tok,
                                            out_cap: m_oc,
                                            ends_cap: m_ec,
                                        },
                                    );
                                assert(captured_headers(
                                    old(self).raw_state_model(input@, f0),
                                    trims_headers(old(self).spec_state()),
                                    self.state.headers,
                                ));
                                        assert(rest@.skip(n2 as int) =~= input@.skip(
                                            used as int,
                                        ));
                                        let f2b = choose|f2: nat|
                                            pre2.raw_state_model(rest@, f2) == Some(
                                                RawOutcome::Row {
                                                    fields: m2_fields,
                                                    rest: rest@.skip(n2 as int),
                                                    tok: m2_tok,
                                                    out_cap: m2_oc,
                                                    ends_cap: m2_ec,
                                                },
                                            );
                                        assert(row_read_raw(
                                            after_capture(
                                                old(self).raw_state_model(input@, f0),
                                                f2b,
                                            ),
                                            record@,
                                            input@.skip(used as int),
                                        ));
                                    }
                                    return (used, Some(Err(e)));
                                },
                                Ok(()) => {},
                            }
                            self.phase = Phase::Idle;
                            if self.state.trim.should_trim_fields() {
                                let ghost pre = record@;
                                record.trim();
                                proof {
                                    lemma_trim_rows_fixed(pre, |b: u8| is_ascii_ws(b));
                                }
                            }
                            proof {
                                assert(rest@.skip(n2 as int) =~= input@.skip(used as int));
                                let f0 = choose|f: nat|
                                    old(self).raw_state_model(input@, f) == Some(
                                        RawOutcome::Row {
                                            fields: m_fields,
                                            rest: m_rest,
                                            tok: m_tok,
                                            out_cap: m_oc,
                                            ends_cap: m_ec,
                                        },
                                    );
                                let f2b = choose|f2: nat|
                                    raw_model(
                                        m_tok,
                                        m_rest,
                                        Seq::<u8>::empty(),
                                        m_oc,
                                        Seq::<int>::empty(),
                                        m_ec,
                                        f2,
                                    ) == Some(
                                        RawOutcome::Row {
                                            fields: m2_fields,
                                            rest: input@.skip(used as int),
                                            tok: m2_tok,
                                            out_cap: m2_oc,
                                            ends_cap: m2_ec,
                                        },
                                    );
                                assert(captured_headers(
                                    old(self).raw_state_model(input@, f0),
                                    trims_headers(old(self).spec_state()),
                                    self.state.headers,
                                ));
                                assert(row_read_ok(
                                    after_capture(old(self).raw_state_model(input@, f0), f2b),
                                    trims_fields(old(self).spec_state()),
                                    record@,
                                    input@.skip(used as int),
                                ));
                            }
                            return (used, Some(Ok(true)));
                        },
                    }
                }
            }
        }
        self.phase = Phase::Idle;
        if self.state.trim.should_trim_fields() {
            let ghost pre = record@;
            record.trim();
            proof {
                lemma_trim_rows_fixed(pre, |b: u8| is_ascii_ws(b));
            }
        }
        proof {
            let f0 = choose|f: nat|
                old(self).raw_state_model(input@, f) == Some(
                    RawOutcome::Row {
                        fields: m_fields,
                        rest: m_rest,
                        tok: m_tok,
                        out_cap: m_oc,
                        ends_cap: m_ec,
                    },
                );
            assert(row_read_ok(
                old(self).raw_state_model(input@, f0),
                trims_fields(old(self).spec_state()),
                record@,
                input@.skip(used as int),
            ));
        }
        (used, Some(Ok(true)))
    }

    /// Feeds input bytes toward resolving the header row.
    ///
    /// A driving loop calls this like [`ReaderCore::feed_row`]. When the
    /// outcome arrives, the header cache is populated: with what was already
    /// there, with the first row of the data, or -- when the data is empty --
    /// with a zero-field row. The parsed header row counts against the width
    /// policy like any other row.
    pub fn feed_headers(&mut self, input: &[u8]) -> (r: (usize, Option<Result<(), Error>>))
        requires
            old(self).wf(),
            !old(self).is_reading_row(),
        ensures
            final(self).wf(),
            r.0 <= input@.len(),
            final(self).spec_state().has_headers == old(self).spec_state().has_headers,
            final(self).spec_state().flexible == old(self).spec_state().flexible,
            final(self).spec_state().trim == old(self).spec_state().trim,
            final(self).spec_state().seeked == old(self).spec_state().seeked,
            final(self).spec_state().first == old(self).spec_state().first,
            (old(self).spec_state().eof ==> final(self).spec_state().eof),
            (old(self).spec_state().first_field_count matches Some(_) ==> final(self).spec_state().first_field_count == old(self).spec_state().first_field_count),
            (old(self).spec_state().flexible ==> final(self).spec_state().first_field_count == old(self).spec_state().first_field_count),
            final(self).spec_state().cur_pos.byte == sat_add_u64(
                old(self).spec_state().cur_pos.byte,
                r.0 as int,
            ),
            old(self).spec_state().cur_pos.byte <= final(self).spec_state().cur_pos.byte,
            old(self).spec_state().cur_pos.record <= final(self).spec_state().cur_pos.record,
            final(self).spec_state().cur_pos.line == final(self).spec_line(),
            headers_consistent(final(self).spec_state()),
            (r.1 is None ==> r.0 == input@.len() && input@.len() > 0 && final(self).is_reading_headers() && !final(self).spec_state().eof && final(self).spec_state().headers == old(self).spec_state().headers && final(self).spec_state().cur_pos.record == old(self).spec_state().cur_pos.record && final(self).pending_row_pos() == old(self).pending_row_pos()),
            (r.1 matches Some(_) ==> final(self).is_idle()),
            (r.1 matches Some(Ok(_)) ==> final(self).spec_state().headers is Some),
            (r.1 matches Some(Err(e)) ==> {
                &&& (e.spec_kind() is UnequalLengths || e.spec_kind() is RecordTooLarge)
                &&& !final(self).spec_state().eof
                &&& final(self).spec_state().headers == old(self).spec_state().headers
                &&& (e.spec_kind() matches ErrorKind::UnequalLengths { pos, expected_len, len }
                    ==> {
                    &&& !old(self).spec_state().flexible
                    &&& len != expected_len
                    &&& final(self).spec_state().first_field_count == Some(expected_len)
                    &&& pos == Some(old(self).pending_row_pos())
                })
            }),
            (old(self).is_idle() && old(self).spec_state().headers is Some ==> r.0 == 0 && (
            r.1 matches Some(Ok(_))) && final(self).spec_state() == old(self).spec_state()),
            (old(self).is_idle() && old(self).spec_state().headers is None && old(self).spec_state().eof ==> {
                &&& r.0 == 0
                &&& (r.1 matches Some(Ok(_)))
                &&& final(self).spec_state().cur_pos == old(self).spec_state().cur_pos
                &&& (final(self).spec_state().headers matches Some(h) && h.byte_record@.len() == 0
                    && h.byte_record.spec_position() == Some(old(self).spec_state().cur_pos) && (
                h.string_record matches Ok(s) && s@.len() == 0))
            }),
            (old(self).spec_state().headers is None && (r.1 matches Some(Ok(_))) ==> {
                &&& (final(self).spec_state().headers matches Some(h) && {
                    &&& h.byte_record.spec_position() == Some(old(self).pending_row_pos())
                    &&& (trims_headers(old(self).spec_state()) ==> forall|i: int|
                        0 <= i < h.byte_record@.len() ==> #[trigger] h.byte_record@[i] == trim_seq(
                            h.byte_record@[i],
                            |b: u8| is_ascii_ws(b),
                        ))
                })
            }),
            (old(self).spec_state().headers is None && !old(self).spec_state().eof ==> {
                &&& (r.1 matches Some(Ok(_)) ==> (final(self).spec_state().headers matches Some(h)
                    ==> ({
                    ||| exists|f: nat|
                        #[trigger] header_read_ok(
                            old(self).raw_state_model(input@, f),
                            trims_headers(old(self).spec_state()),
                            h,
                            input@.skip(r.0 as int),
                        )
                    ||| (final(self).spec_state().eof && exists|f: nat|
                        #[trigger] header_read_end(
                            old(self).raw_state_model(input@, f),
                            h,
                            input@.skip(r.0 as int),
                        ))
                })))
                &&& (r.1 matches Some(Err(e)) ==> (e.spec_kind() is RecordTooLarge ==> exists|
                    f: nat,
                |
                    old(self).raw_state_model(input@, f) == Some(RawOutcome::Saturated)))
                &&& (r.1 is None ==> forall|g: nat, o: RawOutcome|
                    final(self).raw_state_model(input@.skip(r.0 as int), g) == Some(o)
                        ==> exists|f: nat| old(self).raw_state_model(input@, f) == Some(o))
            }),
    {
        let is_idle = match &self.phase {
            Phase::Idle => true,
            _ => false,
        };
        if is_idle {
            // The headers are resolved at most once.
            if self.state.headers.is_some() {
                return (0, Some(Ok(())));
            }
            // Empty data has a zero-field header row.
            if self.state.eof {
                let mut rec = ByteRecord::new();
                rec.set_position(Some(self.state.cur_pos));
                let ghost pre = rec@;
                self.state.set_headers_impl(Err(rec));
                proof {
                    lemma_trim_rows_fixed(pre, |b: u8| is_ascii_ws(b));
                }
                return (0, Some(Ok(())));
            }
            self.phase = Phase::HeaderRow;
            self.row_pos = self.state.cur_pos;
        }
        proof {
            assert forall|f: nat| self.raw_state_model(input@, f) == old(self).raw_state_model(
                input@,
                f,
            ) by {}
        }
        let (used, raw) = self.feed_raw(input);
        match raw {
            RawStep::More => (used, None),
            RawStep::Stuck => {
                self.recover_stuck();
                (used, Some(Err(Error::new(ErrorKind::RecordTooLarge))))
            },
            RawStep::Eof => {
                self.state.eof = true;
                self.phase = Phase::Idle;
                let mut rec = ByteRecord::new();
                rec.set_position(Some(self.row_pos));
                let ghost pre = rec@;
                self.state.set_headers_impl(Err(rec));
                proof {
                    lemma_trim_rows_fixed(pre, |b: u8| is_ascii_ws(b));
                    if old(self).spec_state().headers is None && !old(self).spec_state().eof {
                        let f0 = choose|f: nat|
                            old(self).raw_state_model(input@, f) == Some(
                                RawOutcome::End { rest: input@.skip(used as int), tok: self.tok },
                            );
                        assert(self.state.headers matches Some(h) ==> header_read_end(
                            old(self).raw_state_model(input@, f0),
                            h,
                            input@.skip(used as int),
                        ));
                    }
                }
                (used, Some(Ok(())))
            },
            RawStep::Row => {
                let ghost m_fields = split_row(
                    self.out@.subrange(0, self.outlen as int),
                    ends_ints(self.ends@, self.endlen as int),
                );
                let ghost m_rest = input@.skip(used as int);
                let ghost m_tok = self.tok;
                let ghost m_oc = self.out@.len() as int;
                let ghost m_ec = self.ends@.len() as int;
                let mut rec = ByteRecord::new();
                self.assemble_row(&mut rec);
                match self.state.add_record(&rec) {
                    Err(e) => {
                        self.phase = Phase::Idle;
                        return (used, Some(Err(e)));
                    },
                    Ok(()) => {},
                }
                self.phase = Phase::Idle;
                let ghost pre = rec@;
                self.state.set_headers_impl(Err(rec));
                proof {
                    lemma_trim_rows_fixed(pre, |b: u8| is_ascii_ws(b));
                    if old(self).spec_state().headers is None && !old(self).spec_state().eof {
                        let f0 = choose|f: nat|
                            old(self).raw_state_model(input@, f) == Some(
                                RawOutcome::Row {
                                    fields: m_fields,
                                    rest: m_rest,
                                    tok: m_tok,
                                    out_cap: m_oc,
                                    ends_cap: m_ec,
                                },
                            );
                        assert(self.state.headers matches Some(h) ==> header_read_ok(
                            old(self).raw_state_model(input@, f0),
                            trims_headers(old(self).spec_state()),
                            h,
                            input@.skip(used as int),
                        ));
                    }
                }
                (used, Some(Ok(())))
            },
        }
    }

    /// Marks this reader as seeked -- permanently disabling the special
    /// treatment of the first row -- and says whether the given position's
    /// byte offset differs from the current one, so that a physical seek (and
    /// [`ReaderCore::apply_seek`]) is needed at all.
    pub fn prepare_seek(&mut self, pos: &Position) -> (need: bool)
        requires
            old(self).wf(),
        ensures
            final(self).wf(),
            final(self).spec_state() == (ReaderState {
                seeked: true,
                ..old(self).spec_state()
            }),
            final(self).is_idle() == old(self).is_idle(),
            final(self).is_reading_row() == old(self).is_reading_row(),
            final(self).is_reading_headers() == old(self).is_reading_headers(),
            need == (pos.byte != old(self).spec_state().cur_pos.byte),
    {
        self.state.seeked = true;
        pos.byte() != self.state.cur_pos.byte
    }

    /// Re-synchronizes the engine after the byte source moved to `pos`: the
    /// tokenizer is reset, its line counter is set from `pos`, the tracked
    /// position is replaced verbatim (the record index is taken on faith),
    /// any partial row is dropped, and end-of-data is cleared.
    pub fn apply_seek(&mut self, pos: Position)
        requires
            old(self).wf(),
        ensures
            final(self).wf(),
            final(self).is_idle(),
            final(self).spec_state() == (ReaderState {
                cur_pos: pos,
                eof: false,
                ..old(self).spec_state()
            }),
            final(self).spec_line() == pos.line,
    {
        tok_reset(&mut self.tok);
        tok_set_line(&mut self.tok, pos.line());
        self.state.cur_pos = pos;
        self.state.eof = false;
        self.outlen = 0;
        self.endlen = 0;
        self.phase = Phase::Idle;
    }

    /// Empties the record buffer into `record`: one field per recorded end,
    /// each the output bytes between the previous end and its own. The record
    /// is stamped with the position at which the row started.
    fn assemble_row(&mut self, record: &mut ByteRecord)
        requires
            old(self).scratch_wf(),
            outpos_of(old(self).tok) == 0,
        ensures
            final(self).stream_wf(),
            final(self).outlen == 0,
            final(self).endlen == 0,
            final(record)@.len() == old(self).endlen,
            final(record)@ == split_row(
                old(self).out@.subrange(0, old(self).outlen as int),
                ends_ints(old(self).ends@, old(self).endlen as int),
            ),
            final(record).spec_position() == Some(old(self).row_pos),
            final(self).state == old(self).state,
            final(self).phase == old(self).phase,
            final(self).row_pos == old(self).row_pos,
            final(self).tok == old(self).tok,
            final(self).out@ == old(self).out@,
            final(self).ends@ == old(self).ends@,
    {
        let ghost target = split_row(
            self.out@.subrange(0, self.outlen as int),
            ends_ints(self.ends@, self.endlen as int),
        );
        record.clear();
        record.set_position(Some(self.row_pos));
        let mut start: usize = 0;
        let mut i: usize = 0;
        while i < self.endlen
            invariant
                *self == *old(self),
                self.scratch_wf(),
                i <= self.endlen,
                start == (if i == 0 {
                    0
                } else {
                    self.ends@[i - 1]
                }),
                start <= self.outlen,
                record@.len() == i,
                target == split_row(
                    self.out@.subrange(0, self.outlen as int),
                    ends_ints(self.ends@, self.endlen as int),
                ),
                forall|k: int| 0 <= k < i ==> #[trigger] record@[k] == target[k],
                record.spec_position() == Some(self.row_pos),
            decreases self.endlen - i,
        {
            let e = self.ends[i];
            record.push_field(slice_to_vec(slice_subrange(self.out.as_slice(), start, e)));
            proof {
                assert(self.out@.subrange(0, self.outlen as int).subrange(
                    start as int,
                    e as int,
                ) =~= self.out@.subrange(start as int, e as int));
            }
            start = e;
            i += 1;
        }
        proof {
            assert(record@ =~= target);
        }
        self.outlen = 0;
        self.endlen = 0;
    }

    /// Whether a multi-step operation is in flight: a driving loop that
    /// dropped an unfinished read can check this before starting an
    /// operation of a different kind.
    pub fn in_flight(&self) -> (r: bool)
        ensures
            r == !self.is_idle(),
    {
        match &self.phase {
            Phase::Idle => false,
            _ => true,
        }
    }

    /// The current position of this reader.
    pub fn position(&self) -> (r: Position)
        ensures
            r == self.spec_state().cur_pos,
    {
        self.state.cur_pos
    }

    /// Whether this reader has reached the end of its data. Once true, row
    /// reads return "no more rows" until a seek clears it.
    pub fn is_done(&self) -> (r: bool)
        ensures
            r == self.spec_state().eof,
    {
        self.state.eof
    }

    /// Whether this reader was configured to withhold the first row as
    /// headers.
    pub fn has_headers(&self) -> (r: bool)
        ensures
            r == self.spec_state().has_headers,
    {
        self.state.has_headers
    }

    /// The configured whitespace trimming policy.
    pub fn trim_policy(&self) -> (r: Trim)
        ensures
            r == self.spec_state().trim,
    {
        self.state.trim
    }

    /// Sets the header row manually, overriding any cached or future
    /// automatic detection. The byte form is derived by UTF-8 encoding; the
    /// header trimming policy applies.
    pub fn set_headers(&mut self, headers: StringRecord)
        requires
            old(self).wf(),
        ensures
            final(self).wf(),
            final(self).is_idle() == old(self).is_idle(),
            final(self).is_reading_row() == old(self).is_reading_row(),
            final(self).is_reading_headers() == old(self).is_reading_headers(),
            final(self).spec_state() == (ReaderState {
                headers: final(self).spec_state().headers,
                ..old(self).spec_state()
            }),
            final(self).spec_state().headers matches Some(h) && {
                &&& (h.string_record matches Ok(s2) && s2@ == (if trims_headers(
                    old(self).spec_state(),
                ) {
                    trim_rows(headers@, |c: char| is_unicode_ws(c))
                } else {
                    headers@
                }))
                &&& h.byte_record@.len() == headers@.len()
                &&& (forall|i: int|
                    0 <= i < headers@.len() ==> #[trigger] h.byte_record@[i] == (if trims_headers(
                        old(self).spec_state(),
                    ) {
                        trim_seq(encode_utf8(headers@[i]), |b: u8| is_ascii_ws(b))
                    } else {
                        encode_utf8(headers@[i])
                    }))
            },
    {
        self.state.set_headers_impl(Ok(headers));
    }

    /// Sets the header row manually as raw bytes, overriding any cached or
    /// future automatic detection. The string form is derived by UTF-8
    /// validation; the header trimming policy applies.
    pub fn set_byte_headers(&mut self, headers: ByteRecord)
        requires
            old(self).wf(),
        ensures
            final(self).wf(),
            final(self).is_idle() == old(self).is_idle(),
            final(self).is_reading_row() == old(self).is_reading_row(),
            final(self).is_reading_headers() == old(self).is_reading_headers(),
            final(self).spec_state() == (ReaderState {
                headers: final(self).spec_state().headers,
                ..old(self).spec_state()
            }),
            final(self).spec_state().headers matches Some(h) && {
                &&& h.byte_record@ == (if trims_headers(old(self).spec_state()) {
                    trim_rows(headers@, |x: u8| is_ascii_ws(x))
                } else {
                    headers@
                })
                &&& match h.string_record {
                    Ok(s2) => {
                        &&& s2@.len() == headers@.len()
                        &&& (forall|i: int|
                            0 <= i < headers@.len() ==> valid_utf8(#[trigger] headers@[i])
                                && s2@[i] == (if trims_headers(old(self).spec_state()) {
                                trim_seq(decode_utf8(headers@[i]), |c: char| is_unicode_ws(c))
                            } else {
                                decode_utf8(headers@[i])
                            }))
                    },
                    Err(u) => {
                        &&& (u.field as int) < headers@.len()
                        &&& !valid_utf8(headers@[u.field as int])
                        &&& (forall|k: int|
                            0 <= k < u.field ==> valid_utf8(#[trigger] headers@[k]))
                        &&& u.valid_up_to == valid_prefix_len(headers@[u.field as int])
                    },
                }
            },
    {
        self.state.set_headers_impl(Err(headers));
    }

    /// A copy of the cached header row in byte form, if headers are resolved.
    pub fn cached_byte_headers(&self) -> (r: Option<ByteRecord>)
        ensures
            match r {
                Some(h) => self.spec_state().headers matches Some(hh) && h@ == hh.byte_record@
                    && h.spec_position() == hh.byte_record.spec_position(),
                None => self.spec_state().headers is None,
            },
    {
        match &self.state.headers {
            Some(h) => Some(h.byte_record.clone()),
            None => None,
        }
    }

    /// The cached header row in string form, if headers are resolved: a copy
    /// of the row, or the UTF-8 error found when it was derived, wrapped with
    /// the header row's position.
    pub fn cached_headers(&self) -> (r: Option<Result<StringRecord, Error>>)
        ensures
            match r {
                Some(res) => self.spec_state().headers matches Some(hh) && match res {
                    Ok(s) => hh.string_record matches Ok(s2) && s@ == s2@ && s.spec_position()
                        == s2.spec_position(),
                    Err(e) => e.spec_kind() matches ErrorKind::Utf8 { pos, err }
                        && hh.string_record == Err::<StringRecord, Utf8Error>(err) && pos
                        == hh.byte_record.spec_position(),
                },
                None => self.spec_state().headers is None,
            },
    {
        match &self.state.headers {
            Some(h) => match &h.string_record {
                Ok(s) => Some(Ok(s.clone())),
                Err(u) => {
                    let pos = h.byte_record.position();
                    Some(Err(Error::new(ErrorKind::Utf8 { pos, err: *u })))
                },
            },
            None => None,
        }
    }

    /// Finishes a string-record read from the byte row a record read
    /// produced: validates the row as UTF-8 -- failing with the row's
    /// position and the first offending field -- and strips Unicode
    /// whitespace when field trimming is configured. `got` is handed through
    /// on success.
    pub fn string_from_row(&self, got: bool, brec: ByteRecord, record: &mut StringRecord) -> (r:
        Result<bool, Error>)
        ensures
            (r matches Ok(g) ==> {
                &&& g == got
                &&& final(record)@.len() == brec@.len()
                &&& (forall|i: int|
                    0 <= i < brec@.len() ==> valid_utf8(#[trigger] brec@[i]) && final(record)@[i]
                        == (if trims_fields(self.spec_state()) {
                        trim_seq(decode_utf8(brec@[i]), |c: char| is_unicode_ws(c))
                    } else {
                        decode_utf8(brec@[i])
                    }))
                &&& final(record).spec_position() == brec.spec_position()
            }),
            (r matches Err(e) ==> e.spec_kind() matches ErrorKind::Utf8 { pos, err } && {
                &&& pos == brec.spec_position()
                &&& (err.field as int) < brec@.len()
                &&& !valid_utf8(brec@[err.field as int])
                &&& (forall|k: int| 0 <= k < err.field ==> valid_utf8(#[trigger] brec@[k]))
                &&& err.valid_up_to == valid_prefix_len(brec@[err.field as int])
            }),
    {
        let pos = brec.position();
        match StringRecord::from_byte_record(brec) {
            Ok(mut srec) => {
                if self.state.trim.should_trim_fields() {
                    srec.trim();
                }
                *record = srec;
                Ok(got)
            },
            Err(e) => {
                let u = *e.utf8_error();
                Err(Error::new(ErrorKind::Utf8 { pos, err: u }))
            },
        }
    }
}

/// Turns the outcome of one string-record read into one element of a record
/// stream: a successful read becomes a cloned item, "no more rows" ends the
/// stream without an error item, and an error becomes one item (after which
/// the stream may continue).
pub fn string_stream_item(r: Result<bool, Error>, rec: &StringRecord) -> (s: Option<
    Result<StringRecord, Error>,
>)
    ensures
        (r matches Ok(true) ==> (s matches Some(Ok(c)) && c@ == rec@ && c.spec_position()
            == rec.spec_position())),
        (r matches Ok(false) ==> s is None),
        (r matches Err(e) ==> (s matches Some(Err(e2)) && e2 == e)),
{
    match r {
        Err(err) => Some(Err(err)),
        Ok(true) => Some(Ok(rec.clone())),
        Ok(false) => None,
    }
}

/// The byte-record counterpart of [`string_stream_item`].
pub fn byte_stream_item(r: Result<bool, Error>, rec: &ByteRecord) -> (s: Option<
    Result<ByteRecord, Error>,
>)
    ensures
        (r matches Ok(true) ==> (s matches Some(Ok(c)) && c@ == rec@ && c.spec_position()
            == rec.spec_position())),
        (r matches Ok(false) ==> s is None),
        (r matches Err(e) ==> (s matches Some(Err(e2)) && e2 == e)),
{
    match r {
        Err(err) => Some(Err(err)),
        Ok(true) => Some(Ok(rec.clone())),
        Ok(false) => None,
    }
}

/// A CSV reader over in-memory data.
///
/// This couples the [`ReaderCore`] engine with an owned byte buffer and a
/// cursor, so whole rows can be read with single calls.
pub struct MemReader {
    core: ReaderCore,
    input: Vec<u8>,
    input_pos: usize,
}

impl MemReader {
    /// The reader state.
    pub closed spec fn spec_state(&self) -> ReaderState {
        self.core.spec_state()
    }

    /// The CSV data this reader reads.
    pub closed spec fn spec_input(&self) -> Seq<u8> {
        self.input@
    }

    /// The input bytes not yet consumed.
    pub closed spec fn spec_rest(&self) -> Seq<u8> {
        self.input@.skip(self.input_pos as int)
    }

    /// The raw-read outcome the tokenizer and record buffer determine on the
    /// unconsumed input, at the given fuel: see [`raw_model`].
    pub closed spec fn spec_model(&self, fuel: nat) -> Option<RawOutcome> {
        self.core.raw_state_model(self.spec_rest(), fuel)
    }

    /// The reader's internal consistency: the engine is consistent and has no
    /// row read in progress, and the cursor is within the data.
    pub closed spec fn wf(&self) -> bool {
        &&& self.core.wf()
        &&& self.core.is_idle()
        &&& self.input_pos <= self.input@.len()
    }

    /// Reads one row into `record`, returning `false` when no more rows can
    /// be read.
    ///
    /// When the reader was configured with headers (the default), the first
    /// row of the data is never returned here; it is captured as headers.
    /// Width policy and field trimming apply as configured: a flexible reader
    /// never reports a width error, and a strict one rejects exactly the rows
    /// whose width differs from the first row's, with the expected and actual
    /// widths and the row's position -- and stays usable afterwards.
    pub fn read_byte_record(&mut self, record: &mut ByteRecord) -> (r: Result<bool, Error>)
        requires
            old(self).wf(),
        ensures
            final(self).wf(),
            final(self).spec_input() == old(self).spec_input(),
            final(self).spec_state().has_headers == old(self).spec_state().has_headers,
            final(self).spec_state().flexible == old(self).spec_state().flexible,
            final(self).spec_state().trim == old(self).spec_state().trim,
            final(self).spec_state().seeked == old(self).spec_state().seeked,
            (old(self).spec_state().eof ==> final(self).spec_state().eof),
            (old(self).spec_state().first_field_count matches Some(_) ==> final(self).spec_state().first_field_count == old(self).spec_state().first_field_count),
            (old(self).spec_state().flexible ==> final(self).spec_state().first_field_count == old(self).spec_state().first_field_count),
            old(self).spec_state().cur_pos.byte <= final(self).spec_state().cur_pos.byte,
            old(self).spec_state().cur_pos.record <= final(self).spec_state().cur_pos.record,
            final(self).spec_state().cur_pos.line == final(self).core_line(),
            headers_consistent(final(self).spec_state()),
            (r matches Ok(got) ==> {
                &&& final(self).spec_state().first
                &&& (!final(self).spec_state().seeked ==> final(self).spec_state().headers
                    is Some)
                &&& (!yields_cached_header(old(self).spec_state()) ==> final(record).spec_position() is Some)
                &&& (trims_fields(old(self).spec_state()) ==> forall|i: int|
                    0 <= i < final(record)@.len() ==> #[trigger] final(record)@[i] == trim_seq(
                        final(record)@[i],
                        |b: u8| is_ascii_ws(b),
                    ))
                &&& (!got ==> final(self).spec_state().eof || final(record)@.len() == 0)
                &&& (got && !final(self).spec_state().flexible && !yields_cached_header(
                    old(self).spec_state(),
                ) ==> final(self).spec_state().first_field_count == Some(
                    final(record)@.len() as u64,
                ))
            }),
            (r matches Err(e) ==> {
                &&& (e.spec_kind() is UnequalLengths || e.spec_kind() is RecordTooLarge)
                &&& !final(self).spec_state().eof
                &&& (e.spec_kind() matches ErrorKind::UnequalLengths { pos, expected_len, len }
                    ==> {
                    &&& !old(self).spec_state().flexible
                    &&& pos == final(record).spec_position()
                    &&& len == final(record)@.len() as u64
                    &&& len != expected_len
                    &&& final(self).spec_state().first_field_count == Some(expected_len)
                })
                &&& (e.spec_kind() is RecordTooLarge ==> final(record)@.len() == 0 && final(record).spec_position() is Some)
            }),
            (yields_cached_header(old(self).spec_state()) ==> {
                &&& final(self).spec_state() == (ReaderState {
                    first: true,
                    ..old(self).spec_state()
                })
                &&& (old(self).spec_state().headers matches Some(h) && {
                    &&& final(record)@ == (if trims_fields(old(self).spec_state()) {
                        trim_rows(h.byte_record@, |b: u8| is_ascii_ws(b))
                    } else {
                        h.byte_record@
                    })
                    &&& final(record).spec_position() == h.byte_record.spec_position()
                })
                &&& (r matches Ok(got) && got == (final(record)@.len() != 0))
            }),
            (!yields_cached_header(old(self).spec_state()) && old(self).spec_state().eof ==> {
                &&& (r matches Ok(got) && !got)
                &&& final(self).spec_state().cur_pos == old(self).spec_state().cur_pos
                &&& final(record)@.len() == 0
                &&& final(record).spec_position() == Some(old(self).spec_state().cur_pos)
            }),
            (old(self).single_read() && !old(self).spec_state().eof ==> {
                &&& (r matches Ok(got) ==> (got ==> final(record).spec_position() == Some(
                    old(self).spec_state().cur_pos,
                ) && final(self).spec_state().cur_pos.record == sat_add_u64(
                    old(self).spec_state().cur_pos.record,
                    1,
                )) && (!got ==> final(self).spec_state().eof && final(record)@.len() == 0
                    && final(record).spec_position() == Some(old(self).spec_state().cur_pos)))
                &&& (r matches Err(e) ==> (e.spec_kind() is RecordTooLarge ==> final(record).spec_position() == Some(old(self).spec_state().cur_pos)))
                &&& (r matches Err(e) ==> (e.spec_kind() is UnequalLengths ==> final(record).spec_position() == Some(old(self).spec_state().cur_pos) && final(self).spec_state().cur_pos.record == sat_add_u64(
                    old(self).spec_state().cur_pos.record,
                    1,
                )))
                &&& (r matches Ok(got) ==> (got ==> exists|f: nat|
                    #[trigger] row_read_ok(
                        old(self).spec_model(f),
                        trims_fields(old(self).spec_state()),
                        final(record)@,
                        final(self).spec_rest(),
                    )))
                &&& (r matches Ok(got) ==> (!got ==> exists|f: nat|
                    #[trigger] row_read_end(old(self).spec_model(f), final(self).spec_rest())))
                &&& (r matches Err(e) ==> (e.spec_kind() is UnequalLengths ==> exists|f: nat|
                    #[trigger] row_read_raw(
                        old(self).spec_model(f),
                        final(record)@,
                        final(self).spec_rest(),
                    )))
                &&& (r matches Err(e) ==> (e.spec_kind() is RecordTooLarge ==> exists|f: nat|
                    old(self).spec_model(f) == Some(RawOutcome::Saturated)))
            }),
            (old(self).capture_next() && !old(self).spec_state().eof ==> {
                &&& (r matches Ok(got) ==> (got ==> exists|f: nat, f2: nat|
                    captured_headers(
                        old(self).spec_model(f),
                        trims_headers(old(self).spec_state()),
                        final(self).spec_state().headers,
                    ) && #[trigger] row_read_ok(
                        after_capture(old(self).spec_model(f), f2),
                        trims_fields(old(self).spec_state()),
                        final(record)@,
                        final(self).spec_rest(),
                    )))
                &&& (r matches Ok(got) ==> (!got ==> final(self).spec_state().eof && ({
                    ||| ((exists|f: nat|
                        #[trigger] row_read_end(old(self).spec_model(f), final(self).spec_rest()))
                        && (final(self).spec_state().headers matches Some(h)
                        && h.byte_record@.len() == 0))
                    ||| exists|f: nat, f2: nat|
                        captured_headers(
                            old(self).spec_model(f),
                            trims_headers(old(self).spec_state()),
                            final(self).spec_state().headers,
                        ) && #[trigger] row_read_end(
                            after_capture(old(self).spec_model(f), f2),
                            final(self).spec_rest(),
                        )
                })))
                &&& (r matches Err(e) ==> (e.spec_kind() is UnequalLengths ==> ({
                    ||| exists|f: nat|
                        #[trigger] row_read_raw(
                            old(self).spec_model(f),
                            final(record)@,
                            final(self).spec_rest(),
                        )
                    ||| exists|f: nat, f2: nat|
                        captured_headers(
                            old(self).spec_model(f),
                            trims_headers(old(self).spec_state()),
                            final(self).spec_state().headers,
                        ) && #[trigger] row_read_raw(
                            after_capture(old(self).spec_model(f), f2),
                            final(record)@,
                            final(self).spec_rest(),
                        )
                })))
                &&& (r matches Err(e) ==> (e.spec_kind() is RecordTooLarge ==> ({
                    ||| exists|f: nat| old(self).spec_model(f) == Some(RawOutcome::Saturated)
                    ||| exists|f: nat, f2: nat|
                        captured_headers(
                            old(self).spec_model(f),
                            trims_headers(old(self).spec_state()),
                            final(self).spec_state().headers,
                        ) && #[trigger] after_capture(old(self).spec_model(f), f2) == Some(
                            RawOutcome::Saturated,
                        )
                })))
            }),
    {
        proof {
            assert forall|g: nat| #[trigger] self.core.raw_state_model(
                self.input@.skip(self.input_pos as int),
                g,
            ) == old(self).spec_model(g) by {}
        }
        loop
            invariant
                old(self).wf(),
                self.core.wf(),
                !self.core.is_reading_headers(),
                self.input_pos <= self.input@.len(),
                self.input@ == old(self).input@,
                self.core.spec_state().has_headers == old(self).spec_state().has_headers,
                self.core.spec_state().flexible == old(self).spec_state().flexible,
                self.core.spec_state().trim == old(self).spec_state().trim,
                self.core.spec_state().seeked == old(self).spec_state().seeked,
                (self.core.spec_state().eof ==> old(self).spec_state().eof && self.core.is_idle()),
                (old(self).spec_state().first_field_count matches Some(_) ==> self.core.spec_state().first_field_count == old(self).spec_state().first_field_count),
                (old(self).spec_state().flexible ==> self.core.spec_state().first_field_count == old(self).spec_state().first_field_count),
                (yields_cached_header(old(self).spec_state()) ==> *self == *old(self)),
                (!yields_cached_header(old(self).spec_state()) && old(self).spec_state().eof ==> *self == *old(self)),
                (self.core.is_idle() ==> *self == *old(self)),
                (old(self).single_read() && !old(self).spec_state().eof ==> self.core.single_row_read() && self.core.pending_row_pos() == old(self).spec_state().cur_pos && self.core.spec_state().cur_pos.record == old(self).spec_state().cur_pos.record),
                old(self).spec_state().cur_pos.byte <= self.core.spec_state().cur_pos.byte,
                old(self).spec_state().cur_pos.record <= self.core.spec_state().cur_pos.record,
                (old(self).single_read() && !old(self).spec_state().eof ==> forall|
                    g: nat,
                    o: RawOutcome,
                |
                    self.core.raw_state_model(self.input@.skip(self.input_pos as int), g) == Some(
                        o,
                    ) ==> exists|f: nat| old(self).spec_model(f) == Some(o)),
                (old(self).capture_next() && !old(self).spec_state().eof ==> ({
                    ||| (self.core.capture_read() && !self.core.spec_state().eof && (forall|
                        g: nat,
                        o: RawOutcome,
                    |
                        self.core.raw_state_model(self.input@.skip(self.input_pos as int), g)
                            == Some(o) ==> exists|f: nat| old(self).spec_model(f) == Some(o)))
                    ||| (self.core.is_reading_second() && exists|f: nat|
                        captured_headers(
                            #[trigger] old(self).spec_model(f),
                            trims_headers(old(self).spec_state()),
                            self.core.spec_state().headers,
                        ) && (forall|g: nat, o: RawOutcome|
                            self.core.raw_state_model(self.input@.skip(self.input_pos as int), g)
                                == Some(o) ==> exists|f2: nat|
                                after_capture(old(self).spec_model(f), f2) == Some(o)))
                })),
            decreases self.input@.len() - self.input_pos,
        {
            let chunk = slice_subrange(
                self.input.as_slice(),
                self.input_pos,
                self.input.len(),
            );
            proof {
                assert(chunk@ =~= self.input@.skip(self.input_pos as int));
            }
            let ghost pre_pos = self.input_pos;
            let ghost pre_core = self.core;
            let (n, step) = self.core.feed_row(chunk, record);
            self.input_pos = self.input_pos + n;
            proof {
                assert(chunk@.skip(n as int) =~= self.input@.skip(self.input_pos as int));
            }
            match step {
                Some(res) => {
                    proof {
                        if old(self).capture_next() && !old(self).spec_state().eof {
                            let trimh = trims_headers(old(self).spec_state());
                            let trimf = trims_fields(old(self).spec_state());
                            let crest = self.input@.skip(pre_pos as int);
                            let nrest = self.input@.skip(self.input_pos as int);
                            if pre_core.capture_read() {
                                match &res {
                                    Ok(got) => if *got {
                                        let (fa, fb) = choose|f: nat, f2: nat|
                                            captured_headers(
                                                pre_core.raw_state_model(crest, f),
                                                trimh,
                                                self.core.spec_state().headers,
                                            ) && #[trigger] row_read_ok(
                                                after_capture(
                                                    pre_core.raw_state_model(crest, f),
                                                    f2,
                                                ),
                                                trimf,
                                                record@,
                                                nrest,
                                            );
                                        let m0 = pre_core.raw_state_model(crest, fa);
                                        let o0 = choose|o: RawOutcome| m0 == Some(o);
                                        let fm = choose|f: nat|
                                            old(self).spec_model(f) == Some(o0);
                                        assert(captured_headers(
                                            old(self).spec_model(fm),
                                            trims_headers(old(self).spec_state()),
                                            self.core.spec_state().headers,
                                        ));
                                        assert(row_read_ok(
                                            after_capture(old(self).spec_model(fm), fb),
                                            trims_fields(old(self).spec_state()),
                                            record@,
                                            self.spec_rest(),
                                        ));
                                    } else {
                                        if (exists|f: nat|
                                            #[trigger] row_read_end(
                                                pre_core.raw_state_model(crest, f),
                                                nrest,
                                            )) && (self.core.spec_state().headers matches Some(h)
                                            && h.byte_record@.len() == 0) {
                                            let f0 = choose|f: nat|
                                                #[trigger] row_read_end(
                                                    pre_core.raw_state_model(crest, f),
                                                    nrest,
                                                );
                                            let m0 = pre_core.raw_state_model(crest, f0);
                                            let o0 = choose|o: RawOutcome| m0 == Some(o);
                                            let fm = choose|f: nat|
                                                old(self).spec_model(f) == Some(o0);
                                            assert(row_read_end(
                                                old(self).spec_model(fm),
                                                self.spec_rest(),
                                            ));
                                        } else {
                                            let (fa, fb) = choose|f: nat, f2: nat|
                                                captured_headers(
                                                    pre_core.raw_state_model(crest, f),
                                                    trimh,
                                                    self.core.spec_state().headers,
                                                ) && #[trigger] row_read_end(
                                                    after_capture(
                                                        pre_core.raw_state_model(crest, f),
                                                        f2,
                                                    ),
                                                    nrest,
                                                );
                                            let m0 = pre_core.raw_state_model(crest, fa);
                                            let o0 = choose|o: RawOutcome| m0 == Some(o);
                                            let fm = choose|f: nat|
                                                old(self).spec_model(f) == Some(o0);
                                            assert(captured_headers(
                                                old(self).spec_model(fm),
                                                trims_headers(old(self).spec_state()),
                                                self.core.spec_state().headers,
                                            ));
                                            assert(row_read_end(
                                                after_capture(old(self).spec_model(fm), fb),
                                                self.spec_rest(),
                                            ));
                                        }
                                    },
                                    Err(e) => {
                                        if e.spec_kind() is UnequalLengths {
                                            if exists|f: nat|
                                                #[trigger] row_read_raw(
                                                    pre_core.raw_state_model(crest, f),
                                                    record@,
                                                    nrest,
                                                ) {
                                                let f0 = choose|f: nat|
                                                    #[trigger] row_read_raw(
                                                        pre_core.raw_state_model(crest, f),
                                                        record@,
                                                        nrest,
                                                    );
                                                let m0 = pre_core.raw_state_model(crest, f0);
                                                let o0 = choose|o: RawOutcome| m0 == Some(o);
                                                let fm = choose|f: nat|
                                                    old(self).spec_model(f) == Some(o0);
                                                assert(row_read_raw(
                                                    old(self).spec_model(fm),
                                                    record@,
                                                    self.spec_rest(),
                                                ));
                                            } else {
                                                let (fa, fb) = choose|f: nat, f2: nat|
                                                    captured_headers(
                                                        pre_core.raw_state_model(crest, f),
                                                        trimh,
                                                        self.core.spec_state().headers,
                                                    ) && #[trigger] row_read_raw(
                                                        after_capture(
                                                            pre_core.raw_state_model(crest, f),
                                                            f2,
                                                        ),
                                                        record@,
                                                        nrest,
                                                    );
                                                let m0 = pre_core.raw_state_model(crest, fa);
                                                let o0 = choose|o: RawOutcome| m0 == Some(o);
                                                let fm = choose|f: nat|
                                                    old(self).spec_model(f) == Some(o0);
                                                assert(captured_headers(
                                                    old(self).spec_model(fm),
                                                    trims_headers(old(self).spec_state()),
                                                    self.core.spec_state().headers,
                                                ));
                                                assert(row_read_raw(
                                                    after_capture(old(self).spec_model(fm), fb),
                                                    record@,
                                                    self.spec_rest(),
                                                ));
                                            }
                                        }
                                        if e.spec_kind() is RecordTooLarge {
                                            if exists|f: nat|
                                                pre_core.raw_state_model(crest, f) == Some(
                                                    RawOutcome::Saturated,
                                                ) {
                                                let f0 = choose|f: nat|
                                                    pre_core.raw_state_model(crest, f) == Some(
                                                        RawOutcome::Saturated,
                                                    );
                                                let fm = choose|f: nat|
                                                    old(self).spec_model(f) == Some(
                                                        RawOutcome::Saturated,
                                                    );
                                                assert(old(self).spec_model(fm) == Some(
                                                    RawOutcome::Saturated,
                                                ));
                                            } else {
                                                let (fa, fb) = choose|f: nat, f2: nat|
                                                    captured_headers(
                                                        pre_core.raw_state_model(crest, f),
                                                        trimh,
                                                        self.core.spec_state().headers,
                                                    ) && #[trigger] after_capture(
                                                        pre_core.raw_state_model(crest, f),
                                                        f2,
                                                    ) == Some(RawOutcome::Saturated);
                                                let m0 = pre_core.raw_state_model(crest, fa);
                                                let o0 = choose|o: RawOutcome| m0 == Some(o);
                                                let fm = choose|f: nat|
                                                    old(self).spec_model(f) == Some(o0);
                                                assert(captured_headers(
                                                    old(self).spec_model(fm),
                                                    trims_headers(old(self).spec_state()),
                                                    self.core.spec_state().headers,
                                                ));
                                                assert(after_capture(old(self).spec_model(fm), fb)
                                                    == Some(RawOutcome::Saturated));
                                            }
                                        }
                                    },
                                }
                            } else {
                                let fB = choose|f: nat|
                                    captured_headers(
                                        old(self).spec_model(f),
                                        trimh,
                                        pre_core.spec_state().headers,
                                    ) && (forall|g: nat, o: RawOutcome|
                                        pre_core.raw_state_model(crest, g) == Some(o)
                                            ==> exists|f2: nat|
                                            after_capture(old(self).spec_model(f), f2) == Some(o));
                                assert(captured_headers(
                                    old(self).spec_model(fB),
                                    trims_headers(old(self).spec_state()),
                                    self.core.spec_state().headers,
                                ));
                                match &res {
                                    Ok(got) => if *got {
                                        let g0 = choose|g: nat|
                                            #[trigger] row_read_ok(
                                                pre_core.raw_state_model(crest, g),
                                                trimf,
                                                record@,
                                                nrest,
                                            );
                                        let m0 = pre_core.raw_state_model(crest, g0);
                                        let o0 = choose|o: RawOutcome| m0 == Some(o);
                                        let f2m = choose|f2: nat|
                                            after_capture(old(self).spec_model(fB), f2) == Some(
                                                o0,
                                            );
                                        assert(row_read_ok(
                                            after_capture(old(self).spec_model(fB), f2m),
                                            trims_fields(old(self).spec_state()),
                                            record@,
                                            self.spec_rest(),
                                        ));
                                    } else {
                                        let g0 = choose|g: nat|
                                            #[trigger] row_read_end(
                                                pre_core.raw_state_model(crest, g),
                                                nrest,
                                            );
                                        let m0 = pre_core.raw_state_model(crest, g0);
                                        let o0 = choose|o: RawOutcome| m0 == Some(o);
                                        let f2m = choose|f2: nat|
                                            after_capture(old(self).spec_model(fB), f2) == Some(
                                                o0,
                                            );
                                        assert(row_read_end(
                                            after_capture(old(self).spec_model(fB), f2m),
                                            self.spec_rest(),
                                        ));
                                    },
                                    Err(e) => {
                                        if e.spec_kind() is UnequalLengths {
                                            let g0 = choose|g: nat|
                                                #[trigger] row_read_raw(
                                                    pre_core.raw_state_model(crest, g),
                                                    record@,
                                                    nrest,
                                                );
                                            let m0 = pre_core.raw_state_model(crest, g0);
                                            let o0 = choose|o: RawOutcome| m0 == Some(o);
                                            let f2m = choose|f2: nat|
                                                after_capture(old(self).spec_model(fB), f2)
                                                    == Some(o0);
                                            assert(row_read_raw(
                                                after_capture(old(self).spec_model(fB), f2m),
                                                record@,
                                                self.spec_rest(),
                                            ));
                                        }
                                        if e.spec_kind() is RecordTooLarge {
                                            let g0 = choose|g: nat|
                                                pre_core.raw_state_model(crest, g) == Some(
                                                    RawOutcome::Saturated,
                                                );
                                            let f2m = choose|f2: nat|
                                                after_capture(old(self).spec_model(fB), f2)
                                                    == Some(RawOutcome::Saturated);
                                            assert(after_capture(old(self).spec_model(fB), f2m)
                                                == Some(RawOutcome::Saturated));
                                        }
                                    },
                                }
                            }
                        }
                        if old(self).single_read() && !old(self).spec_state().eof {
                            let trimf = trims_fields(old(self).spec_state());
                            let crest = self.input@.skip(pre_pos as int);
                            let nrest = self.input@.skip(self.input_pos as int);
                            match &res {
                                Ok(got) => if *got {
                                    let f0 = choose|f: nat|
                                        #[trigger] row_read_ok(
                                            pre_core.raw_state_model(crest, f),
                                            trimf,
                                            record@,
                                            nrest,
                                        );
                                    let m0 = pre_core.raw_state_model(crest, f0);
                                    let o0 = choose|o: RawOutcome| m0 == Some(o);
                                    let f1 = choose|f: nat|
                                        old(self).spec_model(f) == Some(o0);
                                    assert(row_read_ok(
                                        old(self).spec_model(f1),
                                        trims_fields(old(self).spec_state()),
                                        record@,
                                        self.spec_rest(),
                                    ));
                                } else {
                                    let f0 = choose|f: nat|
                                        #[trigger] row_read_end(
                                            pre_core.raw_state_model(crest, f),
                                            nrest,
                                        );
                                    let m0 = pre_core.raw_state_model(crest, f0);
                                    let o0 = choose|o: RawOutcome| m0 == Some(o);
                                    let f1 = choose|f: nat|
                                        old(self).spec_model(f) == Some(o0);
                                    assert(row_read_end(
                                        old(self).spec_model(f1),
                                        self.spec_rest(),
                                    ));
                                },
                                Err(e) => {
                                    if e.spec_kind() is UnequalLengths {
                                        let f0 = choose|f: nat|
                                            #[trigger] row_read_raw(
                                                pre_core.raw_state_model(crest, f),
                                                record@,
                                                nrest,
                                            );
                                        let m0 = pre_core.raw_state_model(crest, f0);
                                        let o0 = choose|o: RawOutcome| m0 == Some(o);
                                        let f1 = choose|f: nat|
                                            old(self).spec_model(f) == Some(o0);
                                        assert(row_read_raw(
                                            old(self).spec_model(f1),
                                            record@,
                                            self.spec_rest(),
                                        ));
                                    }
                                    if e.spec_kind() is RecordTooLarge {
                                        let f0 = choose|f: nat|
                                            pre_core.raw_state_model(crest, f) == Some(
                                                RawOutcome::Saturated,
                                            );
                                        let f1 = choose|f: nat|
                                            old(self).spec_model(f) == Some(
                                                RawOutcome::Saturated,
                                            );
                                        assert(old(self).spec_model(f1) == Some(
                                            RawOutcome::Saturated,
                                        ));
                                    }
                                },
                            }
                        }
                    }
                    return res;
                },
                None => {
                    proof {
                        if old(self).capture_next() && !old(self).spec_state().eof {
                            let trimh = trims_headers(old(self).spec_state());
                            let crest = self.input@.skip(pre_pos as int);
                            let nrest = self.input@.skip(self.input_pos as int);
                            if pre_core.capture_read() {
                                if self.core.is_reading_second() {
                                    let fc = choose|f: nat|
                                        captured_headers(
                                            pre_core.raw_state_model(crest, f),
                                            trimh,
                                            self.core.spec_state().headers,
                                        ) && (forall|g: nat, o: RawOutcome|
                                            self.core.raw_state_model(nrest, g) == Some(o)
                                                ==> exists|f2: nat|
                                                after_capture(
                                                    pre_core.raw_state_model(crest, f),
                                                    f2,
                                                ) == Some(o));
                                    let m0 = pre_core.raw_state_model(crest, fc);
                                    let o0 = choose|o: RawOutcome| m0 == Some(o);
                                    let fm = choose|f: nat|
                                        old(self).spec_model(f) == Some(o0);
                                    assert(captured_headers(
                                        old(self).spec_model(fm),
                                        trimh,
                                        self.core.spec_state().headers,
                                    ));
                                    assert forall|g: nat, o: RawOutcome|
                                        self.core.raw_state_model(
                                            self.input@.skip(self.input_pos as int),
                                            g,
                                        ) == Some(o) implies exists|f2: nat|
                                        after_capture(old(self).spec_model(fm), f2) == Some(
                                            o,
                                        ) by {
                                        let fx = choose|f2: nat|
                                            after_capture(m0, f2) == Some(o);
                                        assert(after_capture(old(self).spec_model(fm), fx)
                                            == Some(o));
                                    }
                                } else {
                                    assert forall|g: nat, o: RawOutcome|
                                        self.core.raw_state_model(
                                            self.input@.skip(self.input_pos as int),
                                            g,
                                        ) == Some(o) implies exists|f: nat|
                                        old(self).spec_model(f) == Some(o) by {
                                        let fx = choose|f: nat|
                                            pre_core.raw_state_model(crest, f) == Some(o);
                                        assert(pre_core.raw_state_model(crest, fx) == Some(o));
                                    }
                                }
                            } else {
                                let fB = choose|f: nat|
                                    captured_headers(
                                        old(self).spec_model(f),
                                        trimh,
                                        pre_core.spec_state().headers,
                                    ) && (forall|g: nat, o: RawOutcome|
                                        pre_core.raw_state_model(crest, g) == Some(o)
                                            ==> exists|f2: nat|
                                            after_capture(old(self).spec_model(f), f2) == Some(o));
                                assert(captured_headers(
                                    old(self).spec_model(fB),
                                    trimh,
                                    self.core.spec_state().headers,
                                ));
                                assert forall|g: nat, o: RawOutcome|
                                    self.core.raw_state_model(
                                        self.input@.skip(self.input_pos as int),
                                        g,
                                    ) == Some(o) implies exists|f2: nat|
                                    after_capture(old(self).spec_model(fB), f2) == Some(o) by {
                                    let gx = choose|g2: nat|
                                        pre_core.raw_state_model(crest, g2) == Some(o);
                                    let f2x = choose|f2: nat|
                                        after_capture(old(self).spec_model(fB), f2) == Some(o);
                                    assert(after_capture(old(self).spec_model(fB), f2x) == Some(
                                        o,
                                    ));
                                }
                            }
                        }
                    }
                },
            }
        }
    }

    /// Whether the next row read would be a plain single-row read: no cached
    /// header stands in for it, and no header capture doubles it.
    pub open spec fn single_read(&self) -> bool {
        &&& (self.spec_state().headers is Some || self.spec_state().seeked
            || !self.spec_state().has_headers)
        &&& !yields_cached_header(self.spec_state())
    }

    /// Whether the next row read will capture the first row of the data as
    /// headers before reading the row it returns.
    pub open spec fn capture_next(&self) -> bool {
        &&& !yields_cached_header(self.spec_state())
        &&& self.spec_state().headers is None
        &&& !self.spec_state().seeked
        &&& self.spec_state().has_headers
    }

    /// Reads one row into `record` as strings, returning `false` when no more
    /// rows can be read.
    ///
    /// This reads a byte row like [`MemReader::read_byte_record`], then
    /// validates it as UTF-8 -- failing with the row's position and the
    /// first offending field -- and, when field trimming is configured,
    /// additionally strips Unicode whitespace (byte rows only shed ASCII
    /// whitespace).
    pub fn read_record(&mut self, record: &mut StringRecord) -> (r: Result<bool, Error>)
        requires
            old(self).wf(),
        ensures
            final(self).wf(),
            final(self).spec_input() == old(self).spec_input(),
            final(self).spec_state().has_headers == old(self).spec_state().has_headers,
            final(self).spec_state().flexible == old(self).spec_state().flexible,
            final(self).spec_state().trim == old(self).spec_state().trim,
            final(self).spec_state().seeked == old(self).spec_state().seeked,
            (old(self).spec_state().eof ==> final(self).spec_state().eof),
            (old(self).spec_state().first_field_count matches Some(_) ==> final(self).spec_state().first_field_count == old(self).spec_state().first_field_count),
            (old(self).spec_state().flexible ==> final(self).spec_state().first_field_count == old(self).spec_state().first_field_count),
            old(self).spec_state().cur_pos.byte <= final(self).spec_state().cur_pos.byte,
            old(self).spec_state().cur_pos.record <= final(self).spec_state().cur_pos.record,
            final(self).spec_state().cur_pos.line == final(self).core_line(),
            headers_consistent(final(self).spec_state()),
            (!yields_cached_header(old(self).spec_state()) && old(self).spec_state().eof ==> {
                &&& (r matches Ok(got) && !got)
                &&& final(self).spec_state().cur_pos == old(self).spec_state().cur_pos
                &&& final(record)@.len() == 0
                &&& final(record).spec_position() == Some(old(self).spec_state().cur_pos)
            }),
            (r matches Ok(got) ==> {
                &&& final(self).spec_state().first
                &&& (!final(self).spec_state().seeked ==> final(self).spec_state().headers
                    is Some)
                &&& (trims_fields(old(self).spec_state()) ==> forall|i: int|
                    0 <= i < final(record)@.len() ==> #[trigger] final(record)@[i] == trim_seq(
                        final(record)@[i],
                        |c: char| is_unicode_ws(c),
                    ))
                &&& (!got ==> final(self).spec_state().eof || final(record)@.len() == 0)
            }),
            (r matches Err(e) ==> {
                &&& (e.spec_kind() is UnequalLengths || e.spec_kind() is RecordTooLarge
                    || e.spec_kind() is Utf8)
                &&& (e.spec_kind() is UnequalLengths || e.spec_kind() is RecordTooLarge ==> !final(self).spec_state().eof)
                &&& (e.spec_kind() matches ErrorKind::UnequalLengths { pos, expected_len, len }
                    ==> {
                    &&& !old(self).spec_state().flexible
                    &&& len != expected_len
                    &&& final(self).spec_state().first_field_count == Some(expected_len)
                })
            }),
            (old(self).single_read() && !old(self).spec_state().eof ==> {
                &&& (r matches Ok(got) ==> (got ==> final(record).spec_position() == Some(
                    old(self).spec_state().cur_pos,
                ) && final(self).spec_state().cur_pos.record == sat_add_u64(
                    old(self).spec_state().cur_pos.record,
                    1,
                )) && (!got ==> final(self).spec_state().eof))
                &&& (r matches Err(e) ==> ((e.spec_kind() is UnequalLengths || e.spec_kind()
                    is Utf8) ==> final(self).spec_state().cur_pos.record == sat_add_u64(
                    old(self).spec_state().cur_pos.record,
                    1,
                )))
                &&& (r matches Err(e) ==> (e.spec_kind() matches ErrorKind::Utf8 { pos, err }
                    ==> pos == Some(old(self).spec_state().cur_pos)))
                &&& (r matches Ok(got) ==> (got ==> exists|f: nat|
                    #[trigger] row_read_strings_ok(
                        old(self).spec_model(f),
                        trims_fields(old(self).spec_state()),
                        final(record)@,
                        final(self).spec_rest(),
                    )))
                &&& (r matches Ok(got) ==> (!got ==> exists|f: nat|
                    #[trigger] row_read_end(old(self).spec_model(f), final(self).spec_rest())))
            }),
            (old(self).capture_next() && !old(self).spec_state().eof ==> {
                &&& (r matches Ok(got) ==> (got ==> exists|f: nat, f2: nat|
                    captured_headers(
                        old(self).spec_model(f),
                        trims_headers(old(self).spec_state()),
                        final(self).spec_state().headers,
                    ) && #[trigger] row_read_strings_ok(
                        after_capture(old(self).spec_model(f), f2),
                        trims_fields(old(self).spec_state()),
                        final(record)@,
                        final(self).spec_rest(),
                    )))
                &&& (r matches Ok(got) ==> (!got ==> final(self).spec_state().eof && ({
                    ||| ((exists|f: nat|
                        #[trigger] row_read_end(old(self).spec_model(f), final(self).spec_rest()))
                        && (final(self).spec_state().headers matches Some(h)
                        && h.byte_record@.len() == 0))
                    ||| exists|f: nat, f2: nat|
                        captured_headers(
                            old(self).spec_model(f),
                            trims_headers(old(self).spec_state()),
                            final(self).spec_state().headers,
                        ) && #[trigger] row_read_end(
                            after_capture(old(self).spec_model(f), f2),
                            final(self).spec_rest(),
                        )
                })))
            }),
    {
        let mut brec = ByteRecord::new();
        let got = match self.read_byte_record(&mut brec) {
            Ok(g) => g,
            Err(e) => {
                return Err(e);
            },
        };
        let ghost bv = brec@;
        let res = self.core.string_from_row(got, brec, record);
        proof {
            if res is Ok && trims_fields(self.spec_state()) {
                assert forall|i: int| 0 <= i < record@.len() implies #[trigger] record@[i]
                    == trim_seq(record@[i], |c: char| is_unicode_ws(c)) by {
                    lemma_trim_seq_idempotent(decode_utf8(bv[i]), |c: char| is_unicode_ws(c));
                }
            }
            if old(self).single_read() && !old(self).spec_state().eof && res is Ok {
                if got {
                    let f0 = choose|f: nat|
                        #[trigger] row_read_ok(
                            old(self).spec_model(f),
                            trims_fields(old(self).spec_state()),
                            bv,
                            self.spec_rest(),
                        );
                    assert(row_read_strings_ok(
                        old(self).spec_model(f0),
                        trims_fields(old(self).spec_state()),
                        record@,
                        self.spec_rest(),
                    ));
                } else {
                    let f0 = choose|f: nat|
                        #[trigger] row_read_end(old(self).spec_model(f), self.spec_rest());
                    assert(row_read_end(old(self).spec_model(f0), self.spec_rest()));
                }
            }
            if old(self).capture_next() && !old(self).spec_state().eof && res is Ok && got {
                let (fa, fb) = choose|f: nat, f2: nat|
                    captured_headers(
                        old(self).spec_model(f),
                        trims_headers(old(self).spec_state()),
                        self.spec_state().headers,
                    ) && #[trigger] row_read_ok(
                        after_capture(old(self).spec_model(f), f2),
                        trims_fields(old(self).spec_state()),
                        bv,
                        self.spec_rest(),
                    );
                assert(captured_headers(
                    old(self).spec_model(fa),
                    trims_headers(old(self).spec_state()),
                    self.spec_state().headers,
                ));
                assert(row_read_strings_ok(
                    after_capture(old(self).spec_model(fa), fb),
                    trims_fields(old(self).spec_state()),
                    record@,
                    self.spec_rest(),
                ));
            }
        }
        res
    }

    /// Resolves the header cache, parsing the first row if no headers are
    /// cached yet (empty data yields a zero-field header row).
    fn resolve_headers(&mut self) -> (r: Result<(), Error>)
        requires
            old(self).wf(),
        ensures
            final(self).wf(),
            final(self).spec_input() == old(self).spec_input(),
            final(self).spec_state().has_headers == old(self).spec_state().has_headers,
            final(self).spec_state().flexible == old(self).spec_state().flexible,
            final(self).spec_state().trim == old(self).spec_state().trim,
            final(self).spec_state().seeked == old(self).spec_state().seeked,
            final(self).spec_state().first == old(self).spec_state().first,
            (old(self).spec_state().eof ==> final(self).spec_state().eof),
            (old(self).spec_state().first_field_count matches Some(_) ==> final(self).spec_state().first_field_count == old(self).spec_state().first_field_count),
            (old(self).spec_state().flexible ==> final(self).spec_state().first_field_count == old(self).spec_state().first_field_count),
            old(self).spec_state().cur_pos.byte <= final(self).spec_state().cur_pos.byte,
            old(self).spec_state().cur_pos.record <= final(self).spec_state().cur_pos.record,
            headers_consistent(final(self).spec_state()),
            (r is Ok ==> final(self).spec_state().headers is Some),
            (r matches Err(e) ==> {
                &&& (e.spec_kind() is UnequalLengths || e.spec_kind() is RecordTooLarge)
                &&& final(self).spec_state().headers == old(self).spec_state().headers
                &&& !final(self).spec_state().eof
            }),
            (old(self).spec_state().headers is Some ==> r is Ok && final(self).spec_state()
                == old(self).spec_state() && final(self).spec_rest() == old(self).spec_rest()),
            (old(self).spec_state().headers is None && r is Ok ==> {
                final(self).spec_state().headers matches Some(h) && {
                    &&& h.byte_record.spec_position() == Some(old(self).spec_state().cur_pos)
                    &&& (trims_headers(old(self).spec_state()) ==> forall|i: int|
                        0 <= i < h.byte_record@.len() ==> #[trigger] h.byte_record@[i] == trim_seq(
                            h.byte_record@[i],
                            |b: u8| is_ascii_ws(b),
                        ))
                }
            }),
            (old(self).spec_state().headers is None && old(self).spec_state().eof ==> r is Ok && {
                final(self).spec_state().headers matches Some(h) && h.byte_record@.len() == 0 && (
                h.string_record matches Ok(s) && s@.len() == 0)
            }),
            (old(self).spec_state().headers is None && !old(self).spec_state().eof && r is Ok
                ==> (final(self).spec_state().headers matches Some(h) ==> ({
                ||| exists|f: nat|
                    #[trigger] header_read_ok(
                        old(self).spec_model(f),
                        trims_headers(old(self).spec_state()),
                        h,
                        final(self).spec_rest(),
                    )
                ||| (final(self).spec_state().eof && exists|f: nat|
                    #[trigger] header_read_end(old(self).spec_model(f), h, final(self).spec_rest()))
            }))),
    {
        proof {
            assert forall|g: nat| #[trigger] self.core.raw_state_model(
                self.input@.skip(self.input_pos as int),
                g,
            ) == old(self).spec_model(g) by {}
        }
        loop
            invariant
                old(self).wf(),
                self.core.wf(),
                !self.core.is_reading_row(),
                self.input_pos <= self.input@.len(),
                self.input@ == old(self).input@,
                self.core.spec_state().has_headers == old(self).spec_state().has_headers,
                self.core.spec_state().flexible == old(self).spec_state().flexible,
                self.core.spec_state().trim == old(self).spec_state().trim,
                self.core.spec_state().seeked == old(self).spec_state().seeked,
                self.core.spec_state().first == old(self).spec_state().first,
                self.core.spec_state().headers == old(self).spec_state().headers,
                (self.core.spec_state().eof ==> old(self).spec_state().eof && self.core.is_idle()),
                (old(self).spec_state().first_field_count matches Some(_) ==> self.core.spec_state().first_field_count == old(self).spec_state().first_field_count),
                (old(self).spec_state().flexible ==> self.core.spec_state().first_field_count == old(self).spec_state().first_field_count),
                (self.core.is_idle() ==> *self == *old(self)),
                (old(self).spec_state().eof ==> *self == *old(self)),
                (old(self).spec_state().headers is Some ==> *self == *old(self)),
                self.core.pending_row_pos() == old(self).spec_state().cur_pos,
                self.core.spec_state().cur_pos.record == old(self).spec_state().cur_pos.record,
                old(self).spec_state().cur_pos.byte <= self.core.spec_state().cur_pos.byte,
                (old(self).spec_state().headers is None && !old(self).spec_state().eof ==> forall|
                    g: nat,
                    o: RawOutcome,
                |
                    self.core.raw_state_model(self.input@.skip(self.input_pos as int), g) == Some(
                        o,
                    ) ==> exists|f: nat| old(self).spec_model(f) == Some(o)),
            decreases self.input@.len() - self.input_pos,
        {
            let chunk = slice_subrange(
                self.input.as_slice(),
                self.input_pos,
                self.input.len(),
            );
            proof {
                assert(chunk@ =~= self.input@.skip(self.input_pos as int));
            }
            let ghost pre_pos = self.input_pos;
            let ghost pre_core = self.core;
            let (n, step) = self.core.feed_headers(chunk);
            self.input_pos = self.input_pos + n;
            proof {
                assert(chunk@.skip(n as int) =~= self.input@.skip(self.input_pos as int));
            }
            match step {
                Some(res) => {
                    proof {
                        if old(self).spec_state().headers is None && !old(self).spec_state().eof
                            && res is Ok {
                            let trimh = trims_headers(old(self).spec_state());
                            let crest = self.input@.skip(pre_pos as int);
                            let h0 = choose|h: Headers|
                                self.core.spec_state().headers == Some(h);
                            if exists|f: nat|
                                #[trigger] header_read_ok(
                                    pre_core.raw_state_model(crest, f),
                                    trimh,
                                    h0,
                                    self.spec_rest(),
                                ) {
                                let f0 = choose|f: nat|
                                    #[trigger] header_read_ok(
                                        pre_core.raw_state_model(crest, f),
                                        trimh,
                                        h0,
                                        self.spec_rest(),
                                    );
                                let m0 = pre_core.raw_state_model(crest, f0);
                                let o0 = choose|o: RawOutcome| m0 == Some(o);
                                let f1 = choose|f: nat| old(self).spec_model(f) == Some(o0);
                                assert(header_read_ok(
                                    old(self).spec_model(f1),
                                    trimh,
                                    h0,
                                    self.spec_rest(),
                                ));
                            } else {
                                let f0 = choose|f: nat|
                                    #[trigger] header_read_end(
                                        pre_core.raw_state_model(crest, f),
                                        h0,
                                        self.spec_rest(),
                                    );
                                let m0 = pre_core.raw_state_model(crest, f0);
                                let o0 = choose|o: RawOutcome| m0 == Some(o);
                                let f1 = choose|f: nat| old(self).spec_model(f) == Some(o0);
                                assert(header_read_end(
                                    old(self).spec_model(f1),
                                    h0,
                                    self.spec_rest(),
                                ));
                            }
                        }
                    }
                    return res;
                },
                None => {},
            }
        }
    }

    /// Returns the header row as raw bytes, parsing the first row if no row
    /// has been read yet. Empty data yields a zero-field row. This may be
    /// used whether or not `has_headers` is set.
    pub fn byte_headers(&mut self) -> (r: Result<ByteRecord, Error>)
        requires
            old(self).wf(),
        ensures
            final(self).wf(),
            final(self).spec_input() == old(self).spec_input(),
            final(self).spec_state().has_headers == old(self).spec_state().has_headers,
            final(self).spec_state().flexible == old(self).spec_state().flexible,
            final(self).spec_state().trim == old(self).spec_state().trim,
            final(self).spec_state().seeked == old(self).spec_state().seeked,
            final(self).spec_state().first == old(self).spec_state().first,
            (old(self).spec_state().eof ==> final(self).spec_state().eof),
            old(self).spec_state().cur_pos.byte <= final(self).spec_state().cur_pos.byte,
            headers_consistent(final(self).spec_state()),
            (r matches Ok(h) ==> final(self).spec_state().headers matches Some(hh)
                && h@ == hh.byte_record@ && h.spec_position() == hh.byte_record.spec_position()),
            (r matches Err(e) ==> (e.spec_kind() is UnequalLengths || e.spec_kind()
                is RecordTooLarge) && final(self).spec_state().headers == old(self).spec_state().headers),
            (old(self).spec_state().headers matches Some(hh) ==> final(self).spec_state() == old(self).spec_state() && (r matches Ok(h) && h@ == hh.byte_record@)),
            (old(self).spec_state().headers is None && old(self).spec_state().eof ==> (r matches Ok(h) && h@.len() == 0)),
            (old(self).spec_state().headers is None && !old(self).spec_state().eof ==> (r matches Ok(h) ==> (final(self).spec_state().headers matches Some(hh) ==> ({
                ||| exists|f: nat|
                    #[trigger] header_read_ok(
                        old(self).spec_model(f),
                        trims_headers(old(self).spec_state()),
                        hh,
                        final(self).spec_rest(),
                    )
                ||| (final(self).spec_state().eof && exists|f: nat|
                    #[trigger] header_read_end(old(self).spec_model(f), hh, final(self).spec_rest()))
            })))),
    {
        match self.resolve_headers() {
            Ok(()) => {},
            Err(e) => {
                return Err(e);
            },
        }
        match &self.core.state.headers {
            Some(h) => Ok(h.byte_record.clone()),
            None => {
                proof {
                    assert(false);
                }
                Ok(ByteRecord::new())
            },
        }
    }

    /// Returns the header row as strings, parsing the first row if no row has
    /// been read yet. Empty data yields a zero-field row. Fails with a UTF-8
    /// error (carrying the header row's position and the first offending
    /// field) if the header bytes are not valid UTF-8. This may be used
    /// whether or not `has_headers` is set.
    pub fn headers(&mut self) -> (r: Result<StringRecord, Error>)
        requires
            old(self).wf(),
        ensures
            final(self).wf(),
            final(self).spec_input() == old(self).spec_input(),
            final(self).spec_state().has_headers == old(self).spec_state().has_headers,
            final(self).spec_state().flexible == old(self).spec_state().flexible,
            final(self).spec_state().trim == old(self).spec_state().trim,
            final(self).spec_state().seeked == old(self).spec_state().seeked,
            final(self).spec_state().first == old(self).spec_state().first,
            (old(self).spec_state().eof ==> final(self).spec_state().eof),
            old(self).spec_state().cur_pos.byte <= final(self).spec_state().cur_pos.byte,
            headers_consistent(final(self).spec_state()),
            (r matches Ok(s) ==> final(self).spec_state().headers matches Some(hh) && (
            hh.string_record matches Ok(s2) && s@ == s2@ && s.spec_position()
                == s2.spec_position())),
            (r matches Err(e) ==> (e.spec_kind() matches ErrorKind::Utf8 { pos, err } ==> final(self).spec_state().headers matches Some(hh) && hh.string_record == Err::<
                StringRecord,
                Utf8Error,
            >(err) && pos == hh.byte_record.spec_position())),
            (r matches Err(e) ==> (e.spec_kind() is UnequalLengths || e.spec_kind()
                is RecordTooLarge || e.spec_kind() is Utf8)),
            (final(self).spec_state().headers matches Some(hh) ==> (r is Ok <==> hh.string_record
                is Ok)),
            (old(self).spec_state().headers is Some ==> final(self).spec_state() == old(self).spec_state()),
            (old(self).spec_state().headers is None && old(self).spec_state().eof ==> (r matches Ok(s) && s@.len() == 0)),
            (old(self).spec_state().headers is None && !old(self).spec_state().eof ==> (r matches Ok(s) ==> (final(self).spec_state().headers matches Some(hh) ==> ({
                ||| exists|f: nat|
                    #[trigger] header_read_ok(
                        old(self).spec_model(f),
                        trims_headers(old(self).spec_state()),
                        hh,
                        final(self).spec_rest(),
                    )
                ||| (final(self).spec_state().eof && exists|f: nat|
                    #[trigger] header_read_end(old(self).spec_model(f), hh, final(self).spec_rest()))
            })))),
    {
        match self.resolve_headers() {
            Ok(()) => {},
            Err(e) => {
                return Err(e);
            },
        }
        match &self.core.state.headers {
            Some(h) => match &h.string_record {
                Ok(s) => Ok(s.clone()),
                Err(u) => {
                    let pos = h.byte_record.position();
                    Err(Error::new(ErrorKind::Utf8 { pos, err: *u }))
                },
            },
            None => {
                proof {
                    assert(false);
                }
                Ok(StringRecord::new())
            },
        }
    }

    /// Sets the header row manually, overriding any cached or future
    /// automatic detection. The byte form is derived by UTF-8 encoding; the
    /// header trimming policy applies.
    pub fn set_headers(&mut self, headers: StringRecord)
        requires
            old(self).wf(),
        ensures
            final(self).wf(),
            final(self).spec_input() == old(self).spec_input(),
            final(self).spec_state() == (ReaderState {
                headers: final(self).spec_state().headers,
                ..old(self).spec_state()
            }),
            final(self).spec_state().headers matches Some(h) && {
                &&& (h.string_record matches Ok(s2) && s2@ == (if trims_headers(
                    old(self).spec_state(),
                ) {
                    trim_rows(headers@, |c: char| is_unicode_ws(c))
                } else {
                    headers@
                }))
                &&& h.byte_record@.len() == headers@.len()
                &&& (forall|i: int|
                    0 <= i < headers@.len() ==> #[trigger] h.byte_record@[i] == (if trims_headers(
                        old(self).spec_state(),
                    ) {
                        trim_seq(encode_utf8(headers@[i]), |b: u8| is_ascii_ws(b))
                    } else {
                        encode_utf8(headers@[i])
                    }))
            },
    {
        self.core.set_headers(headers);
    }

    /// Sets the header row manually as raw bytes, overriding any cached or
    /// future automatic detection. The string form is derived by UTF-8
    /// validation; the header trimming policy applies.
    pub fn set_byte_headers(&mut self, headers: ByteRecord)
        requires
            old(self).wf(),
        ensures
            final(self).wf(),
            final(self).spec_input() == old(self).spec_input(),
            final(self).spec_state() == (ReaderState {
                headers: final(self).spec_state().headers,
                ..old(self).spec_state()
            }),
            final(self).spec_state().headers matches Some(h) && {
                &&& h.byte_record@ == (if trims_headers(old(self).spec_state()) {
                    trim_rows(headers@, |x: u8| is_ascii_ws(x))
                } else {
                    headers@
                })
                &&& match h.string_record {
                    Ok(s2) => {
                        &&& s2@.len() == headers@.len()
                        &&& (forall|i: int|
                            0 <= i < headers@.len() ==> valid_utf8(#[trigger] headers@[i])
                                && s2@[i] == (if trims_headers(old(self).spec_state()) {
                                trim_seq(decode_utf8(headers@[i]), |c: char| is_unicode_ws(c))
                            } else {
                                decode_utf8(headers@[i])
                            }))
                    },
                    Err(u) => {
                        &&& (u.field as int) < headers@.len()
                        &&& !valid_utf8(headers@[u.field as int])
                        &&& (forall|k: int|
                            0 <= k < u.field ==> valid_utf8(#[trigger] headers@[k]))
                        &&& u.valid_up_to == valid_prefix_len(headers@[u.field as int])
                    },
                }
            },
    {
        self.core.set_byte_headers(headers);
    }

    /// Seeks this reader to the given position.
    ///
    /// Headers are resolved first if they have not been (seeking disables the
    /// lazy first-row capture, which could not happen correctly afterwards),
    /// so this can fail with a reading error. When the target byte offset
    /// equals the current one no repositioning happens at all; otherwise the
    /// cursor moves to the byte offset and the tracked position is replaced
    /// by `pos` verbatim, end-of-data is cleared, and parsing restarts there.
    /// Either way the special treatment of the first row is permanently
    /// disabled.
    pub fn seek(&mut self, pos: Position) -> (r: Result<(), Error>)
        requires
            old(self).wf(),
        ensures
            final(self).wf(),
            final(self).spec_input() == old(self).spec_input(),
            final(self).spec_state().has_headers == old(self).spec_state().has_headers,
            final(self).spec_state().flexible == old(self).spec_state().flexible,
            final(self).spec_state().trim == old(self).spec_state().trim,
            (r is Ok ==> {
                &&& final(self).spec_state().seeked
                &&& final(self).spec_state().headers is Some
                &&& final(self).spec_state().cur_pos.byte == pos.byte
                &&& (final(self).spec_state().cur_pos == pos && !final(self).spec_state().eof)
                    || final(self).spec_state().cur_pos.byte == pos.byte
            }),
            (r matches Err(e) ==> (e.spec_kind() is UnequalLengths || e.spec_kind()
                is RecordTooLarge) && final(self).spec_state().seeked == old(self).spec_state().seeked),
            headers_consistent(final(self).spec_state()),
            (old(self).spec_state().headers is Some ==> r is Ok),
            (r is Ok && old(self).spec_state().headers is Some && pos.byte != old(self).spec_state().cur_pos.byte ==> final(self).spec_state() == (ReaderState {
                seeked: true,
                cur_pos: pos,
                eof: false,
                ..old(self).spec_state()
            }) && final(self).core_line() == pos.line && final(self).spec_rest() == (if pos.byte
                as int <= old(self).spec_input().len() {
                old(self).spec_input().skip(pos.byte as int)
            } else {
                Seq::empty()
            })),
            (r is Ok && old(self).spec_state().headers is Some && pos.byte == old(self).spec_state().cur_pos.byte ==> final(self).spec_state() == (ReaderState {
                seeked: true,
                ..old(self).spec_state()
            }) && final(self).spec_rest() == old(self).spec_rest()),
    {
        match self.resolve_headers() {
            Ok(()) => {},
            Err(e) => {
                return Err(e);
            },
        }
        let need = self.core.prepare_seek(&pos);
        if need {
            let target = pos.byte();
            let len = self.input.len();
            self.input_pos = if target >= len as u64 {
                len
            } else {
                target as usize
            };
            self.core.apply_seek(pos);
        }
        Ok(())
    }

    /// The tokenizer's line counter.
    pub closed spec fn core_line(&self) -> u64 {
        self.core.spec_line()
    }

    /// The current position of this reader.
    pub fn position(&self) -> (r: Position)
        ensures
            r == self.spec_state().cur_pos,
    {
        self.core.position()
    }

    /// Whether this reader has reached the end of its data. Once true, row
    /// reads return "no more rows" until a seek clears it.
    pub fn is_done(&self) -> (r: bool)
        ensures
            r == self.spec_state().eof,
    {
        self.core.is_done()
    }

    /// Whether this reader was configured to withhold the first row as
    /// headers.
    pub fn has_headers(&self) -> (r: bool)
        ensures
            r == self.spec_state().has_headers,
    {
        self.core.has_headers()
    }
}

} // verus!
