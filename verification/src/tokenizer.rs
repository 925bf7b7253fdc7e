//! The trusted boundary to the `csv_core` tokenizer.
//!
//! The tokenizer owns the character-level CSV grammar and is relied upon at
//! its interface only: the wrappers here state how one feeding step relates
//! input consumed, output written and field boundaries recorded, but say
//! nothing about which bytes the grammar places where. Two abstract
//! quantities of a tokenizer are named: its running line counter, and its
//! write position within the output of the record being read.

use vstd::prelude::*;

use crate::Terminator;

verus! {

/// `csv_core::Reader`, the incremental CSV tokenizer, declared opaquely.
#[verifier::external_type_specification]
#[verifier::external_body]
pub struct ExCoreReader(csv_core::Reader);

/// The tokenizer's running line counter, as returned by
/// `csv_core::Reader::line`.
pub uninterp spec fn line_of(tok: csv_core::Reader) -> u64;

/// The tokenizer's write position within the output of the record currently
/// being read: the total number of output bytes it has produced for that
/// record so far. Field end offsets are recorded relative to this count, as
/// if the whole record sat in one contiguous buffer.
pub uninterp spec fn outpos_of(tok: csv_core::Reader) -> int;

/// The outcome a tokenizer reports for one `read_record` call, as a function
/// of its arguments: the call reads nothing but the tokenizer's own state,
/// the input bytes and the two spare capacities, so each component of its
/// result is determined by them. The five names below decompose that one
/// outcome; every wrapper call instantiates them consistently.
///
/// Which of the five step outcomes is reported.
pub uninterp spec fn tok_step_of(tok: csv_core::Reader, input: Seq<u8>, outcap: int, endcap: int) -> ParseStep;

/// How many input bytes are consumed.
pub uninterp spec fn tok_nin_of(tok: csv_core::Reader, input: Seq<u8>, outcap: int, endcap: int) -> int;

/// The record bytes written to the output store.
pub uninterp spec fn tok_out_of(tok: csv_core::Reader, input: Seq<u8>, outcap: int, endcap: int) -> Seq<u8>;

/// The field end offsets written, counted within the whole record.
pub uninterp spec fn tok_ends_of(tok: csv_core::Reader, input: Seq<u8>, outcap: int, endcap: int) -> Seq<int>;

/// The tokenizer's state after the call.
pub uninterp spec fn tok_next_of(tok: csv_core::Reader, input: Seq<u8>, outcap: int, endcap: int) -> csv_core::Reader;

/// What one feeding step of the tokenizer reported.
#[derive(Clone, Copy, Debug, PartialEq, Eq, Structural)]
pub enum ParseStep {
    /// All input was consumed without completing a record.
    InputEmpty,
    /// The output buffer is full; grow it and feed again.
    OutputFull,
    /// The field-ends buffer is full; grow it and feed again.
    OutputEndsFull,
    /// A complete record is available.
    Record,
    /// The end of the CSV data was reached.
    End,
}

/// Relies on `csv_core::ReaderBuilder`: configures and builds a tokenizer.
/// A fresh tokenizer is at line 1, has produced no record output yet, and
/// reports the end of the data when fed empty input (it starts at the
/// start-of-record state, whose final transition ends the data).
#[verifier::external_body]
pub(crate) fn tok_new(
    delimiter: u8,
    terminator: Terminator,
    quote: u8,
    escape: Option<u8>,
    double_quote: bool,
    quoting: bool,
    comment: Option<u8>,
) -> (r: csv_core::Reader)
    ensures
        line_of(r) == 1,
        outpos_of(r) == 0,
        forall|oc: int, ec: int| #[trigger] tok_step_of(r, Seq::empty(), oc, ec) is End,
{
    let mut b = csv_core::ReaderBuilder::new();
    b.delimiter(delimiter);
    match terminator {
        Terminator::CRLF => {},
        Terminator::Any(t) => {
            b.terminator(csv_core::Terminator::Any(t));
        },
    }
    b.quote(quote);
    b.escape(escape);
    b.double_quote(double_quote);
    b.quoting(quoting);
    b.comment(comment);
    b.build()
}

/// Relies on `csv_core::Reader::read_record`: feeds `input` to the tokenizer,
/// letting it write record bytes to `out` from `out_start` on and field end
/// offsets to `ends` from `ends_start` on.
///
/// Returns the step outcome together with the number of input bytes consumed,
/// output bytes written and end offsets written. The recorded end offsets
/// continue the tokenizer's write position for the current record, are
/// non-decreasing, and never exceed the output produced for that record; when
/// a record completes, the write position starts over for the next record.
/// The call reads nothing but its arguments, so its whole outcome -- the
/// step, the counts, the bytes and offsets written and the state left behind
/// -- is the named function of them.
#[verifier::external_body]
pub(crate) fn tok_read(
    tok: &mut csv_core::Reader,
    input: &[u8],
    out: &mut Vec<u8>,
    out_start: usize,
    ends: &mut Vec<usize>,
    ends_start: usize,
) -> (r: (ParseStep, usize, usize, usize))
    requires
        out_start <= old(out)@.len(),
        ends_start <= old(ends)@.len(),
    ensures
        r.1 <= input@.len(),
        r.2 <= old(out)@.len() - out_start,
        r.3 <= old(ends)@.len() - ends_start,
        final(out)@.len() == old(out)@.len(),
        final(ends)@.len() == old(ends)@.len(),
        forall|k: int| 0 <= k < out_start ==> final(out)@[k] == old(out)@[k],
        forall|k: int| 0 <= k < ends_start ==> final(ends)@[k] == old(ends)@[k],
        forall|k: int|
            ends_start <= k < ends_start + r.3 ==> {
                &&& outpos_of(*old(tok)) <= #[trigger] final(ends)@[k]
                &&& final(ends)@[k] <= outpos_of(*old(tok)) + r.2
                &&& (k > ends_start ==> final(ends)@[k - 1] <= final(ends)@[k])
            },
        r.0 is Record ==> outpos_of(*final(tok)) == 0,
        !(r.0 is Record) ==> outpos_of(*final(tok)) == outpos_of(*old(tok)) + r.2,
        r.0 is InputEmpty ==> r.1 == input@.len(),
        r.0 is End ==> r.2 == 0 && r.3 == 0,
        r.0 is OutputFull && r.1 == 0 ==> out_start == old(out)@.len(),
        r.0 is OutputEndsFull && r.1 == 0 ==> ends_start == old(ends)@.len(),
        input@.len() == 0 ==> !(r.0 is InputEmpty) && !(r.0 is OutputFull),
        r.0 == tok_step_of(*old(tok), input@, old(out)@.len() - out_start, old(ends)@.len() - ends_start),
        r.1 == tok_nin_of(*old(tok), input@, old(out)@.len() - out_start, old(ends)@.len() - ends_start),
        r.2 == tok_out_of(*old(tok), input@, old(out)@.len() - out_start, old(ends)@.len() - ends_start).len(),
        r.3 == tok_ends_of(*old(tok), input@, old(out)@.len() - out_start, old(ends)@.len() - ends_start).len(),
        forall|k: int|
            0 <= k < r.2 ==> #[trigger] final(out)@[out_start + k] == tok_out_of(*old(tok), input@, old(out)@.len() - out_start, old(ends)@.len() - ends_start)[k],
        forall|k: int|
            0 <= k < r.3 ==> #[trigger] final(ends)@[ends_start + k] as int == tok_ends_of(*old(tok), input@, old(out)@.len() - out_start, old(ends)@.len() - ends_start)[k],
        *final(tok) == tok_next_of(*old(tok), input@, old(out)@.len() - out_start, old(ends)@.len() - ends_start),
{
    let (res, nin, nout, nend) = tok.read_record(
        input,
        &mut out[out_start..],
        &mut ends[ends_start..],
    );
    let step = match res {
        csv_core::ReadRecordResult::InputEmpty => ParseStep::InputEmpty,
        csv_core::ReadRecordResult::OutputFull => ParseStep::OutputFull,
        csv_core::ReadRecordResult::OutputEndsFull => ParseStep::OutputEndsFull,
        csv_core::ReadRecordResult::Record => ParseStep::Record,
        csv_core::ReadRecordResult::End => ParseStep::End,
    };
    (step, nin, nout, nend)
}

/// Relies on `csv_core::Reader::reset`: returns the tokenizer to its state
/// as built -- at line 1, with no record output produced, and reporting the
/// end of the data when fed empty input.
#[verifier::external_body]
pub(crate) fn tok_reset(tok: &mut csv_core::Reader)
    ensures
        line_of(*final(tok)) == 1,
        outpos_of(*final(tok)) == 0,
        forall|oc: int, ec: int| #[trigger] tok_step_of(*final(tok), Seq::empty(), oc, ec) is End,
{
    tok.reset();
}

/// Relies on `csv_core::Reader::set_line`: sets the line counter and touches
/// nothing else.
#[verifier::external_body]
pub(crate) fn tok_set_line(tok: &mut csv_core::Reader, line: u64)
    ensures
        line_of(*final(tok)) == line,
        outpos_of(*final(tok)) == outpos_of(*old(tok)),
{
    tok.set_line(line);
}

/// Relies on `csv_core::Reader::line`: reads the running line counter.
#[verifier::external_body]
pub(crate) fn tok_line(tok: &csv_core::Reader) -> (r: u64)
    ensures
        r == line_of(*tok),
{
    tok.line()
}

} // verus!
