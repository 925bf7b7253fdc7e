//! A record of UTF-8 string fields.

use vstd::prelude::*;
use vstd::string::StrSliceExecFns;
use vstd::utf8::{decode_utf8, encode_utf8, valid_utf8};

use crate::byte_record::ByteRecord;
use crate::error::Utf8Error;
use crate::position::Position;
use crate::trimming::{lemma_leading_exact, lemma_trailing_exact, trim_rows, trim_seq};

verus! {

/// Whether `c` has the Unicode `White_Space` property.
pub open spec fn is_unicode_ws(c: char) -> bool {
    let v = c as u32;
    (9 <= v && v <= 13) || v == 0x20 || v == 0x85 || v == 0xA0 || v == 0x1680 || (0x2000 <= v
        && v <= 0x200A) || v == 0x2028 || v == 0x2029 || v == 0x202F || v == 0x205F || v == 0x3000
}

/// Executable test for Unicode whitespace, matching [`is_unicode_ws`].
pub fn is_unicode_ws_char(c: char) -> (r: bool)
    ensures
        r == is_unicode_ws(c),
{
    let v = c as u32;
    (9 <= v && v <= 13) || v == 0x20 || v == 0x85 || v == 0xA0 || v == 0x1680 || (0x2000 <= v
        && v <= 0x200A) || v == 0x2028 || v == 0x2029 || v == 0x202F || v == 0x205F || v == 0x3000
}

/// The length of the longest prefix of `bytes` that is valid UTF-8.
pub open spec fn valid_prefix_len(bytes: Seq<u8>) -> int
    decreases bytes.len(),
{
    if valid_utf8(bytes) {
        bytes.len() as int
    } else if bytes.len() == 0 {
        0
    } else {
        valid_prefix_len(bytes.drop_last())
    }
}

/// Relies on `std::str::from_utf8`: it succeeds exactly on valid UTF-8 input
/// and returns the decoded characters; on failure, `valid_up_to` is the
/// length of the longest prefix of the input that is valid UTF-8.
#[verifier::external_body]
fn bytes_to_string(b: &[u8]) -> (r: Result<String, usize>)
    ensures
        match r {
            Ok(s) => valid_utf8(b@) && s@ == decode_utf8(b@),
            Err(n) => !valid_utf8(b@) && n == valid_prefix_len(b@),
        },
{
    match std::str::from_utf8(b) {
        Ok(s) => Ok(s.to_owned()),
        Err(e) => Err(e.valid_up_to()),
    }
}

/// A single CSV record whose fields are guaranteed valid UTF-8.
///
/// A record optionally carries the [`Position`] at which it started in the
/// CSV data it was read from.
#[derive(Debug)]
pub struct StringRecord {
    fields: Vec<String>,
    pos: Option<Position>,
}

impl View for StringRecord {
    type V = Seq<Seq<char>>;

    /// A record is viewed as the sequence of its fields' character sequences.
    closed spec fn view(&self) -> Seq<Seq<char>> {
        Seq::new(self.fields@.len(), |i: int| self.fields@[i]@)
    }
}

/// The error returned when a [`ByteRecord`] with invalid UTF-8 is converted
/// into a [`StringRecord`]. It hands the byte record back, undamaged.
#[derive(Debug)]
pub struct FromUtf8Error {
    record: ByteRecord,
    err: Utf8Error,
}

impl FromUtf8Error {
    /// The byte record this error was built from.
    pub closed spec fn spec_record(&self) -> ByteRecord {
        self.record
    }

    /// The UTF-8 error that caused the conversion to fail.
    pub closed spec fn spec_utf8_error(&self) -> Utf8Error {
        self.err
    }

    /// The underlying UTF-8 validation error.
    pub fn utf8_error(&self) -> (r: &Utf8Error)
        ensures
            *r == self.spec_utf8_error(),
    {
        &self.err
    }

    /// Unwraps this error, handing back the original byte record.
    pub fn into_byte_record(self) -> (r: ByteRecord)
        ensures
            r == self.spec_record(),
    {
        self.record
    }
}

impl StringRecord {
    /// The position this record carries, if any.
    pub closed spec fn spec_position(&self) -> Option<Position> {
        self.pos
    }

    /// Returns a new, empty string record, carrying no position.
    pub fn new() -> (r: StringRecord)
        ensures
            r@ == Seq::<Seq<char>>::empty(),
            r.spec_position() is None,
    {
        let r = StringRecord { fields: Vec::new(), pos: None };
        proof {
            assert(r@ =~= Seq::<Seq<char>>::empty());
        }
        r
    }

    /// The number of fields in this record.
    pub fn len(&self) -> (r: usize)
        ensures
            r == self@.len(),
    {
        self.fields.len()
    }

    /// Whether this record has no fields.
    pub fn is_empty(&self) -> (r: bool)
        ensures
            r == (self@.len() == 0),
    {
        self.fields.len() == 0
    }

    /// The field at index `i`, or `None` if `i` is out of bounds.
    pub fn get(&self, i: usize) -> (r: Option<&str>)
        ensures
            match r {
                Some(f) => i < self@.len() && f@ == self@[i as int],
                None => i >= self@.len(),
            },
    {
        if i < self.fields.len() {
            Some(self.fields[i].as_str())
        } else {
            None
        }
    }

    /// Appends a field to this record.
    pub fn push_field(&mut self, field: String)
        ensures
            final(self)@ == old(self)@.push(field@),
            final(self).spec_position() == old(self).spec_position(),
    {
        self.fields.push(field);
        proof {
            assert(self@ =~= old(self)@.push(field@));
        }
    }

    /// The position this record carries, if any.
    pub fn position(&self) -> (r: Option<Position>)
        ensures
            r == self.spec_position(),
    {
        self.pos
    }

    /// Replaces the position carried by this record.
    pub fn set_position(&mut self, pos: Option<Position>)
        ensures
            final(self)@ == old(self)@,
            final(self).spec_position() == pos,
    {
        self.pos = pos;
    }

    /// Builds a string record out of a byte record by validating every field
    /// as UTF-8.
    ///
    /// On success, every field is the decoding of the corresponding byte
    /// field. On failure, the error locates the first field holding invalid
    /// UTF-8, says how many of its bytes are valid, and hands the byte record
    /// back unchanged.
    pub fn from_byte_record(record: ByteRecord) -> (r: Result<StringRecord, FromUtf8Error>)
        ensures
            match r {
                Ok(s) => {
                    &&& s@.len() == record@.len()
                    &&& forall|i: int|
                        0 <= i < record@.len() ==> valid_utf8(#[trigger] record@[i]) && s@[i]
                            == decode_utf8(record@[i])
                    &&& s.spec_position() == record.spec_position()
                },
                Err(e) => {
                    &&& e.spec_record() == record
                    &&& (e.spec_utf8_error().field as int) < record@.len()
                    &&& !valid_utf8(record@[e.spec_utf8_error().field as int])
                    &&& forall|k: int|
                        0 <= k < e.spec_utf8_error().field ==> valid_utf8(#[trigger] record@[k])
                    &&& e.spec_utf8_error().valid_up_to == valid_prefix_len(
                        record@[e.spec_utf8_error().field as int],
                    )
                },
            },
    {
        let mut fields: Vec<String> = Vec::new();
        let n = record.len();
        let mut i: usize = 0;
        while i < n
            invariant
                n == record@.len(),
                i <= n,
                fields@.len() == i,
                forall|k: int|
                    0 <= k < i ==> valid_utf8(#[trigger] record@[k]) && fields@[k]@ == decode_utf8(
                        record@[k],
                    ),
            decreases n - i,
        {
            let field = match record.get(i) {
                Some(f) => f,
                None => {
                    proof {
                        assert(false);
                    }
                    return Err(FromUtf8Error {
                        record,
                        err: Utf8Error { field: 0, valid_up_to: 0 },
                    });
                },
            };
            match bytes_to_string(field.as_slice()) {
                Ok(s) => {
                    fields.push(s);
                },
                Err(valid_up_to) => {
                    return Err(FromUtf8Error { record, err: Utf8Error { field: i, valid_up_to } });
                },
            }
            i += 1;
        }
        let pos = record.position();
        let r = StringRecord { fields, pos };
        proof {
            assert(forall|k: int| 0 <= k < r@.len() ==> r@[k] == r.fields@[k]@);
        }
        Ok(r)
    }

    /// Turns this string record into a byte record by encoding every field
    /// as UTF-8.
    pub fn into_byte_record(self) -> (r: ByteRecord)
        ensures
            r@.len() == self@.len(),
            forall|i: int| 0 <= i < self@.len() ==> #[trigger] r@[i] == encode_utf8(self@[i]),
            r.spec_position() == self.spec_position(),
    {
        let mut r = ByteRecord::new();
        r.set_position(self.position());
        let mut i: usize = 0;
        while i < self.fields.len()
            invariant
                i <= self.fields.len(),
                r@.len() == i,
                forall|k: int| 0 <= k < i ==> #[trigger] r@[k] == encode_utf8(self.fields@[k]@),
                r.spec_position() == self.spec_position(),
            decreases self.fields.len() - i,
        {
            r.push_field(self.fields[i].as_str().as_bytes_vec());
            i += 1;
        }
        r
    }

    /// Strips leading and trailing Unicode whitespace from every field, in
    /// place. The number of fields and the record's position are unchanged.
    pub fn trim(&mut self)
        ensures
            final(self)@ == trim_rows(old(self)@, |c: char| is_unicode_ws(c)),
            final(self).spec_position() == old(self).spec_position(),
    {
        let ghost target = trim_rows(old(self)@, |c: char| is_unicode_ws(c));
        let mut out: Vec<String> = Vec::new();
        let mut k: usize = 0;
        while k < self.fields.len()
            invariant
                *self == *old(self),
                k <= self.fields.len(),
                out@.len() == k,
                forall|i: int| 0 <= i < k ==> #[trigger] out@[i]@ == target[i],
                target == trim_rows(self@, |c: char| is_unicode_ws(c)),
            decreases self.fields.len() - k,
        {
            let t = trim_str_field(&self.fields[k]);
            proof {
                assert(self@[k as int] == self.fields@[k as int]@);
            }
            out.push(t);
            k += 1;
        }
        self.fields = out;
        proof {
            assert(self@ =~= target);
        }
    }
}

impl Clone for StringRecord {
    /// Cloning a string record preserves its fields and position exactly.
    fn clone(&self) -> (r: Self)
        ensures
            r@ == self@,
            r.spec_position() == self.spec_position(),
    {
        let mut fields: Vec<String> = Vec::new();
        let mut k: usize = 0;
        while k < self.fields.len()
            invariant
                k <= self.fields.len(),
                fields@.len() == k,
                forall|i: int| 0 <= i < k ==> #[trigger] fields@[i]@ == self.fields@[i]@,
            decreases self.fields.len() - k,
        {
            fields.push(self.fields[k].clone());
            k += 1;
        }
        let r = StringRecord { fields, pos: self.pos };
        proof {
            assert(r@ =~= self@);
        }
        r
    }
}

/// A copy of `s` with leading and trailing Unicode whitespace removed.
pub fn trim_str_field(s: &String) -> (r: String)
    ensures
        r@ == trim_seq(s@, |c: char| is_unicode_ws(c)),
{
    let st = s.as_str();
    let n = st.unicode_len();
    let mut i: usize = 0;
    while i < n && is_unicode_ws_char(st.get_char(i))
        invariant
            n == st@.len(),
            i <= n,
            forall|k: int| 0 <= k < i ==> is_unicode_ws(#[trigger] st@[k]),
        decreases n - i,
    {
        i += 1;
    }
    let mut j: usize = n;
    while j > i && is_unicode_ws_char(st.get_char(j - 1))
        invariant
            n == st@.len(),
            i <= j <= n,
            forall|k: int| 0 <= k < i ==> is_unicode_ws(#[trigger] st@[k]),
            forall|k: int| j <= k < n ==> is_unicode_ws(#[trigger] st@[k]),
        decreases j,
    {
        j -= 1;
    }
    proof {
        let p = |c: char| is_unicode_ws(c);
        assert forall|k: int| 0 <= k < i implies p(#[trigger] st@[k]) by {}
        if (i as int) < st@.len() {
            assert(!p(st@[i as int]));
        }
        lemma_leading_exact(st@, p, i as int);
        let rest = st@.subrange(i as int, st@.len() as int);
        assert forall|k: int| rest.len() - (st@.len() - j) <= k < rest.len() implies p(
            #[trigger] rest[k],
        ) by {
            assert(rest[k] == st@[i + k]);
        }
        if st@.len() - j < rest.len() {
            assert(rest[rest.len() - (st@.len() - j) - 1] == st@[j - 1]);
            assert(!p(st@[j - 1]));
        }
        lemma_trailing_exact(rest, p, st@.len() - j);
        assert(trim_seq(st@, p) =~= st@.subrange(i as int, j as int));
    }
    st.substring_char(i, j).to_owned()
}

} // verus!
