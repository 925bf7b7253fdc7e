//! A record of raw byte fields.

use vstd::prelude::*;
use vstd::slice::{slice_subrange, slice_to_vec};

use crate::position::Position;
use crate::trimming::{lemma_leading_exact, lemma_trailing_exact, trim_rows, trim_seq};

verus! {

/// Whether `b` is ASCII whitespace: one of `\t`, `\n`, `\x0B`, `\x0C`, `\r`
/// or a space.
pub open spec fn is_ascii_ws(b: u8) -> bool {
    b == 9 || b == 10 || b == 11 || b == 12 || b == 13 || b == 32
}

/// A single CSV record stored as raw bytes, one owned byte string per field.
///
/// A record optionally carries the [`Position`] at which it started in the
/// CSV data it was read from.
#[derive(Debug)]
pub struct ByteRecord {
    fields: Vec<Vec<u8>>,
    pos: Option<Position>,
}

impl View for ByteRecord {
    type V = Seq<Seq<u8>>;

    /// A record is viewed as the sequence of its fields' byte sequences.
    closed spec fn view(&self) -> Seq<Seq<u8>> {
        Seq::new(self.fields@.len(), |i: int| self.fields@[i]@)
    }
}

impl ByteRecord {
    /// The position this record carries, if any.
    pub closed spec fn spec_position(&self) -> Option<Position> {
        self.pos
    }

    /// Returns a new, empty byte record, carrying no position.
    pub fn new() -> (r: ByteRecord)
        ensures
            r@ == Seq::<Seq<u8>>::empty(),
            r.spec_position() is None,
    {
        let r = ByteRecord { fields: Vec::new(), pos: None };
        proof {
            assert(r@ =~= Seq::<Seq<u8>>::empty());
        }
        r
    }

    /// Removes all fields from this record; its position is kept.
    pub fn clear(&mut self)
        ensures
            final(self)@ == Seq::<Seq<u8>>::empty(),
            final(self).spec_position() == old(self).spec_position(),
    {
        self.fields.clear();
        proof {
            assert(self@ =~= Seq::<Seq<u8>>::empty());
        }
    }

    /// The number of fields in this record.
    pub fn len(&self) -> (r: usize)
        ensures
            r == self@.len(),
    {
        self.fields.len()
    }

    /// Whether this record has no fields.
    pub fn is_empty(&self) -> (r: bool)
        ensures
            r == (self@.len() == 0),
    {
        self.fields.len() == 0
    }

    /// The field at index `i`, or `None` if `i` is out of bounds.
    pub fn get(&self, i: usize) -> (r: Option<&Vec<u8>>)
        ensures
            match r {
                Some(f) => i < self@.len() && f@ == self@[i as int],
                None => i >= self@.len(),
            },
    {
        if i < self.fields.len() {
            Some(&self.fields[i])
        } else {
            None
        }
    }

    /// Appends a field to this record.
    pub fn push_field(&mut self, field: Vec<u8>)
        ensures
            final(self)@ == old(self)@.push(field@),
            final(self).spec_position() == old(self).spec_position(),
    {
        self.fields.push(field);
        proof {
            assert(self@ =~= old(self)@.push(field@));
        }
    }

    /// The position this record carries, if any.
    pub fn position(&self) -> (r: Option<Position>)
        ensures
            r == self.spec_position(),
    {
        self.pos
    }

    /// Replaces the position carried by this record.
    pub fn set_position(&mut self, pos: Option<Position>)
        ensures
            final(self)@ == old(self)@,
            final(self).spec_position() == pos,
    {
        self.pos = pos;
    }

    /// Strips leading and trailing ASCII whitespace from every field, in
    /// place. The number of fields and the record's position are unchanged.
    pub fn trim(&mut self)
        ensures
            final(self)@ == trim_rows(old(self)@, |b: u8| is_ascii_ws(b)),
            final(self).spec_position() == old(self).spec_position(),
    {
        let ghost target = trim_rows(old(self)@, |b: u8| is_ascii_ws(b));
        let mut out: Vec<Vec<u8>> = Vec::new();
        let mut k: usize = 0;
        while k < self.fields.len()
            invariant
                *self == *old(self),
                k <= self.fields.len(),
                out@.len() == k,
                forall|i: int| 0 <= i < k ==> #[trigger] out@[i]@ == target[i],
                target == trim_rows(self@, |b: u8| is_ascii_ws(b)),
            decreases self.fields.len() - k,
        {
            let t = trim_field(&self.fields[k]);
            proof {
                assert(self@[k as int] == self.fields@[k as int]@);
            }
            out.push(t);
            k += 1;
        }
        self.fields = out;
        proof {
            assert(self@ =~= target);
        }
    }
}

impl Clone for ByteRecord {
    /// Cloning a byte record preserves its fields and position exactly.
    fn clone(&self) -> (r: Self)
        ensures
            r@ == self@,
            r.spec_position() == self.spec_position(),
    {
        let mut fields: Vec<Vec<u8>> = Vec::new();
        let mut k: usize = 0;
        while k < self.fields.len()
            invariant
                k <= self.fields.len(),
                fields@.len() == k,
                forall|i: int| 0 <= i < k ==> #[trigger] fields@[i]@ == self.fields@[i]@,
            decreases self.fields.len() - k,
        {
            fields.push(slice_to_vec(self.fields[k].as_slice()));
            k += 1;
        }
        let r = ByteRecord { fields, pos: self.pos };
        proof {
            assert(r@ =~= self@);
        }
        r
    }
}

/// A copy of `f` with leading and trailing ASCII whitespace removed.
pub fn trim_field(f: &Vec<u8>) -> (r: Vec<u8>)
    ensures
        r@ == trim_seq(f@, |b: u8| is_ascii_ws(b)),
{
    let mut i: usize = 0;
    while i < f.len() && is_ascii_ws_byte(f[i])
        invariant
            i <= f@.len(),
            forall|k: int| 0 <= k < i ==> is_ascii_ws(#[trigger] f@[k]),
        decreases f@.len() - i,
    {
        i += 1;
    }
    let mut j: usize = f.len();
    while j > i && is_ascii_ws_byte(f[j - 1])
        invariant
            i <= j <= f@.len(),
            forall|k: int| 0 <= k < i ==> is_ascii_ws(#[trigger] f@[k]),
            forall|k: int| j <= k < f@.len() ==> is_ascii_ws(#[trigger] f@[k]),
        decreases j,
    {
        j -= 1;
    }
    proof {
        let p = |b: u8| is_ascii_ws(b);
        assert forall|k: int| 0 <= k < i implies p(#[trigger] f@[k]) by {}
        if (i as int) < f@.len() {
            assert(!p(f@[i as int]));
        }
        lemma_leading_exact(f@, p, i as int);
        let rest = f@.subrange(i as int, f@.len() as int);
        assert forall|k: int| rest.len() - (f@.len() - j) <= k < rest.len() implies p(
            #[trigger] rest[k],
        ) by {
            assert(rest[k] == f@[i + k]);
        }
        if f@.len() - j < rest.len() {
            assert(rest[rest.len() - (f@.len() - j) - 1] == f@[j - 1]);
            assert(!p(f@[j - 1]));
        }
        lemma_trailing_exact(rest, p, f@.len() - j);
        assert(trim_seq(f@, p) =~= f@.subrange(i as int, j as int));
    }
    slice_to_vec(slice_subrange(f.as_slice(), i, j))
}

/// Executable test for ASCII whitespace, matching [`is_ascii_ws`].
pub fn is_ascii_ws_byte(b: u8) -> (r: bool)
    ensures
        r == is_ascii_ws(b),
{
    b == 9 || b == 10 || b == 11 || b == 12 || b == 13 || b == 32
}

} // verus!
