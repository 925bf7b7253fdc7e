//! Whitespace trimming, specified over sequences.
//!
//! A trimmed sequence is the original sequence with its longest all-whitespace
//! prefix and suffix removed. The definitions are generic in the element type
//! and in the predicate that classifies an element as whitespace, so that the
//! same theory serves byte rows (ASCII whitespace) and character rows
//! (Unicode whitespace).

use vstd::prelude::*;

verus! {

/// The number of leading elements of `s` satisfying `p`.
pub open spec fn leading<T>(s: Seq<T>, p: spec_fn(T) -> bool) -> int
    decreases s.len(),
{
    if s.len() > 0 && p(s[0]) {
        1 + leading(s.drop_first(), p)
    } else {
        0
    }
}

/// The number of trailing elements of `s` satisfying `p`.
pub open spec fn trailing<T>(s: Seq<T>, p: spec_fn(T) -> bool) -> int
    decreases s.len(),
{
    if s.len() > 0 && p(s[s.len() - 1]) {
        1 + trailing(s.drop_last(), p)
    } else {
        0
    }
}

/// `s` with its longest prefix and suffix of elements satisfying `p` removed.
pub open spec fn trim_seq<T>(s: Seq<T>, p: spec_fn(T) -> bool) -> Seq<T> {
    let rest = s.subrange(leading(s, p), s.len() as int);
    rest.subrange(0, rest.len() - trailing(rest, p))
}

/// Every row of `rows`, trimmed.
pub open spec fn trim_rows<T>(rows: Seq<Seq<T>>, p: spec_fn(T) -> bool) -> Seq<Seq<T>> {
    rows.map_values(|f: Seq<T>| trim_seq(f, p))
}

/// `leading` is bounded by the length of the sequence, and everything before
/// it satisfies `p` while the element at it (if any) does not.
pub proof fn lemma_leading<T>(s: Seq<T>, p: spec_fn(T) -> bool)
    ensures
        0 <= leading(s, p) <= s.len(),
        forall|i: int| 0 <= i < leading(s, p) ==> p(#[trigger] s[i]),
        leading(s, p) < s.len() ==> !p(s[leading(s, p)]),
    decreases s.len(),
{
    if s.len() > 0 && p(s[0]) {
        lemma_leading(s.drop_first(), p);
        assert forall|i: int| 0 <= i < leading(s, p) implies p(#[trigger] s[i]) by {
            if i > 0 {
                assert(s.drop_first()[i - 1] == s[i]);
            }
        }
        if leading(s, p) < s.len() {
            assert(s.drop_first()[leading(s, p) - 1] == s[leading(s, p)]);
        }
    }
}

/// The counterpart of `lemma_leading`: everything from `len - trailing`
/// onward satisfies `p`, and the element just before (if any) does not.
pub proof fn lemma_trailing<T>(s: Seq<T>, p: spec_fn(T) -> bool)
    ensures
        0 <= trailing(s, p) <= s.len(),
        forall|i: int| s.len() - trailing(s, p) <= i < s.len() ==> p(#[trigger] s[i]),
        trailing(s, p) < s.len() ==> !p(s[s.len() - trailing(s, p) - 1]),
    decreases s.len(),
{
    if s.len() > 0 && p(s[s.len() - 1]) {
        lemma_trailing(s.drop_last(), p);
        assert forall|i: int| s.len() - trailing(s, p) <= i < s.len() implies p(
            #[trigger] s[i],
        ) by {
            if i < s.len() - 1 {
                assert(s.drop_last()[i] == s[i]);
            }
        }
        if trailing(s, p) < s.len() {
            assert(s.drop_last()[s.len() - trailing(s, p) - 1] == s[s.len() - trailing(s, p) - 1]);
        }
    }
}

/// A sequence whose leading elements (fewer than `n` of them) satisfy `p`,
/// and whose element at `n` (if any) does not, has exactly `n` leading
/// `p`-elements.
pub proof fn lemma_leading_exact<T>(s: Seq<T>, p: spec_fn(T) -> bool, n: int)
    requires
        0 <= n <= s.len(),
        forall|i: int| 0 <= i < n ==> p(#[trigger] s[i]),
        n < s.len() ==> !p(s[n]),
    ensures
        leading(s, p) == n,
    decreases s.len(),
{
    if s.len() > 0 && p(s[0]) {
        assert forall|i: int| 0 <= i < n - 1 implies p(#[trigger] s.drop_first()[i]) by {
            assert(s.drop_first()[i] == s[i + 1]);
        }
        if n - 1 < s.drop_first().len() {
            assert(s.drop_first()[n - 1] == s[n]);
        }
        lemma_leading_exact(s.drop_first(), p, n - 1);
    }
}

/// The counterpart of `lemma_leading_exact` for trailing elements.
pub proof fn lemma_trailing_exact<T>(s: Seq<T>, p: spec_fn(T) -> bool, n: int)
    requires
        0 <= n <= s.len(),
        forall|i: int| s.len() - n <= i < s.len() ==> p(#[trigger] s[i]),
        n < s.len() ==> !p(s[s.len() - n - 1]),
    ensures
        trailing(s, p) == n,
    decreases s.len(),
{
    if s.len() > 0 && p(s[s.len() - 1]) {
        assert forall|i: int| s.drop_last().len() - (n - 1) <= i < s.drop_last().len() implies p(
            #[trigger] s.drop_last()[i],
        ) by {
            assert(s.drop_last()[i] == s[i]);
        }
        if n - 1 < s.drop_last().len() {
            assert(s.drop_last()[s.len() - 1 - (n - 1) - 1] == s[s.len() - (n - 1) - 1 - 1]);
        }
        lemma_trailing_exact(s.drop_last(), p, n - 1);
    }
}

/// A trimmed sequence neither starts nor ends with a `p`-element, and a trim
/// keeps exactly the elements between the trimmed-off prefix and suffix.
pub proof fn lemma_trim_seq<T>(s: Seq<T>, p: spec_fn(T) -> bool)
    ensures
        trim_seq(s, p).len() <= s.len(),
        trim_seq(s, p).len() > 0 ==> !p(trim_seq(s, p)[0]),
        trim_seq(s, p).len() > 0 ==> !p(trim_seq(s, p)[trim_seq(s, p).len() - 1]),
        forall|i: int|
            0 <= i < trim_seq(s, p).len() ==> #[trigger] trim_seq(s, p)[i] == s[leading(s, p) + i],
{
    lemma_leading(s, p);
    let rest = s.subrange(leading(s, p), s.len() as int);
    lemma_trailing(rest, p);
    if trim_seq(s, p).len() > 0 {
        assert(!p(rest[0]));
    }
}

/// TRIMMING IS IDEMPOTENT: trimming a sequence that has already been trimmed
/// changes nothing.
pub proof fn lemma_trim_seq_idempotent<T>(s: Seq<T>, p: spec_fn(T) -> bool)
    ensures
        trim_seq(trim_seq(s, p), p) == trim_seq(s, p),
{
    let t = trim_seq(s, p);
    lemma_trim_seq(s, p);
    if t.len() == 0 {
        lemma_leading_exact(t, p, 0);
        lemma_trailing_exact(t, p, 0);
        assert(trim_seq(t, p) =~= t);
    } else {
        lemma_leading_exact(t, p, 0);
        let rest = t.subrange(0, t.len() as int);
        assert(rest =~= t);
        lemma_trailing_exact(t, p, 0);
        assert(trim_seq(t, p) =~= t);
    }
}

/// Every field of a trimmed row is a fixed point of trimming.
pub proof fn lemma_trim_rows_fixed<T>(rows: Seq<Seq<T>>, p: spec_fn(T) -> bool)
    ensures
        forall|i: int|
            0 <= i < trim_rows(rows, p).len() ==> #[trigger] trim_rows(rows, p)[i] == trim_seq(
                trim_rows(rows, p)[i],
                p,
            ),
{
    assert forall|i: int| 0 <= i < trim_rows(rows, p).len() implies #[trigger] trim_rows(rows, p)[i]
        == trim_seq(trim_rows(rows, p)[i], p) by {
        lemma_trim_seq_idempotent(rows[i], p);
    }
}

/// TRIMMING A ROW IS IDEMPOTENT: trimming every field of an already-trimmed
/// row changes nothing.
pub proof fn lemma_trim_rows_idempotent<T>(rows: Seq<Seq<T>>, p: spec_fn(T) -> bool)
    ensures
        trim_rows(trim_rows(rows, p), p) == trim_rows(rows, p),
{
    assert forall|i: int| 0 <= i < rows.len() implies #[trigger] trim_rows(trim_rows(rows, p), p)[i]
        == trim_rows(rows, p)[i] by {
        lemma_trim_seq_idempotent(rows[i], p);
    }
    assert(trim_rows(trim_rows(rows, p), p) =~= trim_rows(rows, p));
}

} // verus!
