//! Splitting byte text at a separator byte.

use vstd::prelude::*;

verus! {

/// Position of the first `sep` in `s`, or `s.len()` where `s` holds none.
pub open spec fn first_index(s: Seq<u8>, sep: u8) -> int
    decreases s.len(),
{
    if s.len() == 0 || s[0] == sep {
        0
    } else {
        1 + first_index(s.skip(1), sep)
    }
}

/// The pieces of `s` between occurrences of `sep`, in order. There is always
/// at least one piece; two adjacent separators enclose an empty piece, and so
/// do a separator at either end and that end.
pub open spec fn split(s: Seq<u8>, sep: u8) -> Seq<Seq<u8>>
    decreases s.len(),
{
    let k = first_index(s, sep);
    if 0 <= k < s.len() {
        seq![s.take(k)] + split(s.skip(k + 1), sep)
    } else {
        seq![s]
    }
}

/// `first_index` stays within the text, passes no separator, and stops on one
/// unless it reaches the end.
pub proof fn lemma_first_index(s: Seq<u8>, sep: u8)
    ensures
        0 <= first_index(s, sep) <= s.len(),
        forall|j: int| 0 <= j < first_index(s, sep) ==> s[j] != sep,
        first_index(s, sep) < s.len() ==> s[first_index(s, sep)] == sep,
    decreases s.len(),
{
    if s.len() > 0 && s[0] != sep {
        let t = s.skip(1);
        lemma_first_index(t, sep);
        assert forall|j: int| 0 < j < first_index(s, sep) implies s[j] != sep by {
            assert(s[j] == t[j - 1]);
        }
    }
}

/// A position that no separator precedes, and that holds one or is the end,
/// is the first index.
pub proof fn lemma_first_index_unique(s: Seq<u8>, sep: u8, k: int)
    requires
        0 <= k <= s.len(),
        forall|j: int| 0 <= j < k ==> s[j] != sep,
        k < s.len() ==> s[k] == sep,
    ensures
        first_index(s, sep) == k,
{
    lemma_first_index(s, sep);
}

/// There is at least one piece, and every piece is free of the separator.
pub proof fn lemma_split_pieces(s: Seq<u8>, sep: u8)
    ensures
        split(s, sep).len() >= 1,
        forall|i: int, j: int|
            0 <= i < split(s, sep).len() && 0 <= j < split(s, sep)[i].len() ==> split(
                s,
                sep,
            )[i][j] != sep,
    decreases s.len(),
{
    lemma_first_index(s, sep);
    let k = first_index(s, sep);
    if k < s.len() {
        lemma_split_pieces(s.skip(k + 1), sep);
    }
}

/// What each of `pieces` holds.
pub open spec fn contents(pieces: Seq<&[u8]>) -> Seq<Seq<u8>> {
    Seq::new(pieces.len(), |i: int| pieces[i]@)
}

/// Whether `a` and `b` hold the same bytes.
pub fn same_bytes(a: &[u8], b: &[u8]) -> (r: bool)
    ensures
        r == (a@ == b@),
{
    if a.len() != b.len() {
        return false;
    }
    let mut i: usize = 0;
    while i < a.len()
        invariant
            a@.len() == b@.len(),
            i <= a@.len(),
            forall|j: int| 0 <= j < i ==> a@[j] == b@[j],
        decreases a@.len() - i,
    {
        if a[i] != b[i] {
            return false;
        }
        i += 1;
    }
    assert(a@ =~= b@);
    true
}

/// Splits `s` at every `sep`.
pub fn split_bytes<'a>(s: &'a [u8], sep: u8) -> (pieces: Vec<&'a [u8]>)
    ensures
        contents(pieces@) == split(s@, sep),
{
    let mut pieces: Vec<&'a [u8]> = Vec::new();
    let mut start: usize = 0;
    let mut i: usize = 0;
    assert(s@.skip(0) =~= s@);
    while i < s.len()
        invariant
            start <= i <= s.len(),
            forall|j: int| start <= j < i ==> s@[j] != sep,
            split(s@, sep) =~= contents(pieces@) + split(s@.skip(start as int), sep),
        decreases s.len() - i,
    {
        if s[i] == sep {
            let piece = &s[start..i];
            proof {
                let rest = s@.skip(start as int);
                lemma_first_index_unique(rest, sep, i - start);
                assert(rest.take(i - start) =~= s@.subrange(start as int, i as int));
                assert(rest.skip(i - start + 1) =~= s@.skip(i + 1));
            }
            pieces.push(piece);
            start = i + 1;
        }
        i += 1;
    }
    let piece = &s[start..s.len()];
    proof {
        let rest = s@.skip(start as int);
        lemma_first_index_unique(rest, sep, rest.len() as int);
    }
    pieces.push(piece);
    pieces
}

} // verus!
