//! Searching and splitting sequences. The mathematical functions take
//! sequences of any items; the executable ones work on bytes.

use vstd::prelude::*;
use vstd::slice::{slice_subrange, slice_to_vec};

verus! {

/// The position of the first `b` in `s`, or the length of `s` where it holds none.
pub open spec fn first_index<A>(s: Seq<A>, b: A) -> int
    decreases s.len(),
{
    if s.len() == 0 || s[0] == b {
        0
    } else {
        1 + first_index(s.skip(1), b)
    }
}

/// Whether `b` stands somewhere in `s`.
pub open spec fn occurs<A>(s: Seq<A>, b: A) -> bool {
    exists|i: int| 0 <= i < s.len() && s[i] == b
}

/// The pieces of `s` between occurrences of `sep`. There is always at least
/// one piece; an empty string has one empty piece.
pub open spec fn split<A>(s: Seq<A>, sep: A) -> Seq<Seq<A>>
    decreases s.len(),
{
    let i = first_index(s, sep);
    if i < 0 || i >= s.len() {
        seq![s]
    } else {
        seq![s.take(i)] + split(s.skip(i + 1), sep)
    }
}

/// What the views of some byte vectors are, one by one.
pub open spec fn views(parts: Seq<Vec<u8>>) -> Seq<Seq<u8>> {
    Seq::new(parts.len(), |i: int| parts[i]@)
}

/// `first_index` is in range, nothing before it is `b`, and `b` stands at it.
pub proof fn lemma_first_index<A>(s: Seq<A>, b: A)
    ensures
        0 <= first_index(s, b) <= s.len(),
        forall|j: int| 0 <= j < first_index(s, b) ==> s[j] != b,
        first_index(s, b) < s.len() ==> s[first_index(s, b)] == b,
        first_index(s, b) < s.len() <==> occurs(s, b),
    decreases s.len(),
{
    if s.len() == 0 || s[0] == b {
    } else {
        let t = s.skip(1);
        lemma_first_index(t, b);
        let fi = first_index(s, b);
        assert forall|j: int| 0 <= j < fi implies s[j] != b by {
            if j > 0 {
                assert(s[j] == t[j - 1]);
            }
        }
        if fi < s.len() {
            assert(s[fi] == t[fi - 1]);
        }
        if occurs(s, b) {
            let i = choose|i: int| 0 <= i < s.len() && s[i] == b;
            assert(t[i - 1] == b);
        }
    }
}

/// The position that meets the three conditions is `first_index`.
pub proof fn lemma_first_index_at<A>(s: Seq<A>, b: A, i: int)
    requires
        0 <= i <= s.len(),
        forall|j: int| 0 <= j < i ==> s[j] != b,
        i < s.len() ==> s[i] == b,
    ensures
        first_index(s, b) == i,
    decreases s.len(),
{
    if i == 0 {
    } else {
        let t = s.skip(1);
        assert forall|j: int| 0 <= j < i - 1 implies t[j] != b by {
            assert(t[j] == s[j + 1]);
        }
        lemma_first_index_at(t, b, i - 1);
    }
}

/// A string without the separator is its own single piece.
pub proof fn lemma_split_whole<A>(s: Seq<A>, sep: A)
    requires
        !occurs(s, sep),
    ensures
        split(s, sep) == seq![s],
{
    lemma_first_index(s, sep);
}

/// Splitting a piece without the separator, the separator and a rest gives
/// the piece and then the pieces of the rest.
pub proof fn lemma_split_cons<A>(head: Seq<A>, sep: A, rest: Seq<A>)
    requires
        !occurs(head, sep),
    ensures
        split(head + seq![sep] + rest, sep) == seq![head] + split(rest, sep),
{
    let s = head + seq![sep] + rest;
    let i = head.len() as int;
    assert forall|j: int| 0 <= j < i implies s[j] != sep by {
        assert(s[j] == head[j]);
    }
    assert(s[i] == sep);
    lemma_first_index_at(s, sep, i);
    assert(s.take(i) =~= head);
    assert(s.skip(i + 1) =~= rest);
}

/// Every piece of a split is free of the separator.
pub proof fn lemma_split_pieces<A>(s: Seq<A>, sep: A)
    ensures
        split(s, sep).len() >= 1,
        forall|k: int| 0 <= k < split(s, sep).len() ==> !occurs(#[trigger] split(s, sep)[k], sep),
    decreases s.len(),
{
    lemma_first_index(s, sep);
    let i = first_index(s, sep);
    if i >= s.len() {
    } else {
        let head = s.take(i);
        let rest = s.skip(i + 1);
        lemma_split_pieces(rest, sep);
        if occurs(head, sep) {
            let j = choose|j: int| 0 <= j < head.len() && head[j] == sep;
            assert(s[j] == sep);
        }
        assert forall|k: int| 0 <= k < split(s, sep).len() implies !occurs(
            #[trigger] split(s, sep)[k],
            sep,
        ) by {
            if k > 0 {
                assert(split(s, sep)[k] == split(rest, sep)[k - 1]);
            }
        }
    }
}

/// Finds the first `b` in `s`.
pub fn find_byte(s: &[u8], b: u8) -> (i: usize)
    ensures
        i == first_index(s@, b),
        i <= s@.len(),
{
    let mut i: usize = 0;
    while i < s.len() && s[i] != b
        invariant
            i <= s@.len(),
            forall|j: int| 0 <= j < i ==> s@[j] != b,
        decreases s@.len() - i,
    {
        i = i + 1;
    }
    proof {
        lemma_first_index_at(s@, b, i as int);
    }
    i
}

/// Tells whether two byte strings hold the same bytes.
pub fn same_bytes(a: &[u8], b: &[u8]) -> (r: bool)
    ensures
        r == (a@ == b@),
{
    if a.len() != b.len() {
        return false;
    }
    let mut i: usize = 0;
    while i < a.len()
        invariant
            i <= a@.len(),
            a@.len() == b@.len(),
            forall|j: int| 0 <= j < i ==> a@[j] == b@[j],
        decreases a@.len() - i,
    {
        if a[i] != b[i] {
            return false;
        }
        i = i + 1;
    }
    assert(a@ =~= b@);
    true
}

/// Splits `s` at every `sep`.
pub fn split_on(s: &[u8], sep: u8) -> (parts: Vec<Vec<u8>>)
    ensures
        views(parts@) == split(s@, sep),
        parts@.len() >= 1,
{
    let mut parts: Vec<Vec<u8>> = Vec::new();
    let mut start: usize = 0;
    assert(s@.skip(0) =~= s@);
    assert(views(parts@) + split(s@, sep) =~= split(s@, sep));
    loop
        invariant
            start <= s@.len(),
            split(s@, sep) == views(parts@) + split(s@.skip(start as int), sep),
        decreases s@.len() - start,
    {
        let rest = slice_subrange(s, start, s.len());
        assert(rest@ =~= s@.skip(start as int));
        let i = find_byte(rest, sep);
        let ghost before = views(parts@);
        if i >= rest.len() {
            parts.push(slice_to_vec(rest));
            assert(views(parts@) =~= before + seq![rest@]);
            return parts;
        }
        let piece = slice_subrange(rest, 0, i);
        assert(piece@ =~= rest@.take(i as int));
        parts.push(slice_to_vec(piece));
        assert(views(parts@) =~= before + seq![piece@]);
        assert(rest@.skip(i + 1) =~= s@.skip(start + i + 1));
        start = start + i + 1;
    }
}

} // verus!
