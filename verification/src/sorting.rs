//! Stable sorting of rows by a key of text.

use vstd::prelude::*;

verus! {

/// Whether `a` stands before `b` or is `b`, character by character in the
/// order of their code points; a text stands before its extensions.
pub open spec fn text_le(a: Seq<char>, b: Seq<char>) -> bool
    decreases a.len(),
{
    if a.len() == 0 {
        true
    } else if b.len() == 0 {
        false
    } else if a[0] != b[0] {
        (a[0] as u32) < (b[0] as u32)
    } else {
        text_le(a.skip(1), b.skip(1))
    }
}

/// Whether a key may stand before another in the direction of the sort.
pub open spec fn in_order(a: Seq<char>, b: Seq<char>, ascending: bool) -> bool {
    if ascending {
        text_le(a, b)
    } else {
        text_le(b, a)
    }
}

/// Whether `perm` names each of the first `n` positions exactly once.
pub open spec fn is_permutation(perm: Seq<int>, n: nat) -> bool {
    &&& perm.len() == n
    &&& forall|i: int| 0 <= i < n ==> 0 <= #[trigger] perm[i] < n
    &&& forall|i: int, j: int| 0 <= i < j < n ==> #[trigger] perm[i] != #[trigger] perm[j]
}

/// Whether taking the items in the order that `perm` names sorts them by
/// their keys and leaves items with equal keys in the order they had.
pub open spec fn stably_sorted(keys: Seq<Seq<char>>, perm: Seq<int>, ascending: bool) -> bool {
    &&& is_permutation(perm, keys.len())
    &&& forall|i: int, j: int|
        0 <= i < j < perm.len() ==> {
            &&& in_order(keys[#[trigger] perm[i]], keys[#[trigger] perm[j]], ascending)
            &&& in_order(keys[perm[j]], keys[perm[i]], ascending) ==> perm[i] < perm[j]
        }
}

/// The items in the order that `perm` names.
pub open spec fn arranged<A>(items: Seq<A>, perm: Seq<int>) -> Seq<A> {
    Seq::new(perm.len(), |k: int| items[perm[k]])
}

/// The sequence with the item at `from` moved forward to `to`.
pub open spec fn moved<A>(s: Seq<A>, from: int, to: int) -> Seq<A> {
    s.remove(from).insert(to, s[from])
}

/// Of two texts one stands before the other, or they are the same.
pub proof fn lemma_text_le_total(a: Seq<char>, b: Seq<char>)
    ensures
        text_le(a, b) || text_le(b, a),
    decreases a.len(),
{
    if a.len() > 0 && b.len() > 0 {
        if a[0] == b[0] {
            lemma_text_le_total(a.skip(1), b.skip(1));
        } else {
            vstd::utf8::char_u32_cast(a[0], a[0] as u32);
            vstd::utf8::char_u32_cast(b[0], b[0] as u32);
        }
    }
}

/// The order of texts is transitive.
pub proof fn lemma_text_le_transitive(a: Seq<char>, b: Seq<char>, c: Seq<char>)
    requires
        text_le(a, b),
        text_le(b, c),
    ensures
        text_le(a, c),
    decreases a.len(),
{
    if a.len() > 0 && b.len() > 0 && c.len() > 0 {
        if a[0] == b[0] && b[0] == c[0] {
            lemma_text_le_transitive(a.skip(1), b.skip(1), c.skip(1));
        }
    }
}

/// Where each item of `moved` comes from.
pub proof fn lemma_moved<A>(s: Seq<A>, from: int, to: int)
    requires
        0 <= to <= from < s.len(),
    ensures
        moved(s, from, to).len() == s.len(),
        forall|k: int| 0 <= k < to ==> #[trigger] moved(s, from, to)[k] == s[k],
        moved(s, from, to)[to] == s[from],
        forall|k: int| to < k <= from ==> #[trigger] moved(s, from, to)[k] == s[k - 1],
        forall|k: int| from < k < s.len() ==> #[trigger] moved(s, from, to)[k] == s[k],
{
}

/// Tells whether `a` stands before `b` or is `b`.
pub fn text_before(a: &[char], b: &[char]) -> (r: bool)
    ensures
        r == text_le(a@, b@),
{
    let mut i: usize = 0;
    assert(a@.skip(0) =~= a@);
    assert(b@.skip(0) =~= b@);
    while i < a.len() && i < b.len() && a[i] == b[i]
        invariant
            i <= a@.len(),
            i <= b@.len(),
            text_le(a@, b@) == text_le(a@.skip(i as int), b@.skip(i as int)),
        decreases a@.len() - i,
    {
        assert(a@.skip(i as int).skip(1) =~= a@.skip(i + 1));
        assert(b@.skip(i as int).skip(1) =~= b@.skip(i + 1));
        i = i + 1;
    }
    if i >= a.len() {
        true
    } else if i >= b.len() {
        false
    } else {
        (a[i] as u32) < (b[i] as u32)
    }
}

/// Tells whether a key may stand before another in the direction of the sort.
pub fn keys_in_order(a: &[char], b: &[char], ascending: bool) -> (r: bool)
    ensures
        r == in_order(a@, b@, ascending),
{
    if ascending {
        text_before(a, b)
    } else {
        text_before(b, a)
    }
}

/// Of two keys one may stand before the other.
pub proof fn lemma_in_order_total(a: Seq<char>, b: Seq<char>, ascending: bool)
    ensures
        in_order(a, b, ascending) || in_order(b, a, ascending),
{
    lemma_text_le_total(a, b);
}

/// The order of keys is transitive in either direction.
pub proof fn lemma_in_order_transitive(a: Seq<char>, b: Seq<char>, c: Seq<char>, ascending: bool)
    requires
        in_order(a, b, ascending),
        in_order(b, c, ascending),
    ensures
        in_order(a, c, ascending),
{
    if ascending {
        lemma_text_le_transitive(a, b, c);
    } else {
        lemma_text_le_transitive(c, b, a);
    }
}

/// What the views of some keys are, one by one.
pub open spec fn key_views(keys: Seq<Vec<char>>) -> Seq<Seq<char>> {
    Seq::new(keys.len(), |i: int| keys[i]@)
}

/// Whether the first `i` positions of `perm` are sorted stably and hold the
/// first `i` items, and the others are still in their places.
spec fn sorted_up_to(keys: Seq<Seq<char>>, perm: Seq<int>, ascending: bool, i: int) -> bool {
    &&& is_permutation(perm, keys.len())
    &&& forall|a: int, b: int|
        0 <= a < b < i ==> {
            &&& in_order(keys[#[trigger] perm[a]], keys[#[trigger] perm[b]], ascending)
            &&& in_order(keys[perm[b]], keys[perm[a]], ascending) ==> perm[a] < perm[b]
        }
    &&& forall|k: int| 0 <= k < i ==> #[trigger] perm[k] < i
    &&& forall|k: int| i <= k < perm.len() ==> #[trigger] perm[k] == k
}

/// Moving the next item forward to just behind the last item that may
/// stand before it extends the sorted part by one.
proof fn lemma_insert_keeps_sorted(
    keys: Seq<Seq<char>>,
    perm: Seq<int>,
    ascending: bool,
    i: int,
    p: int,
)
    requires
        0 <= p <= i < keys.len(),
        sorted_up_to(keys, perm, ascending, i),
        forall|a: int| p <= a < i ==> !in_order(keys[#[trigger] perm[a]], keys[i], ascending),
        p > 0 ==> in_order(keys[perm[p - 1]], keys[i], ascending),
    ensures
        sorted_up_to(keys, moved(perm, i, p), ascending, i + 1),
{
    let next = moved(perm, i, p);
    lemma_moved(perm, i, p);
    assert(perm[i] == i);
    assert forall|k: int| 0 <= k < keys.len() implies 0 <= #[trigger] next[k] < keys.len() by {
        if k < p {
        } else if k == p {
        } else if k <= i {
            assert(next[k] == perm[k - 1]);
        } else {
        }
    }
    assert forall|a: int, b: int| 0 <= a < b < keys.len() implies #[trigger] next[a]
        != #[trigger] next[b] by {
        let sa = if a < p {
            a
        } else if a == p {
            i
        } else if a <= i {
            a - 1
        } else {
            a
        };
        let sb = if b < p {
            b
        } else if b == p {
            i
        } else if b <= i {
            b - 1
        } else {
            b
        };
        assert(next[a] == perm[sa]);
        assert(next[b] == perm[sb]);
        assert(sa != sb);
        if sa < sb {
            assert(perm[sa] != perm[sb]);
        } else {
            assert(perm[sb] != perm[sa]);
        }
    }
    assert forall|k: int| 0 <= k < i + 1 implies #[trigger] next[k] < i + 1 by {
        if k < p {
        } else if k == p {
        } else {
            assert(next[k] == perm[k - 1]);
        }
    }
    assert forall|a: int, b: int| 0 <= a < b < i + 1 implies {
        &&& in_order(keys[#[trigger] next[a]], keys[#[trigger] next[b]], ascending)
        &&& in_order(keys[next[b]], keys[next[a]], ascending) ==> next[a] < next[b]
    } by {
        if b < p {
        } else if b == p {
            // a < p: the item at a may stand before the one at p - 1, and that
            // before the new item
            assert(next[b] == i);
            assert(next[a] == perm[a]);
            if a < p - 1 {
                assert(in_order(keys[perm[a]], keys[perm[p - 1]], ascending));
                lemma_in_order_transitive(keys[perm[a]], keys[perm[p - 1]], keys[i], ascending);
            }
            assert(perm[a] < i);
        } else if a < p {
            assert(next[a] == perm[a]);
            assert(next[b] == perm[b - 1]);
        } else if a == p {
            assert(next[a] == i);
            assert(next[b] == perm[b - 1]);
            assert(!in_order(keys[perm[b - 1]], keys[i], ascending));
            lemma_in_order_total(keys[perm[b - 1]], keys[i], ascending);
        } else {
            assert(next[a] == perm[a - 1]);
            assert(next[b] == perm[b - 1]);
        }
    }
}

/// Sorts rows by their keys, in either direction. Rows with equal keys keep
/// the order they had.
pub fn sort_by_keys(rows: &mut Vec<Vec<String>>, keys: Vec<Vec<char>>, ascending: bool)
    requires
        old(rows)@.len() == keys@.len(),
    ensures
        exists|perm: Seq<int>|
            #[trigger] stably_sorted(key_views(keys@), perm, ascending) && final(rows)@
                == arranged(old(rows)@, perm),
{
    let mut keys = keys;
    let ghost first_keys = key_views(keys@);
    let ghost first_rows = rows@;
    let ghost mut perm: Seq<int> = Seq::new(rows@.len(), |k: int| k);
    let n = rows.len();
    let mut i: usize = 0;
    while i < n
        invariant
            i <= n,
            n == first_keys.len(),
            rows@.len() == n,
            keys@.len() == n,
            first_rows.len() == n,
            sorted_up_to(first_keys, perm, ascending, i as int),
            forall|k: int| 0 <= k < n ==> #[trigger] rows@[k] == first_rows[perm[k]],
            forall|k: int| 0 <= k < n ==> (#[trigger] keys@[k])@ == first_keys[perm[k]],
        decreases n - i,
    {
        let mut p: usize = i;
        while p > 0 && !keys_in_order(keys[p - 1].as_slice(), keys[i].as_slice(), ascending)
            invariant
                p <= i < n,
                keys@.len() == n,
                forall|a: int|
                    p <= a < i ==> !in_order((#[trigger] keys@[a])@, keys@[i as int]@, ascending),
            decreases p,
        {
            p = p - 1;
        }
        let ghost held_rows = rows@;
        let ghost held_keys = keys@;
        let ghost held_perm = perm;
        let row = rows.remove(i);
        rows.insert(p, row);
        let key = keys.remove(i);
        keys.insert(p, key);
        proof {
            assert(held_perm[i as int] == i);
            assert(held_keys[i as int]@ == first_keys[i as int]);
            assert forall|a: int| p <= a < i implies !in_order(
                first_keys[#[trigger] held_perm[a]],
                first_keys[i as int],
                ascending,
            ) by {
                assert(held_keys[a]@ == first_keys[held_perm[a]]);
            }
            if p > 0 {
                assert(held_keys[p - 1]@ == first_keys[held_perm[p - 1]]);
            }
            lemma_insert_keeps_sorted(first_keys, held_perm, ascending, i as int, p as int);
            perm = moved(held_perm, i as int, p as int);
            lemma_moved(held_perm, i as int, p as int);
            lemma_moved(held_rows, i as int, p as int);
            lemma_moved(held_keys, i as int, p as int);
            assert(rows@ == moved(held_rows, i as int, p as int));
            assert(keys@ == moved(held_keys, i as int, p as int));
            assert forall|k: int| 0 <= k < n implies #[trigger] rows@[k] == first_rows[perm[k]] by {
                if k < p {
                } else if k == p {
                } else if k <= i {
                    assert(rows@[k] == held_rows[k - 1]);
                    assert(perm[k] == held_perm[k - 1]);
                } else {
                }
            }
            assert forall|k: int| 0 <= k < n implies (#[trigger] keys@[k])@ == first_keys[perm[k]] by {
                if k < p {
                } else if k == p {
                } else if k <= i {
                    assert(keys@[k] == held_keys[k - 1]);
                    assert(perm[k] == held_perm[k - 1]);
                } else {
                }
            }
        }
        i = i + 1;
    }
    proof {
        assert(stably_sorted(first_keys, perm, ascending));
        assert(rows@ =~= arranged(first_rows, perm));
    }
}

} // verus!
