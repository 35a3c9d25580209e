//! Characters of a text: white space, trimming, words, searching.

use vstd::prelude::*;
use vstd::slice::{slice_subrange, slice_to_vec};

use crate::bytes::{first_index, lemma_first_index_at, split};
use crate::decimal::{append_decimal, decimal_text};

verus! {

/// Specifies `String::push` of the standard library. Trusted: it appends
/// the one character and changes nothing else.
pub assume_specification[ String::push ](text: &mut String, ch: char)
    ensures
        final(text)@ == old(text)@.push(ch),
;

/// The lower-case form that the standard library gives for a text, by the
/// case mappings of Unicode.
pub uninterp spec fn lowercased(text: Seq<char>) -> Seq<char>;

/// Calls `str::to_lowercase` of the standard library. Trusted: the result
/// depends on the text alone.
#[verifier::external_body]
fn std_lowercase(text: &str) -> (lower: String)
    ensures
        lower@ == lowercased(text@),
{
    text.to_lowercase()
}

/// The lower-case form of a text.
pub fn to_lower(text: &str) -> (lower: String)
    ensures
        lower@ == lowercased(text@),
{
    std_lowercase(text)
}

/// White space as Unicode defines it.
pub open spec fn is_space(c: char) -> bool {
    let u = c as u32;
    ||| 0x09 <= u <= 0x0D
    ||| u == 0x20
    ||| u == 0x85
    ||| u == 0xA0
    ||| u == 0x1680
    ||| 0x2000 <= u <= 0x200A
    ||| u == 0x2028
    ||| u == 0x2029
    ||| u == 0x202F
    ||| u == 0x205F
    ||| u == 0x3000
}

/// The text without the white space at its start.
pub open spec fn trim_start(s: Seq<char>) -> Seq<char>
    decreases s.len(),
{
    if s.len() > 0 && is_space(s[0]) {
        trim_start(s.skip(1))
    } else {
        s
    }
}

/// The text without the white space at its end.
pub open spec fn trim_end(s: Seq<char>) -> Seq<char>
    decreases s.len(),
{
    if s.len() > 0 && is_space(s.last()) {
        trim_end(s.drop_last())
    } else {
        s
    }
}

/// The text without the white space at either end.
pub open spec fn trimmed(s: Seq<char>) -> Seq<char> {
    trim_end(trim_start(s))
}

/// The position of the first white space in `s`, or the length of `s`.
pub open spec fn first_space(s: Seq<char>) -> int
    decreases s.len(),
{
    if s.len() == 0 || is_space(s[0]) {
        0
    } else {
        1 + first_space(s.skip(1))
    }
}

/// The words of a text: its longest runs without white space, in order.
pub open spec fn words(s: Seq<char>) -> Seq<Seq<char>>
    decreases s.len(),
{
    let t = trim_start(s);
    let n = first_space(t);
    if t.len() == 0 || t.len() > s.len() {
        Seq::empty()
    } else if n <= 0 || n > t.len() {
        seq![t]
    } else {
        seq![t.take(n)] + words(t.skip(n))
    }
}

/// Whether `needle` stands somewhere in `hay` as a run of characters.
pub open spec fn contains_text(hay: Seq<char>, needle: Seq<char>) -> bool {
    exists|i: int|
        0 <= i && i + needle.len() <= hay.len() && #[trigger] hay.subrange(i, i + needle.len())
            == needle
}

/// The bytes of a text of one-byte characters; any other character becomes
/// a byte that no such text holds.
pub open spec fn narrow(s: Seq<char>) -> Seq<u8> {
    Seq::new(
        s.len(),
        |i: int|
            if (s[i] as u32) < 128 {
                s[i] as u8
            } else {
                255u8
            },
    )
}

/// The characters of some bytes below 128.
pub open spec fn widen(s: Seq<u8>) -> Seq<char> {
    Seq::new(s.len(), |i: int| s[i] as char)
}

/// A line without the carriage return that may end it.
pub open spec fn without_return(line: Seq<char>) -> Seq<char> {
    if line.len() > 0 && line.last() == '\r' {
        line.drop_last()
    } else {
        line
    }
}

/// The lines of a text. A line ends at a line feed; a carriage return just
/// before the line feed is not part of the line. What follows the last line
/// feed is a line too, unless it is empty.
pub open spec fn text_lines(text: Seq<char>) -> Seq<Seq<char>> {
    let raw = split(text, '\n');
    let ended = Seq::new((raw.len() - 1) as nat, |k: int| without_return(raw[k]));
    if raw.len() > 0 && raw.last().len() > 0 {
        ended.push(raw.last())
    } else {
        ended
    }
}

/// The texts of some strings, one by one.
pub open spec fn texts(strings: Seq<String>) -> Seq<Seq<char>> {
    Seq::new(strings.len(), |i: int| strings[i]@)
}

/// What the views of some character vectors are, one by one.
pub open spec fn char_views(parts: Seq<Vec<char>>) -> Seq<Seq<char>> {
    Seq::new(parts.len(), |i: int| parts[i]@)
}

/// The position that meets the three conditions is `first_space`.
pub proof fn lemma_first_space_at(s: Seq<char>, i: int)
    requires
        0 <= i <= s.len(),
        forall|j: int| 0 <= j < i ==> !is_space(#[trigger] s[j]),
        i < s.len() ==> is_space(s[i]),
    ensures
        first_space(s) == i,
    decreases s.len(),
{
    if i == 0 {
    } else {
        let t = s.skip(1);
        assert(!is_space(s[0]));
        assert forall|j: int| 0 <= j < i - 1 implies !is_space(#[trigger] t[j]) by {
            assert(t[j] == s[j + 1]);
        }
        lemma_first_space_at(t, i - 1);
    }
}

/// Tells whether a character is white space.
pub fn char_is_space(c: char) -> (r: bool)
    ensures
        r == is_space(c),
{
    let u: u32 = c as u32;
    (0x09 <= u && u <= 0x0D) || u == 0x20 || u == 0x85 || u == 0xA0 || u == 0x1680 || (0x2000 <= u
        && u <= 0x200A) || u == 0x2028 || u == 0x2029 || u == 0x202F || u == 0x205F || u == 0x3000
}

/// The characters of a text, one by one.
pub fn chars_of(s: &str) -> (v: Vec<char>)
    ensures
        v@ == s@,
{
    let mut v: Vec<char> = Vec::new();
    for c in it: s.chars()
        invariant
            it.seq() == s@,
            v@ == s@.take(it.index() as int),
    {
        v.push(c);
        assert(v@ =~= s@.take(it.index() + 1));
    }
    assert(v@ =~= s@);
    v
}

/// The text that some characters make.
pub fn string_of(chars: &[char]) -> (text: String)
    ensures
        text@ == chars@,
{
    let mut text = String::new();
    let mut i: usize = 0;
    while i < chars.len()
        invariant
            i <= chars@.len(),
            text@ == chars@.take(i as int),
        decreases chars@.len() - i,
    {
        text.push(chars[i]);
        assert(text@ =~= chars@.take(i + 1));
        i = i + 1;
    }
    assert(text@ =~= chars@);
    text
}

/// Appends the decimal text of `n` to a text.
pub fn push_decimal(text: &mut String, n: u64)
    ensures
        final(text)@ == old(text)@ + widen(decimal_text(n as nat)),
{
    let mut digits: Vec<u8> = Vec::new();
    append_decimal(&mut digits, n);
    assert(digits@ =~= decimal_text(n as nat));
    let ghost start = text@;
    let mut i: usize = 0;
    assert(text@ =~= start + widen(digits@.take(0)));
    while i < digits.len()
        invariant
            i <= digits@.len(),
            text@ == start + widen(digits@.take(i as int)),
        decreases digits@.len() - i,
    {
        text.push(digits[i] as char);
        assert(text@ =~= start + widen(digits@.take(i + 1)));
        i = i + 1;
    }
    assert(digits@.take(i as int) =~= digits@);
}

/// The lines of a text.
pub fn lines_of(text: &[char]) -> (lines: Vec<Vec<char>>)
    ensures
        char_views(lines@) == text_lines(text@),
{
    let raw = split_chars(text, '\n');
    let ghost pieces = split(text@, '\n');
    let n = raw.len();
    let mut lines: Vec<Vec<char>> = Vec::new();
    let mut k: usize = 0;
    while k + 1 < n
        invariant
            n == raw@.len(),
            n >= 1,
            k + 1 <= n,
            char_views(raw@) == pieces,
            lines@.len() == k,
            forall|j: int| 0 <= j < k ==> (#[trigger] lines@[j])@ == without_return(pieces[j]),
        decreases n - k,
    {
        let piece = raw[k].as_slice();
        assert(pieces[k as int] == raw@[k as int]@);
        let line = if piece.len() > 0 && piece[piece.len() - 1] == '\r' {
            slice_subrange(piece, 0, piece.len() - 1)
        } else {
            piece
        };
        assert(line@ =~= without_return(piece@));
        lines.push(slice_to_vec(line));
        k = k + 1;
    }
    assert(pieces[n - 1] == raw@[n - 1]@);
    if raw[n - 1].len() > 0 {
        lines.push(slice_to_vec(raw[n - 1].as_slice()));
    }
    assert(char_views(lines@) =~= text_lines(text@));
    lines
}

/// Tells whether `s` begins with `prefix`.
pub fn begins_with(s: &[char], prefix: &[char]) -> (r: bool)
    ensures
        r == prefix@.is_prefix_of(s@),
{
    if prefix.len() > s.len() {
        return false;
    }
    let mut i: usize = 0;
    while i < prefix.len()
        invariant
            i <= prefix@.len(),
            prefix@.len() <= s@.len(),
            forall|j: int| 0 <= j < i ==> s@[j] == prefix@[j],
        decreases prefix@.len() - i,
    {
        if s[i] != prefix[i] {
            assert(s@.subrange(0, prefix@.len() as int)[i as int] != prefix@[i as int]);
            return false;
        }
        i = i + 1;
    }
    assert(s@.subrange(0, prefix@.len() as int) =~= prefix@);
    true
}

/// The bytes of a text of one-byte characters.
pub fn narrow_chars(s: &[char]) -> (bytes: Vec<u8>)
    ensures
        bytes@ == narrow(s@),
{
    let mut bytes: Vec<u8> = Vec::new();
    let mut i: usize = 0;
    while i < s.len()
        invariant
            i <= s@.len(),
            bytes@ == narrow(s@.take(i as int)),
        decreases s@.len() - i,
    {
        let c = s[i];
        let b: u8 = if (c as u32) < 128 {
            c as u8
        } else {
            255u8
        };
        bytes.push(b);
        assert(bytes@ =~= narrow(s@.take(i + 1)));
        i = i + 1;
    }
    assert(s@.take(i as int) =~= s@);
    bytes
}

/// The part of `s` without the white space at either end.
pub fn trim(s: &[char]) -> (t: &[char])
    ensures
        t@ == trimmed(s@),
{
    let mut a: usize = 0;
    assert(s@.skip(0) =~= s@);
    while a < s.len() && char_is_space(s[a])
        invariant
            a <= s@.len(),
            trim_start(s@) == trim_start(s@.skip(a as int)),
        decreases s@.len() - a,
    {
        assert(s@.skip(a as int).skip(1) =~= s@.skip(a + 1));
        a = a + 1;
    }
    let front = slice_subrange(s, a, s.len());
    assert(front@ =~= s@.skip(a as int));
    assert(front@ == trim_start(s@));
    let mut b: usize = front.len();
    assert(front@.take(b as int) =~= front@);
    while b > 0 && char_is_space(front[b - 1])
        invariant
            b <= front@.len(),
            trim_end(front@) == trim_end(front@.take(b as int)),
        decreases b,
    {
        assert(front@.take(b as int).drop_last() =~= front@.take(b - 1));
        b = b - 1;
    }
    let t = slice_subrange(front, 0, b);
    assert(t@ =~= front@.take(b as int));
    t
}

/// Finds the first `c` in `s`.
pub fn find_char(s: &[char], c: char) -> (i: usize)
    ensures
        i == first_index(s@, c),
        i <= s@.len(),
{
    let mut i: usize = 0;
    while i < s.len() && s[i] != c
        invariant
            i <= s@.len(),
            forall|j: int| 0 <= j < i ==> s@[j] != c,
        decreases s@.len() - i,
    {
        i = i + 1;
    }
    proof {
        lemma_first_index_at(s@, c, i as int);
    }
    i
}

/// Splits `s` at every `sep`.
pub fn split_chars(s: &[char], sep: char) -> (parts: Vec<Vec<char>>)
    ensures
        char_views(parts@) == split(s@, sep),
        parts@.len() >= 1,
{
    let mut parts: Vec<Vec<char>> = Vec::new();
    let mut start: usize = 0;
    assert(s@.skip(0) =~= s@);
    assert(char_views(parts@) + split(s@, sep) =~= split(s@, sep));
    loop
        invariant
            start <= s@.len(),
            split(s@, sep) == char_views(parts@) + split(s@.skip(start as int), sep),
        decreases s@.len() - start,
    {
        let rest = slice_subrange(s, start, s.len());
        assert(rest@ =~= s@.skip(start as int));
        let i = find_char(rest, sep);
        let ghost before = char_views(parts@);
        if i >= rest.len() {
            parts.push(slice_to_vec(rest));
            assert(char_views(parts@) =~= before + seq![rest@]);
            return parts;
        }
        let piece = slice_subrange(rest, 0, i);
        assert(piece@ =~= rest@.take(i as int));
        parts.push(slice_to_vec(piece));
        assert(char_views(parts@) =~= before + seq![piece@]);
        assert(rest@.skip(i + 1) =~= s@.skip(start + i + 1));
        start = start + i + 1;
    }
}

/// The words of a text, each as a string of its own.
pub fn words_of(s: &[char]) -> (found: Vec<String>)
    ensures
        texts(found@) == words(s@),
{
    let mut found: Vec<String> = Vec::new();
    let mut at: usize = 0;
    assert(s@.skip(0) =~= s@);
    assert(texts(found@) + words(s@) =~= words(s@));
    loop
        invariant
            at <= s@.len(),
            words(s@) == texts(found@) + words(s@.skip(at as int)),
        decreases s@.len() - at,
    {
        let ghost rest = s@.skip(at as int);
        let ghost before = texts(found@);
        // pass over white space
        let mut a: usize = at;
        while a < s.len() && char_is_space(s[a])
            invariant
                at <= a <= s@.len(),
                trim_start(s@.skip(at as int)) == trim_start(s@.skip(a as int)),
            decreases s@.len() - a,
        {
            assert(s@.skip(a as int).skip(1) =~= s@.skip(a + 1));
            a = a + 1;
        }
        let ghost t = s@.skip(a as int);
        assert(trim_start(rest) == t);
        if a >= s.len() {
            assert(words(rest) =~= Seq::<Seq<char>>::empty());
            assert(texts(found@) =~= words(s@));
            return found;
        }
        // take the word
        let mut b: usize = a;
        while b < s.len() && !char_is_space(s[b])
            invariant
                a <= b <= s@.len(),
                forall|j: int| a <= j < b ==> !is_space(#[trigger] s@[j]),
            decreases s@.len() - b,
        {
            b = b + 1;
        }
        proof {
            assert forall|j: int| 0 <= j < b - a implies !is_space(#[trigger] t[j]) by {
                assert(t[j] == s@[a + j]);
            }
            lemma_first_space_at(t, b - a);
            assert(b > a);
        }
        let word = slice_subrange(s, a, b);
        assert(word@ =~= t.take(b - a));
        found.push(string_of(word));
        assert(texts(found@) =~= before + seq![word@]);
        assert(t.skip(b - a) =~= s@.skip(b as int));
        proof {
            if b < s@.len() {
                assert(words(rest) == seq![t.take(b - a)] + words(t.skip(b - a)));
            } else {
                assert(t.take(b - a) =~= t);
                assert(t.skip(b - a).len() == 0);
                assert(words(t.skip(b - a)) =~= Seq::<Seq<char>>::empty());
                assert(words(rest) =~= seq![t.take(b - a)] + words(t.skip(b - a)));
            }
        }
        at = b;
    }
}

/// Tells whether `needle` stands somewhere in `hay`.
pub fn contains(hay: &[char], needle: &[char]) -> (r: bool)
    ensures
        r == contains_text(hay@, needle@),
{
    if needle.len() > hay.len() {
        assert(!contains_text(hay@, needle@));
        return false;
    }
    let last: usize = hay.len() - needle.len();
    let mut i: usize = 0;
    while i <= last
        invariant
            i <= last + 1,
            last + needle@.len() == hay@.len(),
            hay@.len() <= usize::MAX,
            forall|k: int| 0 <= k < i ==> #[trigger] hay@.subrange(k, k + needle@.len()) != needle@,
        decreases last + 1 - i,
    {
        let mut j: usize = 0;
        while j < needle.len() && hay[i + j] == needle[j]
            invariant
                j <= needle@.len(),
                i + needle@.len() <= hay@.len(),
                hay@.len() <= usize::MAX,
                forall|m: int| 0 <= m < j ==> hay@[i + m] == needle@[m],
            decreases needle@.len() - j,
        {
            j = j + 1;
        }
        if j == needle.len() {
            assert(hay@.subrange(i as int, i + needle@.len()) =~= needle@);
            return true;
        }
        assert(hay@.subrange(i as int, i + needle@.len())[j as int] != needle@[j as int]);
        i = i + 1;
    }
    false
}

} // verus!
