//! Byte strings: classes of bytes, trimming, substring search, the
//! case-insensitive order, and order-preserving selection from a sequence.

use vstd::prelude::*;

verus! {

/// A text-like byte: printable ASCII, tab, line feed or carriage return.
pub open spec fn printable(c: u8) -> bool {
    (32 <= c && c <= 126) || c == 9 || c == 10 || c == 13
}

/// Whether `c` is a text-like byte.
pub fn is_printable(c: u8) -> (r: bool)
    ensures
        r == printable(c),
{
    (c >= 32 && c <= 126) || c == 9 || c == 10 || c == 13
}

/// ASCII whitespace: space, tab, line feed, vertical tab, form feed,
/// carriage return.
pub open spec fn whitespace(c: u8) -> bool {
    c == 32 || (9 <= c && c <= 13)
}

/// Whether `c` is ASCII whitespace.
pub fn is_whitespace(c: u8) -> (r: bool)
    ensures
        r == whitespace(c),
{
    c == 32 || (9 <= c && c <= 13)
}

/// The views of a vector of strings, in order.
pub open spec fn views(v: Seq<Vec<u8>>) -> Seq<Seq<u8>> {
    Seq::new(v.len(), |i: int| v[i]@)
}

/// A copy of a string.
pub fn copy_text(s: &Vec<u8>) -> (r: Vec<u8>)
    ensures
        r@ == s@,
{
    let mut r: Vec<u8> = Vec::new();
    let mut i: usize = 0;
    while i < s.len()
        invariant
            i <= s.len(),
            r@ == s@.take(i as int),
        decreases s.len() - i,
    {
        r.push(s[i]);
        i += 1;
        assert(r@ =~= s@.take(i as int));
    }
    assert(s@.take(s.len() as int) =~= s@);
    r
}

/// Whether three bytes encode a white-space character: U+1680, U+2000 to
/// U+200A, U+2028, U+2029, U+202F, U+205F or U+3000.
pub open spec fn wide_whitespace(a: u8, b: u8, c: u8) -> bool {
    ||| a == 0xE1 && b == 0x9A && c == 0x80
    ||| a == 0xE2 && b == 0x80 && ((0x80 <= c && c <= 0x8A) || c == 0xA8 || c == 0xA9 || c == 0xAF)
    ||| a == 0xE2 && b == 0x81 && c == 0x9F
    ||| a == 0xE3 && b == 0x80 && c == 0x80
}

/// Whether two bytes encode a white-space character: U+0085 or U+00A0.
pub open spec fn narrow_whitespace(a: u8, b: u8) -> bool {
    a == 0xC2 && (b == 0x85 || b == 0xA0)
}

/// The number of bytes of the white-space character whose UTF-8 encoding
/// stands at `at` in `s`, and 0 where none stands there. The characters are
/// those with the Unicode property White_Space.
pub open spec fn whitespace_at(s: Seq<u8>, at: int) -> int {
    if 0 <= at && at + 1 <= s.len() && whitespace(s[at]) {
        1
    } else if 0 <= at && at + 2 <= s.len() && narrow_whitespace(s[at], s[at + 1]) {
        2
    } else if 0 <= at && at + 3 <= s.len() && wide_whitespace(s[at], s[at + 1], s[at + 2]) {
        3
    } else {
        0
    }
}

/// The number of bytes of the white-space character whose encoding ends
/// `s`, and 0 where none does.
pub open spec fn whitespace_at_end(s: Seq<u8>) -> int {
    if s.len() >= 1 && whitespace_at(s, s.len() - 1) == 1 {
        1
    } else if s.len() >= 2 && whitespace_at(s, s.len() - 2) == 2 {
        2
    } else if s.len() >= 3 && whitespace_at(s, s.len() - 3) == 3 {
        3
    } else {
        0
    }
}

/// The length of the white-space character that stands at `at` in
/// `s[..end]`, or 0.
pub fn whitespace_len_at(s: &Vec<u8>, at: usize, end: usize) -> (r: usize)
    requires
        at <= end <= s.len(),
    ensures
        r == whitespace_at(s@.take(end as int), at as int),
        r <= end - at,
{
    let left: usize = end - at;
    if left >= 1 && is_whitespace(s[at]) {
        1
    } else if left >= 2 && s[at] == 0xC2 && (s[at + 1] == 0x85 || s[at + 1] == 0xA0) {
        2
    } else if left >= 3 && is_wide_whitespace(s[at], s[at + 1], s[at + 2]) {
        3
    } else {
        0
    }
}

/// Whether three bytes encode a white-space character.
pub fn is_wide_whitespace(a: u8, b: u8, c: u8) -> (r: bool)
    ensures
        r == wide_whitespace(a, b, c),
{
    (a == 0xE1 && b == 0x9A && c == 0x80) || (a == 0xE2 && b == 0x80 && ((0x80 <= c && c <= 0x8A)
        || c == 0xA8 || c == 0xA9 || c == 0xAF)) || (a == 0xE2 && b == 0x81 && c == 0x9F) || (a
        == 0xE3 && b == 0x80 && c == 0x80)
}

/// The length of the white-space character that ends `s[start..end]`, or 0.
pub fn whitespace_len_before(s: &Vec<u8>, start: usize, end: usize) -> (r: usize)
    requires
        start <= end <= s.len(),
    ensures
        r == whitespace_at_end(s@.subrange(start as int, end as int)),
        r <= end - start,
{
    let left: usize = end - start;
    if left >= 1 && is_whitespace(s[end - 1]) {
        1
    } else if left >= 2 && s[end - 2] == 0xC2 && (s[end - 1] == 0x85 || s[end - 1] == 0xA0) {
        2
    } else if left >= 3 && is_wide_whitespace(s[end - 3], s[end - 2], s[end - 1]) {
        3
    } else {
        0
    }
}

/// Whether a white-space character stands somewhere in `s`.
pub open spec fn has_whitespace(s: Seq<u8>) -> bool {
    exists|i: int| 0 <= i < s.len() && #[trigger] whitespace_at(s, i) > 0
}

/// Whether `needle` occurs in `hay` at position `at`.
pub open spec fn occurs_at(hay: Seq<u8>, needle: Seq<u8>, at: int) -> bool {
    0 <= at && at + needle.len() <= hay.len() && hay.subrange(at, at + needle.len()) == needle
}

/// Whether `needle` is a contiguous part of `hay`.
pub open spec fn contains_text(hay: Seq<u8>, needle: Seq<u8>) -> bool {
    exists|at: int| occurs_at(hay, needle, at)
}

/// Whether `needle` occurs in `hay` at `at`.
pub fn matches_at(hay: &Vec<u8>, needle: &Vec<u8>, at: usize) -> (r: bool)
    ensures
        r == occurs_at(hay@, needle@, at as int),
{
    if needle.len() > hay.len() || at > hay.len() - needle.len() {
        return false;
    }
    let mut j: usize = 0;
    while j < needle.len()
        invariant
            j <= needle.len(),
            at + needle.len() <= hay.len(),
            forall|k: int| 0 <= k < j ==> hay@[at + k] == needle@[k],
        decreases needle.len() - j,
    {
        if hay[at + j] != needle[j] {
            assert(hay@.subrange(at as int, at + needle.len())[j as int] == hay@[at + j]);
            return false;
        }
        j += 1;
    }
    assert(hay@.subrange(at as int, at + needle.len()) =~= needle@);
    true
}

/// Whether `needle` is a contiguous part of `hay`.
pub fn contains_bytes(hay: &Vec<u8>, needle: &Vec<u8>) -> (r: bool)
    ensures
        r == contains_text(hay@, needle@),
{
    if needle.len() > hay.len() {
        return false;
    }
    let last: usize = hay.len() - needle.len();
    let mut at: usize = 0;
    while at < last
        invariant
            last == hay.len() - needle.len(),
            at <= last,
            forall|k: int| 0 <= k < at ==> !occurs_at(hay@, needle@, k),
        decreases last - at,
    {
        if matches_at(hay, needle, at) {
            return true;
        }
        at += 1;
    }
    matches_at(hay, needle, last)
}

/// Whether a white-space character stands somewhere in `s`.
pub fn contains_whitespace(s: &Vec<u8>) -> (r: bool)
    ensures
        r == has_whitespace(s@),
{
    let mut i: usize = 0;
    assert(s@.take(s.len() as int) =~= s@);
    while i < s.len()
        invariant
            i <= s.len(),
            s@.take(s.len() as int) == s@,
            forall|k: int| 0 <= k < i ==> #[trigger] whitespace_at(s@, k) == 0,
        decreases s.len() - i,
    {
        if whitespace_len_at(s, i, s.len()) > 0 {
            assert(whitespace_at(s@, i as int) > 0);
            return true;
        }
        i += 1;
    }
    false
}

/// The strings of `s` that `keep` holds of, in the order of `s`.
pub open spec fn selected(s: Seq<Seq<u8>>, keep: spec_fn(Seq<u8>) -> bool) -> Seq<Seq<u8>>
    decreases s.len(),
{
    if s.len() == 0 {
        Seq::empty()
    } else if keep(s.last()) {
        selected(s.drop_last(), keep).push(s.last())
    } else {
        selected(s.drop_last(), keep)
    }
}

/// A string is selected exactly where it is in the sequence and `keep` holds
/// of it; nothing is selected more often than it occurs.
pub proof fn lemma_selected(s: Seq<Seq<u8>>, keep: spec_fn(Seq<u8>) -> bool)
    ensures
        selected(s, keep).len() <= s.len(),
        forall|x: Seq<u8>| selected(s, keep).contains(x) <==> s.contains(x) && keep(x),
    decreases s.len(),
{
    if s.len() > 0 {
        let front = s.drop_last();
        let r = selected(s, keep);
        lemma_selected(front, keep);
        assert forall|x: Seq<u8>| r.contains(x) <==> s.contains(x) && keep(x) by {
            if r.contains(x) {
                let i = choose|i: int| 0 <= i < r.len() && r[i] == x;
                if keep(s.last()) && i == r.len() - 1 {
                    assert(s[s.len() - 1] == x);
                } else {
                    assert(selected(front, keep)[i] == x);
                    assert(front.contains(x));
                    let j = choose|j: int| 0 <= j < front.len() && front[j] == x;
                    assert(s[j] == x);
                }
            }
            if s.contains(x) && keep(x) {
                let j = choose|j: int| 0 <= j < s.len() && s[j] == x;
                if j == s.len() - 1 {
                    assert(r[r.len() - 1] == x);
                } else {
                    assert(front[j] == x);
                    assert(front.contains(x));
                    assert(selected(front, keep).contains(x));
                    let i = choose|i: int|
                        0 <= i < selected(front, keep).len() && selected(front, keep)[i] == x;
                    assert(r[i] == x);
                }
            }
        }
    }
}

/// A sequence of strings split in two by a rule, each part in the order of
/// the whole.
pub struct Partition {
    /// The strings that pass.
    pub kept: Vec<Vec<u8>>,
    /// The strings that do not.
    pub dropped: Vec<Vec<u8>>,
}

} // verus!
