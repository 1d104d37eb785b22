//! The letter-pair filter: a string that holds a pair of letters which
//! English spelling does not know is dropped, unless it holds a period.

use crate::text::{copy_text, lemma_selected, selected, views, Partition};
use vstd::prelude::*;

verus! {

/// The letter `b`.
pub const B: u8 = 98;

/// The letter `c`.
pub const C: u8 = 99;

/// The letter `d`.
pub const D: u8 = 100;

/// The letter `e`.
pub const E: u8 = 101;

/// The letter `f`.
pub const F: u8 = 102;

/// The letter `g`.
pub const G: u8 = 103;

/// The letter `h`.
pub const H: u8 = 104;

/// The letter `i`.
pub const I: u8 = 105;

/// The letter `j`.
pub const J: u8 = 106;

/// The letter `k`.
pub const K: u8 = 107;

/// The letter `l`.
pub const L: u8 = 108;

/// The letter `m`.
pub const M: u8 = 109;

/// The letter `n`.
pub const N: u8 = 110;

/// The letter `o`.
pub const O: u8 = 111;

/// The letter `p`.
pub const P: u8 = 112;

/// The letter `q`.
pub const Q: u8 = 113;

/// The letter `r`.
pub const R: u8 = 114;

/// The letter `s`.
pub const S: u8 = 115;

/// The letter `t`.
pub const T: u8 = 116;

/// The letter `v`.
pub const V: u8 = 118;

/// The letter `w`.
pub const W: u8 = 119;

/// The letter `x`.
pub const X: u8 = 120;

/// The letter `y`.
pub const Y: u8 = 121;

/// The letter `z`.
pub const Z: u8 = 122;

/// The period, which exempts a string from the filter.
pub const PERIOD: u8 = 46;

/// The denylist: whether `first` followed by `second` is an implausible pair
/// of lower-case letters. There are 124 such pairs.
pub open spec fn denied_pair(first: u8, second: u8) -> bool {
    ||| first == B && (second == K || second == Q || second == X)
    ||| first == C && (second == B || second == F || second == G || second == J || second == P || second == V || second == W || second == X)
    ||| first == D && (second == X)
    ||| first == F && (second == K || second == Q || second == V || second == X || second == Z)
    ||| first == G && (second == Q || second == V || second == X)
    ||| first == H && (second == K || second == V || second == X || second == Z)
    ||| first == I && (second == Y)
    ||| first == J && (second == B || second == C || second == D || second == F || second == G || second == H || second == K || second == L || second == M || second == N || second == P || second == Q || second == R || second == S || second == T || second == V || second == W || second == X || second == Y || second == Z)
    ||| first == K && (second == Q || second == V || second == X || second == Z)
    ||| first == L && (second == Q || second == X)
    ||| first == M && (second == G || second == J || second == Q || second == X || second == Z)
    ||| first == P && (second == Q || second == V || second == X)
    ||| first == Q && (second == B || second == C || second == D || second == E || second == F || second == G || second == H || second == J || second == K || second == L || second == M || second == N || second == O || second == P || second == R || second == S || second == T || second == V || second == W || second == X || second == Y || second == Z)
    ||| first == S && (second == X || second == Z)
    ||| first == T && (second == Q || second == X)
    ||| first == V && (second == B || second == C || second == D || second == F || second == G || second == H || second == J || second == K || second == M || second == N || second == P || second == Q || second == T || second == W || second == X || second == Z)
    ||| first == W && (second == Q || second == V || second == X || second == Z)
    ||| first == X && (second == B || second == G || second == J || second == K || second == V || second == Z)
    ||| first == Y && (second == Q || second == V || second == Z)
    ||| first == Z && (second == B || second == C || second == G || second == H || second == J || second == N || second == Q || second == R || second == S || second == X)
}

/// Decides whether `first` followed by `second` is on the denylist.
pub fn is_denied_pair(first: u8, second: u8) -> (r: bool)
    ensures
        r == denied_pair(first, second),
{
    if first == B {
        return second == K || second == Q || second == X;
    }
    if first == C {
        return second == B || second == F || second == G || second == J || second == P || second == V || second == W || second == X;
    }
    if first == D {
        return second == X;
    }
    if first == F {
        return second == K || second == Q || second == V || second == X || second == Z;
    }
    if first == G {
        return second == Q || second == V || second == X;
    }
    if first == H {
        return second == K || second == V || second == X || second == Z;
    }
    if first == I {
        return second == Y;
    }
    if first == J {
        return second == B || second == C || second == D || second == F || second == G || second == H || second == K || second == L || second == M || second == N || second == P || second == Q || second == R || second == S || second == T || second == V || second == W || second == X || second == Y || second == Z;
    }
    if first == K {
        return second == Q || second == V || second == X || second == Z;
    }
    if first == L {
        return second == Q || second == X;
    }
    if first == M {
        return second == G || second == J || second == Q || second == X || second == Z;
    }
    if first == P {
        return second == Q || second == V || second == X;
    }
    if first == Q {
        return second == B || second == C || second == D || second == E || second == F || second == G || second == H || second == J || second == K || second == L || second == M || second == N || second == O || second == P || second == R || second == S || second == T || second == V || second == W || second == X || second == Y || second == Z;
    }
    if first == S {
        return second == X || second == Z;
    }
    if first == T {
        return second == Q || second == X;
    }
    if first == V {
        return second == B || second == C || second == D || second == F || second == G || second == H || second == J || second == K || second == M || second == N || second == P || second == Q || second == T || second == W || second == X || second == Z;
    }
    if first == W {
        return second == Q || second == V || second == X || second == Z;
    }
    if first == X {
        return second == B || second == G || second == J || second == K || second == V || second == Z;
    }
    if first == Y {
        return second == Q || second == V || second == Z;
    }
    if first == Z {
        return second == B || second == C || second == G || second == H || second == J || second == N || second == Q || second == R || second == S || second == X;
    }
    false
}

/// Whether some two neighbours in `s` are a denied pair.
pub open spec fn has_denied_pair(s: Seq<u8>) -> bool {
    exists|i: int| 0 <= i < s.len() - 1 && denied_pair(#[trigger] s[i], s[i + 1])
}

/// A string is plausible where it holds a period or no denied pair.
pub open spec fn plausible(s: Seq<u8>) -> bool {
    s.contains(PERIOD) || !has_denied_pair(s)
}

/// The strings of `s` that the filter keeps.
pub open spec fn remaining_no_ngrams(s: Seq<Seq<u8>>) -> Seq<Seq<u8>> {
    selected(s, |x: Seq<u8>| plausible(x))
}

/// The strings of `s` that the filter removes.
pub open spec fn filtered_by_ngram(s: Seq<Seq<u8>>) -> Seq<Seq<u8>> {
    selected(s, |x: Seq<u8>| !plausible(x))
}

/// Whether `s` holds the byte `c`.
pub fn contains_byte(s: &Vec<u8>, c: u8) -> (r: bool)
    ensures
        r == s@.contains(c),
{
    let mut i: usize = 0;
    while i < s.len()
        invariant
            i <= s.len(),
            forall|k: int| 0 <= k < i ==> s@[k] != c,
        decreases s.len() - i,
    {
        if s[i] == c {
            return true;
        }
        i += 1;
    }
    false
}

/// Whether some two neighbours in `s` are a denied pair.
pub fn contains_denied_pair(s: &Vec<u8>) -> (r: bool)
    ensures
        r == has_denied_pair(s@),
{
    let mut i: usize = 1;
    while i < s.len()
        invariant
            1 <= i,
            forall|k: int| 0 <= k < i - 1 && k < s.len() - 1 ==> !denied_pair(
                #[trigger] s@[k],
                s@[k + 1],
            ),
        decreases s.len() - i,
    {
        if is_denied_pair(s[i - 1], s[i]) {
            assert(denied_pair(s@[i - 1], s@[i - 1 + 1]));
            return true;
        }
        i += 1;
    }
    false
}

/// Decides whether the filter keeps a string.
pub fn is_plausible(s: &Vec<u8>) -> (r: bool)
    ensures
        r == plausible(s@),
{
    if contains_byte(s, PERIOD) {
        return true;
    }
    !contains_denied_pair(s)
}

/// Splits the strings into those the letter-pair filter keeps and those it
/// removes.
pub fn ngram_filter(strings: &Vec<Vec<u8>>) -> (r: Partition)
    ensures
        views(r.kept@) == remaining_no_ngrams(views(strings@)),
        views(r.dropped@) == filtered_by_ngram(views(strings@)),
{
    let ghost all = views(strings@);
    let mut kept: Vec<Vec<u8>> = Vec::new();
    let mut dropped: Vec<Vec<u8>> = Vec::new();
    let mut i: usize = 0;
    while i < strings.len()
        invariant
            i <= strings.len(),
            all == views(strings@),
            views(kept@) == remaining_no_ngrams(all.take(i as int)),
            views(dropped@) == filtered_by_ngram(all.take(i as int)),
        decreases strings.len() - i,
    {
        proof {
            assert(all.take(i + 1).drop_last() =~= all.take(i as int));
            assert(all.take(i + 1).last() == strings[i as int]@);
        }
        if is_plausible(&strings[i]) {
            let ghost before = views(kept@);
            kept.push(copy_text(&strings[i]));
            assert(views(kept@) =~= before.push(strings[i as int]@));
        } else {
            let ghost before = views(dropped@);
            dropped.push(copy_text(&strings[i]));
            assert(views(dropped@) =~= before.push(strings[i as int]@));
        }
        i += 1;
    }
    assert(all.take(strings.len() as int) =~= all);
    Partition { kept, dropped }
}

/// A string of the input that holds a period is never removed, whatever
/// pairs it holds; any other is removed exactly where it holds a denied
/// pair.
pub proof fn lemma_period_exempts(s: Seq<Seq<u8>>, x: Seq<u8>)
    requires
        s.contains(x),
    ensures
        x.contains(PERIOD) ==> remaining_no_ngrams(s).contains(x) && !filtered_by_ngram(
            s,
        ).contains(x),
        !x.contains(PERIOD) ==> (filtered_by_ngram(s).contains(x) <==> has_denied_pair(x)),
        remaining_no_ngrams(s).contains(x) != filtered_by_ngram(s).contains(x),
{
    lemma_selected(s, |x: Seq<u8>| plausible(x));
    lemma_selected(s, |x: Seq<u8>| !plausible(x));
}

} // verus!
