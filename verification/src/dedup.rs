//! Near-duplicate suppression: after a case-insensitive sort, each run of
//! neighbours that are similar enough to the string that opened the run is
//! collapsed into that string.

use crate::order::{is_sorted, sort_by_key, sorted_by_key, lemma_sorted_by_key};
use crate::score::{score_less_than, score_lt};
use crate::text::{copy_text, views};
use vstd::prelude::*;

verus! {

/// The bit pattern of the similarity that `strsim::normalized_levenshtein`
/// gives for two strings: one minus their edit distance over the length of
/// the longer, and one where both are empty.
pub uninterp spec fn normalized_levenshtein_bits(a: Seq<u8>, b: Seq<u8>) -> u64;

/// Calls `strsim::normalized_levenshtein` on the two strings and hands back
/// the bit pattern of its result. The result depends on the two strings
/// alone; nothing else is claimed of it.
#[verifier::external_body]
fn similarity_bits(a: &Vec<u8>, b: &Vec<u8>) -> (bits: u64)
    ensures
        bits == normalized_levenshtein_bits(a@, b@),
{
    let a_text = String::from_utf8_lossy(a);
    let b_text = String::from_utf8_lossy(b);
    strsim::normalized_levenshtein(&a_text, &b_text).to_bits()
}

/// A similarity marks a near-duplicate unless it is below the threshold.
pub open spec fn near_duplicate(similarity: u64, threshold: u64) -> bool {
    !score_lt(similarity, threshold)
}

/// Decides whether a similarity marks a near-duplicate under `threshold`,
/// both given as binary64 bit patterns.
pub fn is_near_duplicate(similarity: u64, threshold: u64) -> (r: bool)
    ensures
        r == near_duplicate(similarity, threshold),
{
    !score_less_than(similarity, threshold)
}

/// Whether `b` is a near-duplicate of `a` under `threshold`.
pub open spec fn similar(a: Seq<u8>, b: Seq<u8>, threshold: u64) -> bool {
    near_duplicate(normalized_levenshtein_bits(a, b), threshold)
}

/// The representatives of `s[current]` and of everything from `next` on:
/// a string that is similar to the current representative is passed over,
/// any other closes the run and becomes the next representative.
pub open spec fn representatives_from(
    s: Seq<Seq<u8>>,
    current: int,
    next: int,
    threshold: u64,
) -> Seq<Seq<u8>>
    recommends
        0 <= current < next <= s.len(),
    decreases s.len() - next,
{
    if next >= s.len() {
        seq![s[current]]
    } else if similar(s[current], s[next], threshold) {
        representatives_from(s, current, next + 1, threshold)
    } else {
        seq![s[current]] + representatives_from(s, next, next + 1, threshold)
    }
}

/// The strings from `next` on that are passed over as near-duplicates.
pub open spec fn suppressed_from(
    s: Seq<Seq<u8>>,
    current: int,
    next: int,
    threshold: u64,
) -> Seq<Seq<u8>>
    recommends
        0 <= current < next <= s.len(),
    decreases s.len() - next,
{
    if next >= s.len() {
        Seq::empty()
    } else if similar(s[current], s[next], threshold) {
        seq![s[next]] + suppressed_from(s, current, next + 1, threshold)
    } else {
        suppressed_from(s, next, next + 1, threshold)
    }
}

/// The representatives of a non-empty sequence, in its order.
pub open spec fn representatives(s: Seq<Seq<u8>>, threshold: u64) -> Seq<Seq<u8>>
    recommends
        s.len() >= 1,
{
    representatives_from(s, 0, 1, threshold)
}

/// The near-duplicates of a non-empty sequence, in its order.
pub open spec fn suppressed(s: Seq<Seq<u8>>, threshold: u64) -> Seq<Seq<u8>>
    recommends
        s.len() >= 1,
{
    suppressed_from(s, 0, 1, threshold)
}

/// The result of the whole stage for a non-empty sequence: sort, take the
/// representatives, sort again.
pub open spec fn deduplicated(s: Seq<Seq<u8>>, threshold: u64) -> Seq<Seq<u8>>
    recommends
        s.len() >= 1,
{
    sorted_by_key(representatives(sorted_by_key(s), threshold))
}

/// What the suppression does with a sorted sequence.
pub struct Collapsed {
    /// The representatives, in the order of the input.
    pub kept: Vec<Vec<u8>>,
    /// The near-duplicates that were passed over, in the order of the input.
    pub dropped: Vec<Vec<u8>>,
}

/// The outcome of the whole stage.
pub struct Deduplicated {
    /// The representatives, in case-insensitive order.
    pub final_strings: Vec<Vec<u8>>,
    /// The strings suppressed as near-duplicates of a representative.
    pub filtered_by_leven: Vec<Vec<u8>>,
}

/// Every representative is a string of the input, there is at least one, and
/// together with the suppressed strings they are as many as the input holds
/// from `current` on, `current` itself and what lies between it and `next`
/// apart.
pub proof fn lemma_representatives_from(s: Seq<Seq<u8>>, current: int, next: int, threshold: u64)
    requires
        0 <= current < next <= s.len(),
    ensures
        representatives_from(s, current, next, threshold).len() >= 1,
        representatives_from(s, current, next, threshold).len() + suppressed_from(
            s,
            current,
            next,
            threshold,
        ).len() == s.len() - next + 1,
        representatives_from(s, current, next, threshold)[0] == s[current],
        forall|k: int|
            0 <= k < representatives_from(s, current, next, threshold).len() ==> s.contains(
                #[trigger] representatives_from(s, current, next, threshold)[k],
            ),
        forall|k: int|
            0 <= k < suppressed_from(s, current, next, threshold).len() ==> s.contains(
                #[trigger] suppressed_from(s, current, next, threshold)[k],
            ),
    decreases s.len() - next,
{
    assert(s.contains(s[current]));
    if next < s.len() {
        assert(s.contains(s[next]));
        if similar(s[current], s[next], threshold) {
            lemma_representatives_from(s, current, next + 1, threshold);
        } else {
            lemma_representatives_from(s, next, next + 1, threshold);
        }
    }
}

/// For a sequence of `n >= 1` strings the suppression yields between one and
/// `n` representatives, each of them a string of the input as it stood
/// there.
pub proof fn lemma_representatives_total(s: Seq<Seq<u8>>, threshold: u64)
    requires
        s.len() >= 1,
    ensures
        1 <= representatives(s, threshold).len() <= s.len(),
        representatives(s, threshold).len() + suppressed(s, threshold).len() == s.len(),
        forall|k: int|
            0 <= k < representatives(s, threshold).len() ==> s.contains(
                #[trigger] representatives(s, threshold)[k],
            ),
        forall|k: int|
            0 <= k < suppressed(s, threshold).len() ==> s.contains(
                #[trigger] suppressed(s, threshold)[k],
            ),
{
    lemma_representatives_from(s, 0, 1, threshold);
}

/// For `n >= 1` strings the whole stage yields between one and `n` strings,
/// in case-insensitive order, and each of them, like each string it
/// suppresses, is a string of the input, byte for byte.
pub proof fn lemma_deduplicated_total(s: Seq<Seq<u8>>, threshold: u64)
    requires
        s.len() >= 1,
    ensures
        1 <= deduplicated(s, threshold).len() <= s.len(),
        is_sorted(deduplicated(s, threshold)),
        deduplicated(s, threshold).len() + suppressed(sorted_by_key(s), threshold).len()
            == s.len(),
        forall|k: int|
            0 <= k < deduplicated(s, threshold).len() ==> s.contains(
                #[trigger] deduplicated(s, threshold)[k],
            ),
        forall|k: int|
            0 <= k < suppressed(sorted_by_key(s), threshold).len() ==> s.contains(
                #[trigger] suppressed(sorted_by_key(s), threshold)[k],
            ),
{
    broadcast use vstd::seq_lib::group_to_multiset_ensures;

    let sorted = sorted_by_key(s);
    let kept = representatives(sorted, threshold);
    let last = deduplicated(s, threshold);
    let passed = suppressed(sorted, threshold);
    lemma_sorted_by_key(s);
    lemma_representatives_total(sorted, threshold);
    lemma_sorted_by_key(kept);
    assert forall|k: int| 0 <= k < last.len() implies s.contains(#[trigger] last[k]) by {
        assert(last.contains(last[k]));
        assert(last.to_multiset().count(last[k]) > 0);
        assert(kept.contains(last[k]));
        let j = choose|j: int| 0 <= j < kept.len() && kept[j] == last[k];
        assert(sorted.contains(kept[j]));
        assert(sorted.to_multiset().count(last[k]) > 0);
    }
    assert forall|k: int| 0 <= k < passed.len() implies s.contains(#[trigger] passed[k]) by {
        assert(sorted.contains(passed[k]));
        assert(sorted.to_multiset().count(passed[k]) > 0);
    }
}

/// The same strings and the same threshold give the same result, in the
/// same order: two results that each are what the stage yields are equal.
pub proof fn lemma_deduplicated_deterministic(
    s: Seq<Seq<u8>>,
    threshold: u64,
    first: Seq<Seq<u8>>,
    second: Seq<Seq<u8>>,
)
    requires
        first == deduplicated(s, threshold),
        second == deduplicated(s, threshold),
    ensures
        first == second,
{
}

/// Collapses runs of neighbours that are near-duplicates of the string that
/// opened the run. Only a string and the current representative are ever
/// compared.
pub fn collapse_similar(sorted: &Vec<Vec<u8>>, threshold: u64) -> (r: Collapsed)
    requires
        sorted.len() >= 1,
    ensures
        views(r.kept@) == representatives(views(sorted@), threshold),
        views(r.dropped@) == suppressed(views(sorted@), threshold),
        1 <= r.kept.len() <= sorted.len(),
        r.kept.len() + r.dropped.len() == sorted.len(),
        forall|k: int| 0 <= k < r.kept.len() ==> views(sorted@).contains(#[trigger] r.kept[k]@),
        forall|k: int|
            0 <= k < r.dropped.len() ==> views(sorted@).contains(#[trigger] r.dropped[k]@),
{
    let ghost s = views(sorted@);
    let mut kept: Vec<Vec<u8>> = Vec::new();
    let mut dropped: Vec<Vec<u8>> = Vec::new();
    let mut current: usize = 0;
    let mut next: usize = 1;
    while next < sorted.len()
        invariant
            s == views(sorted@),
            0 <= current < next <= sorted.len(),
            views(kept@) + representatives_from(s, current as int, next as int, threshold)
                == representatives(s, threshold),
            views(dropped@) + suppressed_from(s, current as int, next as int, threshold)
                == suppressed(s, threshold),
        decreases sorted.len() - next,
    {
        let similarity: u64 = similarity_bits(&sorted[current], &sorted[next]);
        if is_near_duplicate(similarity, threshold) {
            let ghost before = views(dropped@);
            dropped.push(copy_text(&sorted[next]));
            assert(views(dropped@) =~= before + seq![s[next as int]]);
            assert((before + seq![s[next as int]]) + suppressed_from(
                s,
                current as int,
                next + 1,
                threshold,
            ) =~= before + (seq![s[next as int]] + suppressed_from(
                s,
                current as int,
                next + 1,
                threshold,
            )));
        } else {
            let ghost before = views(kept@);
            kept.push(copy_text(&sorted[current]));
            assert(views(kept@) =~= before + seq![s[current as int]]);
            assert((before + seq![s[current as int]]) + representatives_from(
                s,
                next as int,
                next + 1,
                threshold,
            ) =~= before + (seq![s[current as int]] + representatives_from(
                s,
                next as int,
                next + 1,
                threshold,
            )));
            current = next;
        }
        next += 1;
    }
    let ghost before = views(kept@);
    kept.push(copy_text(&sorted[current]));
    proof {
        assert(views(kept@) =~= before + seq![s[current as int]]);
        assert(views(dropped@) =~= views(dropped@) + Seq::<Seq<u8>>::empty());
        lemma_representatives_total(s, threshold);
        assert(views(kept@).len() == kept.len());
        assert(views(dropped@).len() == dropped.len());
        assert forall|k: int| 0 <= k < kept.len() implies s.contains(#[trigger] kept[k]@) by {
            assert(views(kept@)[k] == kept[k]@);
        }
        assert forall|k: int| 0 <= k < dropped.len() implies s.contains(
            #[trigger] dropped[k]@,
        ) by {
            assert(views(dropped@)[k] == dropped[k]@);
        }
    }
    Collapsed { kept, dropped }
}

/// The whole stage: sort case-insensitively, collapse near-duplicates, and
/// sort the representatives again.
pub fn deduplicate(strings: &Vec<Vec<u8>>, threshold: u64) -> (r: Deduplicated)
    requires
        strings.len() >= 1,
    ensures
        views(r.final_strings@) == deduplicated(views(strings@), threshold),
        views(r.filtered_by_leven@) == suppressed(sorted_by_key(views(strings@)), threshold),
        is_sorted(views(r.final_strings@)),
        1 <= r.final_strings.len() <= strings.len(),
        r.final_strings.len() + r.filtered_by_leven.len() == strings.len(),
        forall|k: int|
            0 <= k < r.final_strings.len() ==> views(strings@).contains(
                #[trigger] r.final_strings[k]@,
            ),
        forall|k: int|
            0 <= k < r.filtered_by_leven.len() ==> views(strings@).contains(
                #[trigger] r.filtered_by_leven[k]@,
            ),
{
    let sorted: Vec<Vec<u8>> = sort_by_key(strings);
    let collapsed: Collapsed = collapse_similar(&sorted, threshold);
    let final_strings: Vec<Vec<u8>> = sort_by_key(&collapsed.kept);
    proof {
        let input = views(strings@);
        lemma_deduplicated_total(input, threshold);
        assert(views(final_strings@).len() == final_strings.len());
        assert(views(collapsed.dropped@).len() == collapsed.dropped.len());
        assert forall|k: int| 0 <= k < final_strings.len() implies input.contains(
            #[trigger] final_strings[k]@,
        ) by {
            assert(views(final_strings@)[k] == final_strings[k]@);
        }
        assert forall|k: int| 0 <= k < collapsed.dropped.len() implies input.contains(
            #[trigger] collapsed.dropped[k]@,
        ) by {
            assert(views(collapsed.dropped@)[k] == collapsed.dropped[k]@);
        }
    }
    Deduplicated { final_strings, filtered_by_leven: collapsed.dropped }
}

} // verus!
