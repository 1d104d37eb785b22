//! The language filter: a string is kept where a language detector is
//! confident enough that it is English.

use crate::score::{score_less_than, score_lt, UNIT_BITS};
use crate::text::{copy_text, views, Partition};
use vstd::prelude::*;

verus! {

/// The detector of the `lingua` crate. Nothing of its inside is known here.
#[verifier::external_type_specification]
#[verifier::external_body]
pub struct ExLanguageDetector(lingua::LanguageDetector);

/// Calls `LanguageDetector::compute_language_confidence` for English and
/// hands back the bit pattern of the confidence. The crate documents the
/// confidence as a number from zero to one, which is all that is claimed:
/// the value depends on the languages the detector was built with, and its
/// last bits on the order in which the crate walks its hash maps, so two
/// calls on one text may differ.
#[verifier::external_body]
fn english_confidence_bits(detector: &lingua::LanguageDetector, text: &Vec<u8>) -> (bits: u64)
    ensures
        bits <= UNIT_BITS,
{
    let text = String::from_utf8_lossy(text).into_owned();
    detector.compute_language_confidence(text, lingua::Language::English).to_bits()
}

/// A confidence is enough where it is strictly above the threshold.
pub open spec fn confident(confidence: u64, threshold: u64) -> bool {
    score_lt(threshold, confidence)
}

/// Decides whether a confidence is strictly above the threshold, both given
/// as binary64 bit patterns.
pub fn is_confident(confidence: u64, threshold: u64) -> (r: bool)
    ensures
        r == confident(confidence, threshold),
{
    score_less_than(threshold, confidence)
}

/// The strings of `s` whose confidence is enough, in the order of `s`;
/// `confidences[i]` belongs to `s[i]`.
pub open spec fn lang_strings(s: Seq<Seq<u8>>, confidences: Seq<u64>, threshold: u64) -> Seq<
    Seq<u8>,
>
    recommends
        s.len() == confidences.len(),
    decreases s.len(),
{
    if s.len() == 0 || confidences.len() == 0 {
        Seq::empty()
    } else if confident(confidences.last(), threshold) {
        lang_strings(s.drop_last(), confidences.drop_last(), threshold).push(s.last())
    } else {
        lang_strings(s.drop_last(), confidences.drop_last(), threshold)
    }
}

/// The strings of `s` whose confidence is not enough, in the order of `s`.
pub open spec fn filtered_by_lang(
    s: Seq<Seq<u8>>,
    confidences: Seq<u64>,
    threshold: u64,
) -> Seq<Seq<u8>>
    recommends
        s.len() == confidences.len(),
    decreases s.len(),
{
    if s.len() == 0 || confidences.len() == 0 {
        Seq::empty()
    } else if !confident(confidences.last(), threshold) {
        filtered_by_lang(s.drop_last(), confidences.drop_last(), threshold).push(s.last())
    } else {
        filtered_by_lang(s.drop_last(), confidences.drop_last(), threshold)
    }
}

/// Splits the strings by their confidences: `confidences[i]` is the
/// detector's confidence that `strings[i]` is English.
pub fn split_by_confidence(
    strings: &Vec<Vec<u8>>,
    confidences: &Vec<u64>,
    threshold: u64,
) -> (r: Partition)
    requires
        strings.len() == confidences.len(),
    ensures
        views(r.kept@) == lang_strings(views(strings@), confidences@, threshold),
        views(r.dropped@) == filtered_by_lang(views(strings@), confidences@, threshold),
        r.kept.len() + r.dropped.len() == strings.len(),
{
    let ghost all = views(strings@);
    let mut kept: Vec<Vec<u8>> = Vec::new();
    let mut dropped: Vec<Vec<u8>> = Vec::new();
    let mut i: usize = 0;
    while i < strings.len()
        invariant
            i <= strings.len(),
            strings.len() == confidences.len(),
            all == views(strings@),
            kept.len() + dropped.len() == i,
            views(kept@) == lang_strings(all.take(i as int), confidences@.take(i as int), threshold),
            views(dropped@) == filtered_by_lang(
                all.take(i as int),
                confidences@.take(i as int),
                threshold,
            ),
        decreases strings.len() - i,
    {
        proof {
            assert(all.take(i + 1).drop_last() =~= all.take(i as int));
            assert(confidences@.take(i + 1).drop_last() =~= confidences@.take(i as int));
            assert(all.take(i + 1).last() == strings[i as int]@);
        }
        if is_confident(confidences[i], threshold) {
            let ghost before = views(kept@);
            kept.push(copy_text(&strings[i]));
            assert(views(kept@) =~= before.push(strings[i as int]@));
        } else {
            let ghost before = views(dropped@);
            dropped.push(copy_text(&strings[i]));
            assert(views(dropped@) =~= before.push(strings[i as int]@));
        }
        i += 1;
    }
    assert(all.take(strings.len() as int) =~= all);
    assert(confidences@.take(strings.len() as int) =~= confidences@);
    Partition { kept, dropped }
}

/// The outcome of the language filter.
pub struct LanguageFiltered {
    /// The confidence that the detector gave for each string of the input.
    pub confidences: Vec<u64>,
    /// The strings whose confidence is enough.
    pub lang_strings: Vec<Vec<u8>>,
    /// The strings whose confidence is not enough.
    pub filtered_by_lang: Vec<Vec<u8>>,
}

/// Asks the detector for the confidence that each string is English.
pub fn english_confidences(detector: &lingua::LanguageDetector, strings: &Vec<Vec<u8>>) -> (r: Vec<
    u64,
>)
    ensures
        r.len() == strings.len(),
        forall|i: int| 0 <= i < r.len() ==> #[trigger] r[i] <= UNIT_BITS,
{
    let mut r: Vec<u64> = Vec::new();
    let mut i: usize = 0;
    while i < strings.len()
        invariant
            i <= strings.len(),
            r.len() == i,
            forall|k: int| 0 <= k < r.len() ==> #[trigger] r[k] <= UNIT_BITS,
        decreases strings.len() - i,
    {
        r.push(english_confidence_bits(detector, &strings[i]));
        i += 1;
    }
    r
}

/// The language filter: asks the detector about each string and keeps those
/// whose confidence for English is strictly above `threshold`. What is kept
/// is stated over the confidences that came back, which are handed out too.
pub fn language_filter(
    detector: &lingua::LanguageDetector,
    strings: &Vec<Vec<u8>>,
    threshold: u64,
) -> (r: LanguageFiltered)
    ensures
        r.confidences.len() == strings.len(),
        forall|i: int| 0 <= i < r.confidences.len() ==> #[trigger] r.confidences[i] <= UNIT_BITS,
        views(r.lang_strings@) == lang_strings(views(strings@), r.confidences@, threshold),
        views(r.filtered_by_lang@) == filtered_by_lang(
            views(strings@),
            r.confidences@,
            threshold,
        ),
        r.lang_strings.len() + r.filtered_by_lang.len() == strings.len(),
{
    let confidences: Vec<u64> = english_confidences(detector, strings);
    let parts: Partition = split_by_confidence(strings, &confidences, threshold);
    LanguageFiltered {
        confidences,
        lang_strings: parts.kept,
        filtered_by_lang: parts.dropped,
    }
}

} // verus!
