//! The stages in their order: density, language, letter pairs, near
//! duplicates. A stage that leaves nothing stops the run.

use crate::bigrams::{filtered_by_ngram, ngram_filter, plausible, remaining_no_ngrams};
use crate::dedup::{deduplicate, representatives, suppressed, Deduplicated};
use crate::density::{density_filter, filtered_by_whitespace, remaining};
use crate::language::{filtered_by_lang, lang_strings, language_filter, LanguageFiltered};
use crate::order::sorted_by_key;
use crate::text::{lemma_selected, views, Partition};
use vstd::prelude::*;

verus! {

/// Why a run stopped before it had a result.
#[derive(Clone, Copy, Debug, PartialEq, Eq, Structural)]
pub enum Halt {
    /// The scanner found no string.
    NoStringsFound,
    /// No string passed the language filter.
    NoneInLanguage,
    /// No string passed the letter-pair filter.
    NonePlausible,
}

/// The thresholds of the filters.
#[derive(Clone, Copy, Debug, PartialEq, Eq, Structural)]
pub struct Settings {
    /// The length from which the density filter looks at a string.
    pub wslen: usize,
    /// The confidence that a kept string must exceed, as a bit pattern.
    pub lang_threshold: u64,
    /// The similarity from which a string is a near-duplicate, as a bit
    /// pattern.
    pub leven_threshold: u64,
}

/// What the last two stages make of the strings that passed the language
/// filter.
pub struct Suppressed {
    /// The strings that the letter-pair filter removed.
    pub filtered_by_ngram: Vec<Vec<u8>>,
    /// The strings suppressed as near-duplicates.
    pub filtered_by_leven: Vec<Vec<u8>>,
    /// The result, in case-insensitive order.
    pub final_strings: Vec<Vec<u8>>,
    /// Why there is no result, if there is none.
    pub halted: Option<Halt>,
}

/// What a whole run yields.
pub struct Outcome {
    /// The strings that the density filter removed.
    pub filtered_by_whitespace: Vec<Vec<u8>>,
    /// The detector's confidence for each string that passed the density
    /// filter, in their order.
    pub confidences: Vec<u64>,
    /// The strings that the language filter removed.
    pub filtered_by_lang: Vec<Vec<u8>>,
    /// The strings that the letter-pair filter removed.
    pub filtered_by_ngram: Vec<Vec<u8>>,
    /// The strings suppressed as near-duplicates.
    pub filtered_by_leven: Vec<Vec<u8>>,
    /// The result, in case-insensitive order.
    pub final_strings: Vec<Vec<u8>>,
    /// Why there is no result, if there is none.
    pub halted: Option<Halt>,
}

/// Whether the last two stages stop, and why: with no string from the
/// language filter, or with none left by the letter-pair filter.
pub open spec fn suppression_halt(passed: Seq<Seq<u8>>) -> Option<Halt> {
    if passed.len() == 0 {
        Some(Halt::NoneInLanguage)
    } else if remaining_no_ngrams(passed).len() == 0 {
        Some(Halt::NonePlausible)
    } else {
        None
    }
}

/// The result of the last two stages: the representatives of the plausible
/// strings, sorted; nothing where the stages stop.
pub open spec fn final_of(passed: Seq<Seq<u8>>, leven_threshold: u64) -> Seq<Seq<u8>> {
    if suppression_halt(passed).is_some() {
        Seq::empty()
    } else {
        sorted_by_key(
            representatives(sorted_by_key(remaining_no_ngrams(passed)), leven_threshold),
        )
    }
}

/// The near-duplicates that the last stage passes over; none where the
/// stages stop.
pub open spec fn suppressed_of(passed: Seq<Seq<u8>>, leven_threshold: u64) -> Seq<Seq<u8>> {
    if suppression_halt(passed).is_some() {
        Seq::empty()
    } else {
        suppressed(sorted_by_key(remaining_no_ngrams(passed)), leven_threshold)
    }
}

/// The letter-pair filter and the near-duplicate suppression, on the strings
/// that passed the language filter.
pub fn suppress(passed: &Vec<Vec<u8>>, leven_threshold: u64) -> (r: Suppressed)
    ensures
        r.halted == suppression_halt(views(passed@)),
        views(r.filtered_by_ngram@) == filtered_by_ngram(views(passed@)),
        views(r.final_strings@) == final_of(views(passed@), leven_threshold),
        views(r.filtered_by_leven@) == suppressed_of(views(passed@), leven_threshold),
        r.halted.is_none() ==> 1 <= r.final_strings.len() <= passed.len(),
{
    let parts: Partition = ngram_filter(passed);
    assert(views(parts.kept@).len() == parts.kept.len());
    if passed.len() == 0 || parts.kept.len() == 0 {
        let halted: Option<Halt> = if passed.len() == 0 {
            Some(Halt::NoneInLanguage)
        } else {
            Some(Halt::NonePlausible)
        };
        let r = Suppressed {
            filtered_by_ngram: parts.dropped,
            filtered_by_leven: Vec::new(),
            final_strings: Vec::new(),
            halted,
        };
        assert(views(r.final_strings@) =~= Seq::<Seq<u8>>::empty());
        assert(views(r.filtered_by_leven@) =~= Seq::<Seq<u8>>::empty());
        return r;
    }
    let result: Deduplicated = deduplicate(&parts.kept, leven_threshold);
    proof {
        lemma_selected(views(passed@), |x: Seq<u8>| plausible(x));
    }
    Suppressed {
        filtered_by_ngram: parts.dropped,
        filtered_by_leven: result.filtered_by_leven,
        final_strings: result.final_strings,
        halted: None,
    }
}

/// Whether a run stops, and why.
pub open spec fn run_halt(
    candidates: Seq<Seq<u8>>,
    confidences: Seq<u64>,
    settings: Settings,
) -> Option<Halt> {
    if candidates.len() == 0 {
        Some(Halt::NoStringsFound)
    } else {
        suppression_halt(
            lang_strings(remaining(candidates, settings.wslen), confidences, settings.lang_threshold),
        )
    }
}

/// Runs the four filters on the scanner's strings. Every part of the
/// outcome is stated over the input and the confidences that the detector
/// gave, which are part of the outcome.
pub fn run_filters(
    detector: &lingua::LanguageDetector,
    candidates: &Vec<Vec<u8>>,
    settings: Settings,
) -> (r: Outcome)
    ensures
        r.confidences.len() == remaining(views(candidates@), settings.wslen).len(),
        r.halted == run_halt(views(candidates@), r.confidences@, settings),
        views(r.filtered_by_whitespace@) == filtered_by_whitespace(
            views(candidates@),
            settings.wslen,
        ),
        views(r.filtered_by_lang@) == filtered_by_lang(
            remaining(views(candidates@), settings.wslen),
            r.confidences@,
            settings.lang_threshold,
        ),
        views(r.filtered_by_ngram@) == filtered_by_ngram(
            lang_strings(
                remaining(views(candidates@), settings.wslen),
                r.confidences@,
                settings.lang_threshold,
            ),
        ),
        views(r.final_strings@) == final_of(
            lang_strings(
                remaining(views(candidates@), settings.wslen),
                r.confidences@,
                settings.lang_threshold,
            ),
            settings.leven_threshold,
        ),
        views(r.filtered_by_leven@) == suppressed_of(
            lang_strings(
                remaining(views(candidates@), settings.wslen),
                r.confidences@,
                settings.lang_threshold,
            ),
            settings.leven_threshold,
        ),
{
    let dense: Partition = density_filter(candidates, settings.wslen);
    assert(views(dense.kept@).len() == dense.kept.len());
    let spoken: LanguageFiltered = language_filter(detector, &dense.kept, settings.lang_threshold);
    let tail: Suppressed = suppress(&spoken.lang_strings, settings.leven_threshold);
    let halted: Option<Halt> = if candidates.len() == 0 {
        Some(Halt::NoStringsFound)
    } else {
        tail.halted
    };
    Outcome {
        filtered_by_whitespace: dense.dropped,
        confidences: spoken.confidences,
        filtered_by_lang: spoken.filtered_by_lang,
        filtered_by_ngram: tail.filtered_by_ngram,
        filtered_by_leven: tail.filtered_by_leven,
        final_strings: tail.final_strings,
        halted,
    }
}

} // verus!
