//! The density filter: a long string with neither whitespace nor a
//! percent-encoded separator is taken for binary noise.

use crate::text::{
    contains_bytes, contains_text, contains_whitespace, copy_text, has_whitespace, lemma_selected,
    selected, views, whitespace_at, Partition,
};
use vstd::prelude::*;

verus! {

/// The percent-encoded forms that count as separators, upper case only:
/// space, tab, line feed, carriage return with line feed, carriage return,
/// form feed, backslash, the two angle brackets, colon and slash.
pub open spec fn markers() -> Seq<Seq<u8>> {
    seq![
        seq![0x25u8, 0x32u8, 0x30u8],
        seq![0x25u8, 0x30u8, 0x39u8],
        seq![0x25u8, 0x30u8, 0x41u8],
        seq![0x25u8, 0x30u8, 0x44u8, 0x25u8, 0x30u8, 0x41u8],
        seq![0x25u8, 0x30u8, 0x44u8],
        seq![0x25u8, 0x30u8, 0x43u8],
        seq![0x25u8, 0x35u8, 0x43u8],
        seq![0x25u8, 0x33u8, 0x45u8],
        seq![0x25u8, 0x33u8, 0x43u8],
        seq![0x25u8, 0x33u8, 0x41u8],
        seq![0x25u8, 0x32u8, 0x46u8],
    ]
}

/// Whether `s` holds one of the markers.
pub open spec fn has_marker(s: Seq<u8>) -> bool {
    exists|k: int| 0 <= k < markers().len() && contains_text(s, #[trigger] markers()[k])
}

/// A string passes where it is shorter than `wslen`, or holds whitespace or
/// a marker.
pub open spec fn dense_enough(s: Seq<u8>, wslen: usize) -> bool {
    s.len() < wslen || has_whitespace(s) || has_marker(s)
}

/// The strings of `s` that pass.
pub open spec fn remaining(s: Seq<Seq<u8>>, wslen: usize) -> Seq<Seq<u8>> {
    selected(s, |x: Seq<u8>| dense_enough(x, wslen))
}

/// The strings of `s` that do not pass.
pub open spec fn filtered_by_whitespace(s: Seq<Seq<u8>>, wslen: usize) -> Seq<Seq<u8>> {
    selected(s, |x: Seq<u8>| !dense_enough(x, wslen))
}

/// The markers, as strings.
pub fn density_markers() -> (r: Vec<Vec<u8>>)
    ensures
        views(r@) == markers(),
{
    let mut r: Vec<Vec<u8>> = Vec::new();
    r.push(vec![0x25u8, 0x32u8, 0x30u8]);
    r.push(vec![0x25u8, 0x30u8, 0x39u8]);
    r.push(vec![0x25u8, 0x30u8, 0x41u8]);
    r.push(vec![0x25u8, 0x30u8, 0x44u8, 0x25u8, 0x30u8, 0x41u8]);
    r.push(vec![0x25u8, 0x30u8, 0x44u8]);
    r.push(vec![0x25u8, 0x30u8, 0x43u8]);
    r.push(vec![0x25u8, 0x35u8, 0x43u8]);
    r.push(vec![0x25u8, 0x33u8, 0x45u8]);
    r.push(vec![0x25u8, 0x33u8, 0x43u8]);
    r.push(vec![0x25u8, 0x33u8, 0x41u8]);
    r.push(vec![0x25u8, 0x32u8, 0x46u8]);
    proof {
        assert(r@.len() == 11);
        assert(markers().len() == 11);
        assert forall|k: int| 0 <= k < 11 implies #[trigger] views(r@)[k] == markers()[k] by {
            assert(r@[k]@ =~= markers()[k]);
        }
        assert(views(r@) =~= markers());
    }
    r
}

/// Whether `s` holds one of `markers`.
pub fn contains_marker(s: &Vec<u8>, markers: &Vec<Vec<u8>>) -> (r: bool)
    ensures
        r == exists|k: int|
            0 <= k < markers.len() && contains_text(s@, #[trigger] views(markers@)[k]),
{
    let mut k: usize = 0;
    while k < markers.len()
        invariant
            k <= markers.len(),
            forall|j: int| 0 <= j < k ==> !contains_text(s@, #[trigger] views(markers@)[j]),
        decreases markers.len() - k,
    {
        if contains_bytes(s, &markers[k]) {
            assert(views(markers@)[k as int] == markers[k as int]@);
            return true;
        }
        assert(views(markers@)[k as int] == markers[k as int]@);
        k += 1;
    }
    false
}

/// Decides whether a string passes the density filter.
pub fn is_dense_enough(s: &Vec<u8>, wslen: usize) -> (r: bool)
    ensures
        r == dense_enough(s@, wslen),
{
    if s.len() < wslen {
        return true;
    }
    if contains_whitespace(s) {
        return true;
    }
    let markers: Vec<Vec<u8>> = density_markers();
    contains_marker(s, &markers)
}

/// Splits the strings into those that pass the density filter and those
/// that do not.
pub fn density_filter(strings: &Vec<Vec<u8>>, wslen: usize) -> (r: Partition)
    ensures
        views(r.kept@) == remaining(views(strings@), wslen),
        views(r.dropped@) == filtered_by_whitespace(views(strings@), wslen),
{
    let ghost all = views(strings@);
    let mut kept: Vec<Vec<u8>> = Vec::new();
    let mut dropped: Vec<Vec<u8>> = Vec::new();
    let mut i: usize = 0;
    while i < strings.len()
        invariant
            i <= strings.len(),
            all == views(strings@),
            views(kept@) == remaining(all.take(i as int), wslen),
            views(dropped@) == filtered_by_whitespace(all.take(i as int), wslen),
        decreases strings.len() - i,
    {
        proof {
            assert(all.take(i + 1).drop_last() =~= all.take(i as int));
            assert(all.take(i + 1).last() == strings[i as int]@);
        }
        if is_dense_enough(&strings[i], wslen) {
            let ghost before = views(kept@);
            kept.push(copy_text(&strings[i]));
            assert(views(kept@) =~= before.push(strings[i as int]@));
        } else {
            let ghost before = views(dropped@);
            dropped.push(copy_text(&strings[i]));
            assert(views(dropped@) =~= before.push(strings[i as int]@));
        }
        i += 1;
    }
    assert(all.take(strings.len() as int) =~= all);
    Partition { kept, dropped }
}

/// A string of the input that is shorter than `wslen` always remains; one
/// that is not remains exactly where it holds whitespace or a marker, so one
/// that holds a space always remains.
pub proof fn lemma_density_rule(s: Seq<Seq<u8>>, wslen: usize, x: Seq<u8>)
    requires
        s.contains(x),
    ensures
        x.len() < wslen ==> remaining(s, wslen).contains(x),
        x.len() >= wslen ==> (remaining(s, wslen).contains(x) <==> has_whitespace(x) || has_marker(
            x,
        )),
        x.contains(32u8) ==> remaining(s, wslen).contains(x),
        remaining(s, wslen).contains(x) != filtered_by_whitespace(s, wslen).contains(x),
{
    lemma_selected(s, |x: Seq<u8>| dense_enough(x, wslen));
    lemma_selected(s, |x: Seq<u8>| !dense_enough(x, wslen));
    if x.contains(32u8) {
        let i = choose|i: int| 0 <= i < x.len() && x[i] == 32u8;
        assert(whitespace_at(x, i) == 1);
    }
}

} // verus!
