//! The byte scanner: runs of text-like bytes are cut into lines, the lines
//! are trimmed, and those within the length bounds are collected.

use crate::string_set::{lemma_with_string_distinct, with_string, StringSet};
use crate::text::{
    is_printable, printable, views, whitespace_at, whitespace_at_end, whitespace_len_at,
    whitespace_len_before,
};
use vstd::prelude::*;
use vstd::utf8::{is_leading_byte_width_1, partial_valid_utf8, valid_utf8};

verus! {

/// A byte that ends a line: line feed or carriage return.
pub open spec fn line_break(c: u8) -> bool {
    c == 10 || c == 13
}

/// A run is text where it is well-formed UTF-8.
pub open spec fn decodable(run: Seq<u8>) -> bool {
    valid_utf8(run)
}

/// Calls `std::str::from_utf8`, which succeeds exactly on well-formed UTF-8,
/// and says whether it did.
#[verifier::external_body]
fn decodes(run: &Vec<u8>) -> (r: bool)
    ensures
        r == valid_utf8(run@),
{
    std::str::from_utf8(run).is_ok()
}

/// Whether `run` is well-formed UTF-8.
pub fn is_decodable(run: &Vec<u8>) -> (r: bool)
    ensures
        r == decodable(run@),
{
    decodes(run)
}

/// `s` without the white-space characters at its start.
pub open spec fn trim_start(s: Seq<u8>) -> Seq<u8>
    decreases s.len(),
{
    if whitespace_at(s, 0) > 0 {
        trim_start(s.skip(whitespace_at(s, 0)))
    } else {
        s
    }
}

/// `s` without the white-space characters at its end.
pub open spec fn trim_end(s: Seq<u8>) -> Seq<u8>
    decreases s.len(),
{
    if whitespace_at_end(s) > 0 {
        trim_end(s.take(s.len() - whitespace_at_end(s)))
    } else {
        s
    }
}

/// `s` without the white-space characters at either end.
pub open spec fn trim(s: Seq<u8>) -> Seq<u8> {
    trim_end(trim_start(s))
}

/// No white-space character stands at the start or at the end.
pub open spec fn is_trimmed(s: Seq<u8>) -> bool {
    whitespace_at(s, 0) == 0 && whitespace_at_end(s) == 0
}

/// What `trim_end` leaves is the front of its argument, and does not end in
/// white space.
pub proof fn lemma_trim_end(s: Seq<u8>)
    ensures
        trim_end(s).len() <= s.len(),
        trim_end(s) == s.take(trim_end(s).len() as int),
        whitespace_at_end(trim_end(s)) == 0,
    decreases s.len(),
{
    if whitespace_at_end(s) > 0 {
        let front = s.take(s.len() - whitespace_at_end(s));
        lemma_trim_end(front);
        assert(front.take(trim_end(s).len() as int) =~= s.take(trim_end(s).len() as int));
    } else {
        assert(s.take(s.len() as int) =~= s);
    }
}

/// What `trim_start` leaves does not begin with white space.
pub proof fn lemma_trim_start(s: Seq<u8>)
    ensures
        whitespace_at(trim_start(s), 0) == 0,
    decreases s.len(),
{
    if whitespace_at(s, 0) > 0 {
        lemma_trim_start(s.skip(whitespace_at(s, 0)));
    }
}

/// A trimmed string has no white space at either end.
pub proof fn lemma_trim_is_trimmed(s: Seq<u8>)
    ensures
        is_trimmed(trim(s)),
{
    lemma_trim_start(s);
    lemma_trim_end(trim_start(s));
}

/// Trimming leaves a string alone that has no white space at either end.
pub proof fn lemma_trimmed_is_fixed(s: Seq<u8>)
    requires
        is_trimmed(s),
    ensures
        trim(s) == s,
{
}

/// Trimming twice is trimming once.
pub proof fn lemma_trim_idempotent(s: Seq<u8>)
    ensures
        trim(trim(s)) == trim(s),
{
    lemma_trim_is_trimmed(s);
    lemma_trimmed_is_fixed(trim(s));
}

/// Trims a line of the white space that `str::trim` removes.
pub fn trim_line(line: &Vec<u8>) -> (r: Vec<u8>)
    ensures
        r@ == trim(line@),
{
    let len: usize = line.len();
    let mut start: usize = 0;
    assert(line@.take(len as int) =~= line@);
    assert(line@.skip(0) =~= line@);
    let mut k: usize = whitespace_len_at(line, start, len);
    while k > 0
        invariant
            len == line.len(),
            start <= len,
            k <= len - start,
            k == whitespace_at(line@, start as int),
            trim_start(line@) == trim_start(line@.skip(start as int)),
        decreases len - start,
    {
        assert(whitespace_at(line@.skip(start as int), 0) == k);
        assert(line@.skip(start as int).skip(k as int) =~= line@.skip(start + k));
        start += k;
        k = whitespace_len_at(line, start, len);
    }
    assert(whitespace_at(line@.skip(start as int), 0) == 0);
    let mut end: usize = len;
    assert(line@.subrange(start as int, end as int) =~= line@.skip(start as int));
    let mut k: usize = whitespace_len_before(line, start, end);
    while k > 0
        invariant
            start <= end <= line.len(),
            k <= end - start,
            k == whitespace_at_end(line@.subrange(start as int, end as int)),
            trim(line@) == trim_end(line@.subrange(start as int, end as int)),
        decreases end,
    {
        assert(line@.subrange(start as int, end as int).take(end - start - k) =~= line@.subrange(
            start as int,
            end - k,
        ));
        end -= k;
        k = whitespace_len_before(line, start, end);
    }
    copy_range(line, start, end)
}

/// The lines of `run` from `at` on, where the line being read began at
/// `start`.
pub open spec fn lines_from(run: Seq<u8>, start: int, at: int) -> Seq<Seq<u8>>
    recommends
        0 <= start <= at <= run.len(),
    decreases run.len() - at,
{
    if at >= run.len() {
        seq![run.subrange(start, run.len() as int)]
    } else if line_break(run[at]) {
        seq![run.subrange(start, at)] + lines_from(run, at + 1, at + 1)
    } else {
        lines_from(run, start, at + 1)
    }
}

/// `run` cut at every line feed and every carriage return; the breaks
/// themselves are left out. There is one line more than there are breaks.
pub open spec fn split_lines(run: Seq<u8>) -> Seq<Seq<u8>> {
    lines_from(run, 0, 0)
}

/// Copies `run[start..end]`.
fn copy_range(run: &Vec<u8>, start: usize, end: usize) -> (r: Vec<u8>)
    requires
        start <= end <= run.len(),
    ensures
        r@ == run@.subrange(start as int, end as int),
{
    let mut r: Vec<u8> = Vec::new();
    let mut i: usize = start;
    while i < end
        invariant
            start <= i <= end <= run.len(),
            r@ == run@.subrange(start as int, i as int),
        decreases end - i,
    {
        r.push(run[i]);
        i += 1;
        assert(r@ =~= run@.subrange(start as int, i as int));
    }
    r
}

/// Cuts a run into its lines.
pub fn split_run(run: &Vec<u8>) -> (lines: Vec<Vec<u8>>)
    ensures
        views(lines@) == split_lines(run@),
{
    let mut lines: Vec<Vec<u8>> = Vec::new();
    let mut start: usize = 0;
    let mut at: usize = 0;
    assert(views(lines@) + lines_from(run@, 0, 0) =~= split_lines(run@));
    while at < run.len()
        invariant
            start <= at <= run.len(),
            views(lines@) + lines_from(run@, start as int, at as int) == split_lines(run@),
        decreases run.len() - at,
    {
        if run[at] == 10 || run[at] == 13 {
            let ghost before = views(lines@);
            let ghost piece = run@.subrange(start as int, at as int);
            lines.push(copy_range(run, start, at));
            assert(views(lines@) =~= before + seq![piece]);
            assert((before + seq![piece]) + lines_from(run@, at + 1, at + 1) =~= before + (
            seq![piece] + lines_from(run@, at + 1, at + 1)));
            start = at + 1;
        }
        at += 1;
    }
    let ghost before = views(lines@);
    lines.push(copy_range(run, start, run.len()));
    assert(views(lines@) =~= before + seq![run@.subrange(start as int, run@.len() as int)]);
    lines
}

/// A trimmed line is kept where it is not empty and its length is within
/// the bounds, both included.
pub open spec fn accepted(line: Seq<u8>, min_length: usize, max_length: usize) -> bool {
    line.len() > 0 && min_length <= line.len() && line.len() <= max_length
}

/// What holds of every string that the scanner keeps.
pub open spec fn is_candidate(s: Seq<u8>, min_length: usize, max_length: usize) -> bool {
    &&& s.len() > 0
    &&& min_length <= s.len() <= max_length
    &&& trim(s) == s
}

/// Every string of `set` is a candidate.
pub open spec fn all_candidates(set: Seq<Seq<u8>>, min_length: usize, max_length: usize) -> bool {
    forall|i: int| 0 <= i < set.len() ==> is_candidate(#[trigger] set[i], min_length, max_length)
}

/// The kept strings after `lines` have been looked at in order: each line is
/// trimmed and joins the set where it is accepted.
pub open spec fn unique_after(
    unique: Seq<Seq<u8>>,
    lines: Seq<Seq<u8>>,
    min_length: usize,
    max_length: usize,
) -> Seq<Seq<u8>>
    decreases lines.len(),
{
    if lines.len() == 0 {
        unique
    } else {
        let before = unique_after(unique, lines.drop_last(), min_length, max_length);
        let line = trim(lines.last());
        if accepted(line, min_length, max_length) {
            with_string(before, line)
        } else {
            before
        }
    }
}

/// The recorded rejects after `lines` have been looked at in order: with
/// logging on, each trimmed line that is not accepted joins the set.
pub open spec fn rejected_after(
    rejected: Seq<Seq<u8>>,
    lines: Seq<Seq<u8>>,
    logging: bool,
    min_length: usize,
    max_length: usize,
) -> Seq<Seq<u8>>
    decreases lines.len(),
{
    if lines.len() == 0 {
        rejected
    } else {
        let before = rejected_after(rejected, lines.drop_last(), logging, min_length, max_length);
        let line = trim(lines.last());
        if logging && !accepted(line, min_length, max_length) {
            with_string(before, line)
        } else {
            before
        }
    }
}

/// The kept strings after a run has been flushed: a run that is not text
/// changes nothing.
pub open spec fn flushed_unique(
    unique: Seq<Seq<u8>>,
    run: Seq<u8>,
    min_length: usize,
    max_length: usize,
) -> Seq<Seq<u8>> {
    if decodable(run) {
        unique_after(unique, split_lines(run), min_length, max_length)
    } else {
        unique
    }
}

/// The recorded rejects after a run has been flushed.
pub open spec fn flushed_rejected(
    rejected: Seq<Seq<u8>>,
    run: Seq<u8>,
    logging: bool,
    min_length: usize,
    max_length: usize,
) -> Seq<Seq<u8>> {
    if decodable(run) {
        rejected_after(rejected, split_lines(run), logging, min_length, max_length)
    } else {
        rejected
    }
}

/// Flushes a run: cuts it into lines, trims each, and inserts the accepted
/// ones into `unique_strings`; with `logging` the others go to
/// `filtered_by_len`. A run that is not well-formed UTF-8 is dropped whole.
/// The run is empty afterwards in every case.
pub fn process_text_candidate(
    text_candidate: &mut Vec<u8>,
    unique_strings: &mut StringSet,
    filtered_by_len: &mut StringSet,
    logging: bool,
    min_length: usize,
    max_length: usize,
)
    requires
        old(unique_strings).wf(),
        old(filtered_by_len).wf(),
    ensures
        final(text_candidate)@ == Seq::<u8>::empty(),
        final(unique_strings)@ == flushed_unique(
            old(unique_strings)@,
            old(text_candidate)@,
            min_length,
            max_length,
        ),
        final(filtered_by_len)@ == flushed_rejected(
            old(filtered_by_len)@,
            old(text_candidate)@,
            logging,
            min_length,
            max_length,
        ),
        final(unique_strings).wf(),
        final(filtered_by_len).wf(),
        all_candidates(old(unique_strings)@, min_length, max_length) ==> all_candidates(
            final(unique_strings)@,
            min_length,
            max_length,
        ),
{
    let ghost unique0 = unique_strings@;
    let ghost rejected0 = filtered_by_len@;
    if is_decodable(text_candidate) {
        let lines: Vec<Vec<u8>> = split_run(text_candidate);
        let ghost all = views(lines@);
        let mut i: usize = 0;
        while i < lines.len()
            invariant
                i <= lines.len(),
                all == views(lines@),
                unique_strings.wf(),
                filtered_by_len.wf(),
                unique_strings@ == unique_after(unique0, all.take(i as int), min_length, max_length),
                filtered_by_len@ == rejected_after(
                    rejected0,
                    all.take(i as int),
                    logging,
                    min_length,
                    max_length,
                ),
            decreases lines.len() - i,
        {
            let cleaned_line: Vec<u8> = trim_line(&lines[i]);
            proof {
                assert(all.take(i + 1).drop_last() =~= all.take(i as int));
                assert(all.take(i + 1).last() == lines[i as int]@);
            }
            if cleaned_line.len() > 0 && cleaned_line.len() >= min_length && cleaned_line.len()
                <= max_length {
                unique_strings.insert(cleaned_line);
            } else if logging {
                filtered_by_len.insert(cleaned_line);
            }
            i += 1;
        }
        proof {
            assert(all.take(lines.len() as int) =~= all);
            lemma_unique_after_candidates(unique0, all, min_length, max_length);
        }
    }
    text_candidate.clear();
}

/// Looking at lines keeps a set of candidates a set of candidates, free of
/// repetitions, and drops nothing from it.
pub proof fn lemma_unique_after_candidates(
    unique: Seq<Seq<u8>>,
    lines: Seq<Seq<u8>>,
    min_length: usize,
    max_length: usize,
)
    ensures
        all_candidates(unique, min_length, max_length) ==> all_candidates(
            unique_after(unique, lines, min_length, max_length),
            min_length,
            max_length,
        ),
        unique.no_duplicates() ==> unique_after(
            unique,
            lines,
            min_length,
            max_length,
        ).no_duplicates(),
        forall|x: Seq<u8>|
            unique.contains(x) ==> unique_after(unique, lines, min_length, max_length).contains(x),
        forall|k: int|
            0 <= k < lines.len() && accepted(trim(#[trigger] lines[k]), min_length, max_length)
                ==> unique_after(unique, lines, min_length, max_length).contains(trim(lines[k])),
    decreases lines.len(),
{
    if lines.len() > 0 {
        let front = lines.drop_last();
        let before = unique_after(unique, front, min_length, max_length);
        let line = trim(lines.last());
        let after = unique_after(unique, lines, min_length, max_length);
        lemma_unique_after_candidates(unique, front, min_length, max_length);
        lemma_trim_idempotent(lines.last());
        if before.no_duplicates() {
            lemma_with_string_distinct(before, line);
        }
        assert forall|x: Seq<u8>| before.contains(x) implies after.contains(x) by {
            if accepted(line, min_length, max_length) && !before.contains(line) {
                let i = choose|i: int| 0 <= i < before.len() && before[i] == x;
                assert(after[i] == x);
            }
        }
        assert forall|k: int|
            0 <= k < lines.len() && accepted(
                trim(#[trigger] lines[k]),
                min_length,
                max_length,
            ) implies after.contains(trim(lines[k])) by {
            if k < lines.len() - 1 {
                assert(front[k] == lines[k]);
            } else {
                if !before.contains(line) {
                    assert(after[before.len() as int] == line);
                }
            }
        }
    }
}

/// Lines whose accepted forms are all in the set already change nothing.
pub proof fn lemma_unique_after_absorbs(
    unique: Seq<Seq<u8>>,
    lines: Seq<Seq<u8>>,
    min_length: usize,
    max_length: usize,
)
    requires
        forall|k: int|
            0 <= k < lines.len() && accepted(trim(#[trigger] lines[k]), min_length, max_length)
                ==> unique.contains(trim(lines[k])),
    ensures
        unique_after(unique, lines, min_length, max_length) == unique,
    decreases lines.len(),
{
    if lines.len() > 0 {
        let front = lines.drop_last();
        assert forall|k: int|
            0 <= k < front.len() && accepted(
                trim(#[trigger] front[k]),
                min_length,
                max_length,
            ) implies unique.contains(trim(front[k])) by {
            assert(front[k] == lines[k]);
        }
        lemma_unique_after_absorbs(unique, front, min_length, max_length);
        assert(lines.last() == lines[lines.len() - 1]);
    }
}

/// Every string that a flush leaves in the set is a candidate, if every
/// string was one before: its length is within the bounds, it is not empty,
/// and trimming does not change it.
pub proof fn lemma_flush_keeps_candidates(
    unique: Seq<Seq<u8>>,
    run: Seq<u8>,
    min_length: usize,
    max_length: usize,
)
    requires
        all_candidates(unique, min_length, max_length),
    ensures
        all_candidates(flushed_unique(unique, run, min_length, max_length), min_length, max_length),
{
    lemma_unique_after_candidates(unique, split_lines(run), min_length, max_length);
}

/// Flushing the same run a second time, with the same bounds, leaves the set
/// as the first flush left it.
pub proof fn lemma_flush_twice(
    unique: Seq<Seq<u8>>,
    run: Seq<u8>,
    min_length: usize,
    max_length: usize,
)
    ensures
        flushed_unique(
            flushed_unique(unique, run, min_length, max_length),
            run,
            min_length,
            max_length,
        ) == flushed_unique(unique, run, min_length, max_length),
{
    if decodable(run) {
        let lines = split_lines(run);
        lemma_unique_after_candidates(unique, lines, min_length, max_length);
        lemma_unique_after_absorbs(
            unique_after(unique, lines, min_length, max_length),
            lines,
            min_length,
            max_length,
        );
    }
}

/// What a scanner holds, as mathematical values.
pub struct ScanState {
    /// The run of text-like bytes that is being collected.
    pub pending: Seq<u8>,
    /// The strings kept so far.
    pub unique: Seq<Seq<u8>>,
    /// The rejects recorded so far.
    pub rejected: Seq<Seq<u8>>,
}

/// The bounds and the switch that a scanner is made with.
#[derive(Clone, Copy, Debug, PartialEq, Eq, Structural)]
pub struct ScanConfig {
    /// The least length of a kept string.
    pub min_length: usize,
    /// The greatest length of a kept string.
    pub max_length: usize,
    /// Whether rejected lines are recorded.
    pub logging: bool,
}

/// The state after a flush: the run is cut up and emptied.
pub open spec fn after_flush(st: ScanState, cfg: ScanConfig) -> ScanState {
    ScanState {
        pending: Seq::empty(),
        unique: flushed_unique(st.unique, st.pending, cfg.min_length, cfg.max_length),
        rejected: flushed_rejected(
            st.rejected,
            st.pending,
            cfg.logging,
            cfg.min_length,
            cfg.max_length,
        ),
    }
}

/// The state after one more byte: a text-like byte joins the run, any other
/// byte flushes the run and is itself dropped.
pub open spec fn after_byte(st: ScanState, b: u8, cfg: ScanConfig) -> ScanState {
    if printable(b) {
        ScanState { pending: st.pending.push(b), ..st }
    } else {
        after_flush(st, cfg)
    }
}

/// The state after the bytes of `input`, in order.
pub open spec fn after_bytes(st: ScanState, input: Seq<u8>, cfg: ScanConfig) -> ScanState
    decreases input.len(),
{
    if input.len() == 0 {
        st
    } else {
        after_byte(after_bytes(st, input.drop_last(), cfg), input.last(), cfg)
    }
}

/// The state at the end of the input: a run that is not empty is flushed.
pub open spec fn at_end(st: ScanState, cfg: ScanConfig) -> ScanState {
    if st.pending.len() > 0 {
        after_flush(st, cfg)
    } else {
        st
    }
}

/// The state in which nothing has been read.
pub open spec fn initial_state() -> ScanState {
    ScanState { pending: Seq::empty(), unique: Seq::empty(), rejected: Seq::empty() }
}

/// The state after all of `input` has been scanned from the start.
pub open spec fn scanned(input: Seq<u8>, cfg: ScanConfig) -> ScanState {
    at_end(after_bytes(initial_state(), input, cfg), cfg)
}

/// Each byte of the run is text-like, no string occurs twice in either set,
/// and each kept string is a candidate.
pub open spec fn state_wf(st: ScanState, cfg: ScanConfig) -> bool {
    &&& forall|i: int| 0 <= i < st.pending.len() ==> printable(#[trigger] st.pending[i])
    &&& st.unique.no_duplicates()
    &&& st.rejected.no_duplicates()
    &&& all_candidates(st.unique, cfg.min_length, cfg.max_length)
}

/// A run of text-like bytes is always text, so a scanner never drops the run
/// that it has collected.
pub proof fn lemma_text_like_is_decodable(run: Seq<u8>)
    requires
        forall|i: int| 0 <= i < run.len() ==> printable(#[trigger] run[i]),
    ensures
        decodable(run),
{
    assert forall|i: int| 0 <= i < run.len() implies #[trigger] is_leading_byte_width_1(
        run[i],
    ) by {
        assert(printable(run[i]));
    }
    assert(run.subrange(0, 0) =~= Seq::<u8>::empty());
    assert(partial_valid_utf8(run, 0));
    vstd::utf8::partial_valid_utf8_extend_ascii_block(run, 0, run.len() as int);
    assert(run.subrange(0, run.len() as int) =~= run);
}

/// Recording rejected lines keeps a set free of repetitions.
pub proof fn lemma_rejected_after_distinct(
    rejected: Seq<Seq<u8>>,
    lines: Seq<Seq<u8>>,
    logging: bool,
    min_length: usize,
    max_length: usize,
)
    requires
        rejected.no_duplicates(),
    ensures
        rejected_after(rejected, lines, logging, min_length, max_length).no_duplicates(),
    decreases lines.len(),
{
    if lines.len() > 0 {
        lemma_rejected_after_distinct(rejected, lines.drop_last(), logging, min_length, max_length);
        lemma_with_string_distinct(
            rejected_after(rejected, lines.drop_last(), logging, min_length, max_length),
            trim(lines.last()),
        );
    }
}

/// A flush keeps the invariant of the state.
pub proof fn lemma_after_flush_wf(st: ScanState, cfg: ScanConfig)
    requires
        state_wf(st, cfg),
    ensures
        state_wf(after_flush(st, cfg), cfg),
{
    let lines = split_lines(st.pending);
    lemma_unique_after_candidates(st.unique, lines, cfg.min_length, cfg.max_length);
    lemma_rejected_after_distinct(st.rejected, lines, cfg.logging, cfg.min_length, cfg.max_length);
}

/// Whatever the input, every string that the scanner has kept is a
/// candidate: not empty, within the length bounds, and unchanged by
/// trimming; and no string is kept twice.
pub proof fn lemma_scanned_wf(input: Seq<u8>, cfg: ScanConfig)
    ensures
        state_wf(after_bytes(initial_state(), input, cfg), cfg),
        state_wf(scanned(input, cfg), cfg),
        all_candidates(scanned(input, cfg).unique, cfg.min_length, cfg.max_length),
    decreases input.len(),
{
    if input.len() > 0 {
        lemma_scanned_wf(input.drop_last(), cfg);
        lemma_after_flush_wf(after_bytes(initial_state(), input.drop_last(), cfg), cfg);
    }
    lemma_after_flush_wf(after_bytes(initial_state(), input, cfg), cfg);
}

/// Input that holds no text-like byte leaves no kept string.
pub proof fn lemma_no_text_no_strings(input: Seq<u8>, cfg: ScanConfig)
    requires
        forall|i: int| 0 <= i < input.len() ==> !printable(#[trigger] input[i]),
    ensures
        scanned(input, cfg).unique == Seq::<Seq<u8>>::empty(),
        after_bytes(initial_state(), input, cfg).unique == Seq::<Seq<u8>>::empty(),
        after_bytes(initial_state(), input, cfg).pending == Seq::<u8>::empty(),
    decreases input.len(),
{
    if input.len() > 0 {
        let front = input.drop_last();
        assert forall|i: int| 0 <= i < front.len() implies !printable(#[trigger] front[i]) by {
            assert(front[i] == input[i]);
        }
        lemma_no_text_no_strings(front, cfg);
        assert(input.last() == input[input.len() - 1]);
        lemma_empty_run_keeps_nothing(Seq::empty(), cfg.min_length, cfg.max_length);
    }
}

/// Flushing an empty run adds no kept string.
pub proof fn lemma_empty_run_keeps_nothing(
    unique: Seq<Seq<u8>>,
    min_length: usize,
    max_length: usize,
)
    ensures
        flushed_unique(unique, Seq::empty(), min_length, max_length) == unique,
{
    let run = Seq::<u8>::empty();
    let lines = split_lines(run);
    assert(lines =~= seq![run.subrange(0, 0)]);
    assert(lines.drop_last() =~= Seq::<Seq<u8>>::empty());
    assert(trim(lines.last()).len() == 0);
    assert(unique_after(unique, lines.drop_last(), min_length, max_length) == unique);
}

/// A scanner over a stream of bytes that comes in pieces.
pub struct Scanner {
    /// The bounds and the logging switch.
    pub config: ScanConfig,
    /// The run of text-like bytes that is being collected.
    pub text_candidate: Vec<u8>,
    /// The strings kept so far.
    pub unique_strings: StringSet,
    /// The rejected lines, recorded where logging is on.
    pub filtered_by_len: StringSet,
}

impl View for Scanner {
    type V = ScanState;

    open spec fn view(&self) -> ScanState {
        ScanState {
            pending: self.text_candidate@,
            unique: self.unique_strings@,
            rejected: self.filtered_by_len@,
        }
    }
}

impl Scanner {
    /// The scanner's invariant.
    pub open spec fn wf(&self) -> bool {
        state_wf(self@, self.config)
    }

    /// A scanner that has read nothing.
    pub fn new(min_length: usize, max_length: usize, logging: bool) -> (r: Scanner)
        ensures
            r@ == initial_state(),
            r.config == (ScanConfig { min_length, max_length, logging }),
            r.wf(),
    {
        Scanner {
            config: ScanConfig { min_length, max_length, logging },
            text_candidate: Vec::new(),
            unique_strings: StringSet::new(),
            filtered_by_len: StringSet::new(),
        }
    }

    /// Flushes the run that is being collected.
    pub fn flush(&mut self)
        requires
            old(self).wf(),
        ensures
            final(self)@ == after_flush(old(self)@, old(self).config),
            final(self).config == old(self).config,
            final(self).wf(),
    {
        process_text_candidate(
            &mut self.text_candidate,
            &mut self.unique_strings,
            &mut self.filtered_by_len,
            self.config.logging,
            self.config.min_length,
            self.config.max_length,
        );
    }

    /// Reads one byte.
    pub fn push_byte(&mut self, byte: u8)
        requires
            old(self).wf(),
        ensures
            final(self)@ == after_byte(old(self)@, byte, old(self).config),
            final(self).config == old(self).config,
            final(self).wf(),
    {
        if is_printable(byte) {
            self.text_candidate.push(byte);
        } else {
            self.flush();
        }
    }

    /// Reads the next piece of the input.
    pub fn feed(&mut self, chunk: &[u8])
        requires
            old(self).wf(),
        ensures
            final(self)@ == after_bytes(old(self)@, chunk@, old(self).config),
            final(self).config == old(self).config,
            final(self).wf(),
    {
        let ghost start = self@;
        let mut i: usize = 0;
        while i < chunk.len()
            invariant
                i <= chunk.len(),
                self.wf(),
                self.config == old(self).config,
                self@ == after_bytes(start, chunk@.take(i as int), self.config),
            decreases chunk.len() - i,
        {
            proof {
                assert(chunk@.take(i + 1).drop_last() =~= chunk@.take(i as int));
            }
            self.push_byte(chunk[i]);
            i += 1;
        }
        assert(chunk@.take(chunk.len() as int) =~= chunk@);
    }

    /// Ends the input: what is left of a run is flushed.
    pub fn finish(&mut self)
        requires
            old(self).wf(),
        ensures
            final(self)@ == at_end(old(self)@, old(self).config),
            final(self).config == old(self).config,
            final(self).wf(),
    {
        if self.text_candidate.len() > 0 {
            self.flush();
        }
    }
}

/// Scans a whole input.
pub fn scan(input: &[u8], min_length: usize, max_length: usize, logging: bool) -> (r: Scanner)
    ensures
        r.config == (ScanConfig { min_length, max_length, logging }),
        r@ == scanned(input@, r.config),
        r.wf(),
{
    let mut scanner: Scanner = Scanner::new(min_length, max_length, logging);
    scanner.feed(input);
    scanner.finish();
    scanner
}

} // verus!
