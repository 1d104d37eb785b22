//! The case-insensitive order of strings and the stable merge sort by it.

use crate::text::{copy_text, views};
use vstd::prelude::*;

verus! {

/// The lower-case form of an ASCII letter; any other byte is itself.
pub open spec fn lower(c: u8) -> u8 {
    if 65 <= c && c <= 90 {
        (c + 32) as u8
    } else {
        c
    }
}

/// The lower-case form of `c`.
pub fn to_lower(c: u8) -> (r: u8)
    ensures
        r == lower(c),
{
    if 65 <= c && c <= 90 {
        c + 32
    } else {
        c
    }
}

/// Whether every byte is ASCII.
pub open spec fn all_ascii(s: Seq<u8>) -> bool {
    forall|i: int| 0 <= i < s.len() ==> #[trigger] s[i] < 128
}

/// `s` with each ASCII capital in lower case.
pub open spec fn ascii_lowered(s: Seq<u8>) -> Seq<u8> {
    Seq::new(s.len(), |i: int| lower(s[i]))
}

/// The UTF-8 bytes of what `str::to_lowercase` gives for the text that `s`
/// encodes.
pub uninterp spec fn unicode_lowercase(s: Seq<u8>) -> Seq<u8>;

/// Calls `str::to_lowercase` on the text and hands back its bytes. The
/// result depends on the text alone; nothing else is claimed of it.
#[verifier::external_body]
fn lowercase_text(s: &Vec<u8>) -> (r: Vec<u8>)
    ensures
        r@ == unicode_lowercase(s@),
{
    String::from_utf8_lossy(s).to_lowercase().into_bytes()
}

/// The key by which a string is sorted: its lower-case form. For ASCII that
/// is the string with its capitals lowered; for any other text it is what
/// the standard library's lower-casing gives.
pub open spec fn sort_key(s: Seq<u8>) -> Seq<u8> {
    if all_ascii(s) {
        ascii_lowered(s)
    } else {
        unicode_lowercase(s)
    }
}

/// Computes the key by which a string is sorted.
pub fn key_of(s: &Vec<u8>) -> (r: Vec<u8>)
    ensures
        r@ == sort_key(s@),
{
    let mut r: Vec<u8> = Vec::new();
    let mut i: usize = 0;
    while i < s.len()
        invariant
            i <= s.len(),
            r.len() == i,
            forall|k: int| 0 <= k < i ==> #[trigger] s@[k] < 128,
            forall|k: int| 0 <= k < i ==> #[trigger] r@[k] == lower(s@[k]),
        decreases s.len() - i,
    {
        if s[i] >= 128 {
            return lowercase_text(s);
        }
        r.push(to_lower(s[i]));
        i += 1;
    }
    assert(r@ =~= ascii_lowered(s@));
    r
}

/// `a` comes strictly before `b`, byte by byte, a proper prefix coming
/// first.
pub open spec fn bytes_lt(a: Seq<u8>, b: Seq<u8>) -> bool
    decreases a.len(),
{
    if b.len() == 0 {
        false
    } else if a.len() == 0 {
        true
    } else if a[0] != b[0] {
        a[0] < b[0]
    } else {
        bytes_lt(a.drop_first(), b.drop_first())
    }
}

/// Decides whether `a` comes strictly before `b`, byte by byte.
pub fn bytes_less_than(a: &Vec<u8>, b: &Vec<u8>) -> (r: bool)
    ensures
        r == bytes_lt(a@, b@),
{
    let mut i: usize = 0;
    assert(a@.skip(0) =~= a@ && b@.skip(0) =~= b@);
    while i < a.len() && i < b.len()
        invariant
            i <= a.len(),
            i <= b.len(),
            bytes_lt(a@, b@) == bytes_lt(a@.skip(i as int), b@.skip(i as int)),
        decreases a.len() - i,
    {
        proof {
            assert(a@.skip(i as int).drop_first() =~= a@.skip(i + 1));
            assert(b@.skip(i as int).drop_first() =~= b@.skip(i + 1));
        }
        if a[i] != b[i] {
            return a[i] < b[i];
        }
        i += 1;
    }
    i < b.len()
}

/// `a` sorts strictly before `b`: its key comes before the key of `b`.
pub open spec fn key_lt(a: Seq<u8>, b: Seq<u8>) -> bool {
    bytes_lt(sort_key(a), sort_key(b))
}

/// Decides whether `a` sorts strictly before `b`.
pub fn key_less_than(a: &Vec<u8>, b: &Vec<u8>) -> (r: bool)
    ensures
        r == key_lt(a@, b@),
{
    let key_a: Vec<u8> = key_of(a);
    let key_b: Vec<u8> = key_of(b);
    bytes_less_than(&key_a, &key_b)
}

/// Where every neighbour pair of `s` is in order.
pub open spec fn is_sorted(s: Seq<Seq<u8>>) -> bool {
    forall|i: int| 0 <= i < s.len() - 1 ==> !key_lt(#[trigger] s[i + 1], s[i])
}

/// `x` put into `sorted` behind every string that does not sort after it.
pub open spec fn insert_sorted(sorted: Seq<Seq<u8>>, x: Seq<u8>) -> Seq<Seq<u8>>
    decreases sorted.len(),
{
    if sorted.len() == 0 {
        seq![x]
    } else if key_lt(x, sorted.last()) {
        insert_sorted(sorted.drop_last(), x).push(sorted.last())
    } else {
        sorted.push(x)
    }
}

/// The strings of `s` in case-insensitive order; strings with equal keys
/// keep the order they had in `s`.
pub open spec fn sorted_by_key(s: Seq<Seq<u8>>) -> Seq<Seq<u8>>
    decreases s.len(),
{
    if s.len() == 0 {
        Seq::empty()
    } else {
        insert_sorted(sorted_by_key(s.drop_last()), s.last())
    }
}

/// Of two byte strings at most one comes before the other.
pub proof fn lemma_bytes_lt_asymmetric(a: Seq<u8>, b: Seq<u8>)
    requires
        bytes_lt(a, b),
    ensures
        !bytes_lt(b, a),
    decreases a.len(),
{
    if a.len() > 0 && b.len() > 0 && a[0] == b[0] {
        lemma_bytes_lt_asymmetric(a.drop_first(), b.drop_first());
    }
}

/// The order of byte strings is transitive.
pub proof fn lemma_bytes_lt_transitive(a: Seq<u8>, b: Seq<u8>, c: Seq<u8>)
    requires
        bytes_lt(a, b),
        bytes_lt(b, c),
    ensures
        bytes_lt(a, c),
    decreases a.len(),
{
    if a.len() > 0 && b.len() > 0 && c.len() > 0 && a[0] == b[0] && b[0] == c[0] {
        lemma_bytes_lt_transitive(a.drop_first(), b.drop_first(), c.drop_first());
    }
}

/// Not coming after is transitive too.
pub proof fn lemma_bytes_le_transitive(a: Seq<u8>, b: Seq<u8>, c: Seq<u8>)
    requires
        !bytes_lt(b, a),
        !bytes_lt(c, b),
    ensures
        !bytes_lt(c, a),
    decreases a.len(),
{
    if a.len() > 0 && b.len() > 0 && c.len() > 0 && a[0] == b[0] && b[0] == c[0] {
        lemma_bytes_le_transitive(a.drop_first(), b.drop_first(), c.drop_first());
    }
}

/// Of two strings at most one sorts before the other.
pub proof fn lemma_key_lt_asymmetric(a: Seq<u8>, b: Seq<u8>)
    requires
        key_lt(a, b),
    ensures
        !key_lt(b, a),
{
    lemma_bytes_lt_asymmetric(sort_key(a), sort_key(b));
}

/// Sorted insertion keeps a sorted sequence sorted, adds one string and
/// removes none.
pub proof fn lemma_insert_sorted(s: Seq<Seq<u8>>, x: Seq<u8>)
    ensures
        insert_sorted(s, x).len() == s.len() + 1,
        insert_sorted(s, x).to_multiset() == s.to_multiset().insert(x),
        is_sorted(s) ==> is_sorted(insert_sorted(s, x)),
        insert_sorted(s, x).last() == x || (s.len() > 0 && insert_sorted(s, x).last() == s.last()
            && key_lt(x, s.last())),
    decreases s.len(),
{
    broadcast use vstd::seq_lib::group_to_multiset_ensures;

    if s.len() == 0 {
        assert(seq![x] =~= s.push(x));
    } else if key_lt(x, s.last()) {
        let front = s.drop_last();
        let inner = insert_sorted(front, x);
        lemma_insert_sorted(front, x);
        assert(front.push(s.last()) =~= s);
        assert(inner.push(s.last()).to_multiset() =~= s.to_multiset().insert(x));
        if is_sorted(s) {
            assert(is_sorted(front)) by {
                assert forall|i: int| 0 <= i < front.len() - 1 implies !key_lt(
                    #[trigger] front[i + 1],
                    front[i],
                ) by {
                    assert(front[i + 1] == s[i + 1]);
                }
            }
            let r = inner.push(s.last());
            assert forall|i: int| 0 <= i < r.len() - 1 implies !key_lt(#[trigger] r[i + 1], r[i]) by {
                if i + 1 < inner.len() {
                    assert(r[i + 1] == inner[i + 1]);
                } else {
                    if inner.last() == x {
                        lemma_key_lt_asymmetric(x, s.last());
                    } else {
                        assert(s[front.len() - 1 + 1] == s.last());
                    }
                }
            }
        }
    } else {
        if is_sorted(s) {
            let r = s.push(x);
            assert forall|i: int| 0 <= i < r.len() - 1 implies !key_lt(#[trigger] r[i + 1], r[i]) by {
                if i + 1 < s.len() {
                    assert(r[i + 1] == s[i + 1]);
                }
            }
        }
    }
}

/// The sorted sequence is in order and holds exactly the strings of the
/// input, each as often as the input does.
pub proof fn lemma_sorted_by_key(s: Seq<Seq<u8>>)
    ensures
        is_sorted(sorted_by_key(s)),
        sorted_by_key(s).len() == s.len(),
        sorted_by_key(s).to_multiset() == s.to_multiset(),
    decreases s.len(),
{
    broadcast use vstd::seq_lib::group_to_multiset_ensures;

    if s.len() == 0 {
        assert(sorted_by_key(s) =~= s);
    } else {
        lemma_sorted_by_key(s.drop_last());
        lemma_insert_sorted(sorted_by_key(s.drop_last()), s.last());
        assert(s.drop_last().push(s.last()) =~= s);
    }
}

/// The order is transitive.
pub proof fn lemma_key_lt_transitive(a: Seq<u8>, b: Seq<u8>, c: Seq<u8>)
    requires
        key_lt(a, b),
        key_lt(b, c),
    ensures
        key_lt(a, c),
{
    lemma_bytes_lt_transitive(sort_key(a), sort_key(b), sort_key(c));
}

/// Not sorting after is transitive too: where `b` does not sort before `a`,
/// nor `c` before `b`, `c` does not sort before `a`.
pub proof fn lemma_key_le_transitive(a: Seq<u8>, b: Seq<u8>, c: Seq<u8>)
    requires
        !key_lt(b, a),
        !key_lt(c, b),
    ensures
        !key_lt(c, a),
{
    lemma_bytes_le_transitive(sort_key(a), sort_key(b), sort_key(c));
}

/// Two sequences merged from their ends: the later of the two last strings
/// comes last, and on equal keys that is the one of `b`.
pub open spec fn merged(a: Seq<Seq<u8>>, b: Seq<Seq<u8>>) -> Seq<Seq<u8>>
    decreases a.len() + b.len(),
{
    if a.len() == 0 {
        b
    } else if b.len() == 0 {
        a
    } else if key_lt(b.last(), a.last()) {
        merged(a.drop_last(), b).push(a.last())
    } else {
        merged(a, b.drop_last()).push(b.last())
    }
}

/// Merging with a sequence into which `x` was inserted is inserting `x`
/// into the merged sequence.
pub proof fn lemma_merge_insert(a: Seq<Seq<u8>>, b: Seq<Seq<u8>>, x: Seq<u8>)
    ensures
        merged(a, insert_sorted(b, x)) == insert_sorted(merged(a, b), x),
    decreases a.len() + b.len(),
{
    let bx = insert_sorted(b, x);
    if a.len() == 0 {
    } else if b.len() == 0 {
        assert(bx =~= seq![x]);
        assert(bx.drop_last() =~= b);
        if key_lt(x, a.last()) {
            lemma_merge_insert(a.drop_last(), b, x);
            assert(merged(a.drop_last(), b) =~= a.drop_last());
        }
    } else {
        let al = a.last();
        let bl = b.last();
        if key_lt(x, bl) {
            assert(bx.drop_last() =~= insert_sorted(b.drop_last(), x));
            assert(bx.last() == bl);
            if key_lt(bl, al) {
                lemma_merge_insert(a.drop_last(), b, x);
                lemma_key_lt_transitive(x, bl, al);
                assert(merged(a, b).drop_last() =~= merged(a.drop_last(), b));
            } else {
                lemma_merge_insert(a, b.drop_last(), x);
                assert(merged(a, b).drop_last() =~= merged(a, b.drop_last()));
            }
        } else {
            assert(bx.drop_last() =~= b);
            assert(bx.last() == x);
            if key_lt(x, al) {
                if !key_lt(bl, al) {
                    lemma_key_le_transitive(al, bl, x);
                }
                lemma_merge_insert(a.drop_last(), b, x);
                assert(merged(a, b).drop_last() =~= merged(a.drop_last(), b));
            }
        }
    }
}

/// Merging the sorted halves of a sequence gives the sorted sequence.
pub proof fn lemma_merge_sorted(a: Seq<Seq<u8>>, b: Seq<Seq<u8>>)
    ensures
        merged(sorted_by_key(a), sorted_by_key(b)) == sorted_by_key(a + b),
    decreases b.len(),
{
    if b.len() == 0 {
        assert(a + b =~= a);
        assert(merged(sorted_by_key(a), sorted_by_key(b)) =~= sorted_by_key(a));
    } else {
        lemma_merge_sorted(a, b.drop_last());
        lemma_merge_insert(sorted_by_key(a), sorted_by_key(b.drop_last()), b.last());
        assert((a + b).drop_last() =~= a + b.drop_last());
        assert((a + b).last() == b.last());
    }
}

/// Merges two sequences from their ends.
pub fn merge_runs(left: &Vec<Vec<u8>>, right: &Vec<Vec<u8>>) -> (r: Vec<Vec<u8>>)
    ensures
        views(r@) == merged(views(left@), views(right@)),
{
    let ghost a = views(left@);
    let ghost b = views(right@);
    let mut back: Vec<Vec<u8>> = Vec::new();
    let mut i: usize = left.len();
    let mut j: usize = right.len();
    proof {
        assert(a.take(i as int) =~= a);
        assert(b.take(j as int) =~= b);
        assert(merged(a, b) + views(back@).reverse() =~= merged(a, b));
    }
    while i > 0 && j > 0
        invariant
            a == views(left@),
            b == views(right@),
            i <= left.len(),
            j <= right.len(),
            merged(a.take(i as int), b.take(j as int)) + views(back@).reverse() == merged(a, b),
        decreases i + j,
    {
        let ghost old_back = views(back@);
        let ghost before = merged(a.take(i as int), b.take(j as int));
        proof {
            assert(a.take(i as int).last() == left[i - 1]@);
            assert(b.take(j as int).last() == right[j - 1]@);
            assert(a.take(i as int).drop_last() =~= a.take(i - 1));
            assert(b.take(j as int).drop_last() =~= b.take(j - 1));
        }
        if key_less_than(&right[j - 1], &left[i - 1]) {
            back.push(copy_text(&left[i - 1]));
            i -= 1;
        } else {
            back.push(copy_text(&right[j - 1]));
            j -= 1;
        }
        proof {
            let inner = merged(a.take(i as int), b.take(j as int));
            let x = before.last();
            assert(before == inner.push(x));
            assert(views(back@) =~= old_back.push(x));
            assert(views(back@).reverse() =~= seq![x] + old_back.reverse());
            assert(inner + (seq![x] + old_back.reverse()) =~= inner.push(x) + old_back.reverse());
        }
    }
    let ghost front = merged(a.take(i as int), b.take(j as int));
    let ghost target = front + views(back@).reverse();
    let mut r: Vec<Vec<u8>> = Vec::new();
    let mut k: usize = 0;
    while k < i
        invariant
            a == views(left@),
            k <= i <= left.len(),
            views(r@) == a.take(k as int),
        decreases i - k,
    {
        let ghost before = views(r@);
        r.push(copy_text(&left[k]));
        assert(views(r@) =~= before.push(left[k as int]@));
        k += 1;
        assert(views(r@) =~= a.take(k as int));
    }
    let mut k: usize = 0;
    while k < j
        invariant
            b == views(right@),
            k <= j <= right.len(),
            views(r@) == a.take(i as int) + b.take(k as int),
        decreases j - k,
    {
        let ghost before = views(r@);
        r.push(copy_text(&right[k]));
        assert(views(r@) =~= before.push(right[k as int]@));
        k += 1;
        assert(views(r@) =~= a.take(i as int) + b.take(k as int));
    }
    assert(views(r@) =~= front);
    let n: usize = back.len();
    let mut k: usize = n;
    assert(target.take(front.len() as int) =~= front);
    while k > 0
        invariant
            n == back.len(),
            k <= n,
            target == front + views(back@).reverse(),
            views(r@) == target.take(front.len() + n - k),
        decreases k,
    {
        let ghost before = views(r@);
        r.push(copy_text(&back[k - 1]));
        proof {
            assert(views(back@).reverse()[n - k] == views(back@)[k - 1]);
            assert(target[front.len() + n - k] == back[k - 1]@);
            assert(views(r@) =~= before.push(back[k - 1]@));
            assert(views(r@) =~= target.take(front.len() + n - k + 1));
        }
        k -= 1;
    }
    assert(target.take(front.len() + n) =~= target);
    r
}

/// Sorts `strings[lo..hi]` by splitting it in two, sorting each half and
/// merging them.
pub fn sort_range(strings: &Vec<Vec<u8>>, lo: usize, hi: usize) -> (r: Vec<Vec<u8>>)
    requires
        lo <= hi <= strings.len(),
    ensures
        views(r@) == sorted_by_key(views(strings@).subrange(lo as int, hi as int)),
    decreases hi - lo,
{
    let ghost part = views(strings@).subrange(lo as int, hi as int);
    if hi - lo == 0 {
        let r: Vec<Vec<u8>> = Vec::new();
        assert(views(r@) =~= sorted_by_key(part));
        r
    } else if hi - lo == 1 {
        let mut r: Vec<Vec<u8>> = Vec::new();
        r.push(copy_text(&strings[lo]));
        proof {
            assert(part.drop_last() =~= Seq::<Seq<u8>>::empty());
            assert(sorted_by_key(part.drop_last()) =~= Seq::<Seq<u8>>::empty());
            assert(part.last() == strings[lo as int]@);
            assert(views(r@) =~= seq![strings[lo as int]@]);
        }
        r
    } else {
        let mid: usize = lo + (hi - lo) / 2;
        let left: Vec<Vec<u8>> = sort_range(strings, lo, mid);
        let right: Vec<Vec<u8>> = sort_range(strings, mid, hi);
        proof {
            let all = views(strings@);
            lemma_merge_sorted(all.subrange(lo as int, mid as int), all.subrange(mid as int, hi as int));
            assert(all.subrange(lo as int, mid as int) + all.subrange(mid as int, hi as int)
                =~= part);
        }
        merge_runs(&left, &right)
    }
}

/// Sorts strings case-insensitively by merging; strings with equal keys keep
/// their order.
pub fn sort_by_key(strings: &Vec<Vec<u8>>) -> (sorted: Vec<Vec<u8>>)
    ensures
        views(sorted@) == sorted_by_key(views(strings@)),
        is_sorted(views(sorted@)),
        sorted.len() == strings.len(),
        views(sorted@).to_multiset() == views(strings@).to_multiset(),
{
    let sorted: Vec<Vec<u8>> = sort_range(strings, 0, strings.len());
    proof {
        assert(views(strings@).subrange(0, strings.len() as int) =~= views(strings@));
        lemma_sorted_by_key(views(strings@));
        assert(views(sorted@).len() == sorted.len());
    }
    sorted
}

} // verus!
