//! A set of strings that remembers the order in which they first came.

use crate::text::{copy_text, views};
use vstd::prelude::*;

verus! {

/// `set` with `x` added at the end, unless it is there already.
pub open spec fn with_string(set: Seq<Seq<u8>>, x: Seq<u8>) -> Seq<Seq<u8>> {
    if set.contains(x) {
        set
    } else {
        set.push(x)
    }
}

/// Adding a string keeps a sequence free of repetitions.
pub proof fn lemma_with_string_distinct(set: Seq<Seq<u8>>, x: Seq<u8>)
    requires
        set.no_duplicates(),
    ensures
        with_string(set, x).no_duplicates(),
        with_string(set, x).contains(x),
        forall|y: Seq<u8>| set.contains(y) ==> with_string(set, x).contains(y),
{
    if !set.contains(x) {
        let r = set.push(x);
        assert(r[set.len() as int] == x);
        assert forall|y: Seq<u8>| set.contains(y) implies r.contains(y) by {
            let i = choose|i: int| 0 <= i < set.len() && set[i] == y;
            assert(r[i] == y);
        }
    }
}

/// Whether two strings are equal.
pub fn same_text(a: &Vec<u8>, b: &Vec<u8>) -> (r: bool)
    ensures
        r == (a@ == b@),
{
    if a.len() != b.len() {
        return false;
    }
    let mut i: usize = 0;
    while i < a.len()
        invariant
            a.len() == b.len(),
            i <= a.len(),
            forall|k: int| 0 <= k < i ==> a@[k] == b@[k],
        decreases a.len() - i,
    {
        if a[i] != b[i] {
            return false;
        }
        i += 1;
    }
    assert(a@ =~= b@);
    true
}

/// A collection in which no string occurs twice.
pub struct StringSet {
    items: Vec<Vec<u8>>,
}

impl View for StringSet {
    type V = Seq<Seq<u8>>;

    /// The strings, in the order in which each was first inserted.
    closed spec fn view(&self) -> Seq<Seq<u8>> {
        views(self.items@)
    }
}

impl StringSet {
    /// No string occurs twice.
    pub open spec fn wf(&self) -> bool {
        self@.no_duplicates()
    }

    /// The strings as a mathematical set.
    pub open spec fn contents(&self) -> Set<Seq<u8>> {
        self@.to_set()
    }

    /// The empty set.
    pub fn new() -> (r: StringSet)
        ensures
            r@ == Seq::<Seq<u8>>::empty(),
            r.wf(),
    {
        let r = StringSet { items: Vec::new() };
        assert(r@ =~= Seq::<Seq<u8>>::empty());
        r
    }

    /// The number of strings.
    pub fn len(&self) -> (n: usize)
        ensures
            n == self@.len(),
    {
        self.items.len()
    }

    /// Whether there is no string.
    pub fn is_empty(&self) -> (r: bool)
        ensures
            r == (self@.len() == 0),
    {
        self.items.len() == 0
    }

    /// Whether `s` is in the set.
    pub fn contains(&self, s: &Vec<u8>) -> (r: bool)
        ensures
            r == self@.contains(s@),
    {
        let mut i: usize = 0;
        while i < self.items.len()
            invariant
                i <= self.items.len(),
                forall|k: int| 0 <= k < i ==> self@[k] != s@,
            decreases self.items.len() - i,
        {
            if same_text(&self.items[i], s) {
                assert(self@[i as int] == s@);
                return true;
            }
            i += 1;
        }
        false
    }

    /// Adds `s` unless it is there already, and says whether it was added.
    pub fn insert(&mut self, s: Vec<u8>) -> (added: bool)
        requires
            old(self).wf(),
        ensures
            final(self)@ == with_string(old(self)@, s@),
            final(self).wf(),
            added == !old(self)@.contains(s@),
    {
        proof {
            lemma_with_string_distinct(self@, s@);
        }
        if self.contains(&s) {
            false
        } else {
            let ghost before = self@;
            self.items.push(s);
            assert(self@ =~= before.push(s@));
            true
        }
    }

    /// The strings, in the order in which each was first inserted.
    pub fn to_vec(&self) -> (r: Vec<Vec<u8>>)
        ensures
            views(r@) == self@,
    {
        let mut r: Vec<Vec<u8>> = Vec::new();
        let mut i: usize = 0;
        while i < self.items.len()
            invariant
                i <= self.items.len(),
                views(r@) == self@.take(i as int),
            decreases self.items.len() - i,
        {
            let ghost before = views(r@);
            r.push(copy_text(&self.items[i]));
            assert(views(r@) =~= before.push(self@[i as int]));
            i += 1;
            assert(views(r@) =~= self@.take(i as int));
        }
        assert(self@.take(self.items.len() as int) =~= self@);
        r
    }
}

} // verus!
