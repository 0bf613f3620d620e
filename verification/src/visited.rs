//! The texts of all states that were produced so far, so that none is queued
//! a second time.
use vstd::prelude::*;
use vstd::hash_set::StringHashSet;

verus! {

/// A set of pattern texts.
pub struct Visited {
    seen: StringHashSet,
}

impl View for Visited {
    type V = Set<Seq<char>>;

    closed spec fn view(&self) -> Set<Seq<char>> {
        self.seen@
    }
}

impl Visited {
    /// The empty set.
    pub fn new() -> (r: Visited)
        ensures
            r@ == Set::<Seq<char>>::empty(),
    {
        Visited { seen: StringHashSet::new() }
    }

    /// Whether `pattern` is in the set.
    pub fn contains(&self, pattern: &str) -> (b: bool)
        ensures
            b == self@.contains(pattern@),
    {
        self.seen.contains(pattern)
    }

    /// Adds `pattern` to the set; says whether it was new.
    pub fn insert(&mut self, pattern: String) -> (fresh: bool)
        ensures
            final(self)@ == old(self)@.insert(pattern@),
            fresh == !old(self)@.contains(pattern@),
    {
        self.seen.insert(pattern)
    }

    /// Number of texts in the set.
    pub fn len(&self) -> (n: usize)
        ensures
            n == self@.len(),
    {
        self.seen.len()
    }
}

} // verus!
