//! Hash-based collections of the `hashbrown` crate, seen through their contents.
use vstd::prelude::*;

verus! {

/// A set of intervals.
#[verifier::external_body]
pub(crate) struct IntervalSet {
    inner: hashbrown::HashSet<(u64, u64)>,
}

/// The intervals that an `IntervalSet` holds.
pub uninterp spec fn interval_set_contents(s: IntervalSet) -> Set<(u64, u64)>;

impl IntervalSet {
    /// Relies on `hashbrown::HashSet::new`: a new set holds nothing.
    #[verifier::external_body]
    pub(crate) fn new() -> (r: Self)
        ensures
            interval_set_contents(r) == Set::<(u64, u64)>::empty(),
    {
        IntervalSet { inner: hashbrown::HashSet::new() }
    }

    /// Relies on `hashbrown::HashSet::insert`: afterwards the set holds `x`
    /// and what it held before, nothing else.
    #[verifier::external_body]
    pub(crate) fn insert(&mut self, x: (u64, u64))
        ensures
            interval_set_contents(*final(self)) == interval_set_contents(*old(self)).insert(x),
    {
        self.inner.insert(x);
    }

    /// Relies on `hashbrown::HashSet::iter`: it visits every element of the set.
    #[verifier::external_body]
    pub(crate) fn to_vec(&self) -> (r: Vec<(u64, u64)>)
        ensures
            forall|x: (u64, u64)| r@.contains(x) <==> interval_set_contents(*self).contains(x),
    {
        self.inner.iter().copied().collect()
    }
}

/// A map from chromosome names to positions.
#[verifier::external_body]
pub(crate) struct ChromIndex {
    inner: hashbrown::HashMap<String, usize>,
}

/// The entries that a `ChromIndex` holds, keyed by the characters of the name.
pub uninterp spec fn chrom_index_contents(m: ChromIndex) -> Map<Seq<char>, usize>;

impl ChromIndex {
    /// Relies on `hashbrown::HashMap::new`: a new map holds nothing.
    #[verifier::external_body]
    pub(crate) fn new() -> (r: Self)
        ensures
            chrom_index_contents(r).dom() == Set::<Seq<char>>::empty(),
    {
        ChromIndex { inner: hashbrown::HashMap::new() }
    }

    /// Relies on `hashbrown::HashMap::get`: the value stored under a key
    /// equal to `k`, if any; `String` keys are equal when their characters are.
    #[verifier::external_body]
    pub(crate) fn get(&self, k: &str) -> (r: Option<usize>)
        ensures
            chrom_index_contents(*self).contains_key(k@) ==> r == Some(
                chrom_index_contents(*self)[k@],
            ),
            !chrom_index_contents(*self).contains_key(k@) ==> r is None,
    {
        self.inner.get(k).copied()
    }

    /// Relies on `hashbrown::HashMap::insert`: afterwards `k` maps to `v`,
    /// every other entry unchanged.
    #[verifier::external_body]
    pub(crate) fn insert(&mut self, k: String, v: usize)
        ensures
            chrom_index_contents(*final(self)) == chrom_index_contents(*old(self)).insert(k@, v),
    {
        self.inner.insert(k, v);
    }
}

} // verus!
