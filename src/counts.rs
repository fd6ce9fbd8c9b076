//! Counters keyed by an integer, for the histogram and seat-count facets.
use fxhash::FxHashMap;
use itertools::Itertools;
use vstd::prelude::*;

verus! {

/// A map from a key to how many times it was counted.
#[verifier::external_body]
pub struct CountMap {
    inner: FxHashMap<u32, u64>,
}

/// What a counter map holds: each counted key with its count.
pub uninterp spec fn counts_of(m: CountMap) -> Map<u32, nat>;

impl CountMap {
    /// Relies on `FxHashMap::default`: a new map has no entries.
    #[verifier::external_body]
    pub fn new() -> (r: CountMap)
        ensures
            counts_of(r) =~= Map::empty(),
    {
        CountMap { inner: FxHashMap::default() }
    }

    /// Relies on `HashMap::get`: the count stored under `key`, if any.
    #[verifier::external_body]
    fn get(&self, key: u32) -> (r: Option<u64>)
        ensures
            match r {
                Some(c) => counts_of(*self).contains_key(key) && counts_of(*self)[key] == c,
                None => !counts_of(*self).contains_key(key),
            },
    {
        self.inner.get(&key).copied()
    }

    /// Relies on `HashMap::insert`: stores `count` under `key`, replacing
    /// what was there.
    #[verifier::external_body]
    fn insert(&mut self, key: u32, count: u64)
        ensures
            counts_of(*final(self)) == counts_of(*old(self)).insert(key, count as nat),
    {
        self.inner.insert(key, count);
    }

    /// Relies on `HashMap::iter` and itertools' `sorted`: every entry once,
    /// in ascending order of key.
    #[verifier::external_body]
    pub fn sorted_entries(&self) -> (r: Vec<(u32, u64)>)
        ensures
            forall|i: int, j: int| 0 <= i < j < r@.len() ==> r@[i].0 < r@[j].0,
            forall|i: int|
                0 <= i < r@.len() ==> counts_of(*self).contains_key(#[trigger] r@[i].0)
                    && counts_of(*self)[r@[i].0] == r@[i].1,
            forall|k: u32|
                counts_of(*self).contains_key(k) ==> exists|i: int|
                    0 <= i < r@.len() && #[trigger] r@[i].0 == k,
    {
        self.inner.iter().map(|(k, c)| (*k, *c)).sorted().collect()
    }

    /// Adds one to the count of `key`, which starts at one.
    pub fn increment(&mut self, key: u32)
        requires
            counts_of(*old(self)).contains_key(key) ==> counts_of(*old(self))[key] < u64::MAX,
        ensures
            counts_of(*final(self)) == counts_of(*old(self)).insert(
                key,
                if counts_of(*old(self)).contains_key(key) {
                    counts_of(*old(self))[key] + 1
                } else {
                    1
                },
            ),
    {
        match self.get(key) {
            Some(c) => self.insert(key, c + 1),
            None => self.insert(key, 1),
        }
    }
}

} // verus!
