//! The index from rental duration in whole days to the offers of that
//! duration.
use std::collections::HashMap;
use std::collections::HashSet;
use vstd::prelude::*;
use crate::models::{Offer, offer_days, offer_valid, number_of_days};

verus! {

broadcast use vstd::std_specs::hash::group_hash_axioms;

/// Offers grouped by duration in whole days, each group in order of
/// registration.
pub struct NumberOfDaysIndex {
    map: HashMap<u64, Vec<u32>>,
}

impl NumberOfDaysIndex {
    /// The offers registered with a duration of `days`.
    pub closed spec fn bucket(&self, days: int) -> Seq<u32> {
        if 0 <= days <= u64::MAX && self.map@.contains_key(days as u64) {
            self.map@[days as u64]@
        } else {
            Seq::empty()
        }
    }

    /// An index with no offers.
    pub fn new() -> (r: Self)
        ensures
            forall|d: int| #[trigger] r.bucket(d) == Seq::<u32>::empty(),
    {
        NumberOfDaysIndex { map: HashMap::new() }
    }

    /// Keeps those of `offers`, in order, that are registered with a
    /// duration of `days`.
    pub fn filter_offers(&self, days: u64, offers: Vec<u32>) -> (r: Vec<u32>)
        ensures
            r@ == offers@.filter(|x: u32| self.bucket(days as int).contains(x)),
    {
        let mut set: HashSet<u32> = HashSet::new();
        match self.map.get(&days) {
            Some(list) => {
                let mut i: usize = 0;
                while i < list.len()
                    invariant
                        list@ == self.bucket(days as int),
                        i <= list@.len(),
                        forall|x: u32|
                            set@.contains(x) <==> exists|j: int| 0 <= j < i && #[trigger] list@[j] == x,
                    decreases list@.len() - i,
                {
                    set.insert(list[i]);
                    i = i + 1;
                    assert forall|x: u32|
                        set@.contains(x) <==> exists|j: int| 0 <= j < i && #[trigger] list@[j] == x by {
                        if x == list@[i - 1] {
                            assert(list@[i - 1] == x);
                        }
                    }
                }
            },
            None => {},
        }
        let ghost pred = |x: u32| self.bucket(days as int).contains(x);
        let mut out: Vec<u32> = Vec::new();
        let mut k: usize = 0;
        while k < offers.len()
            invariant
                k <= offers@.len(),
                forall|x: u32| set@.contains(x) <==> self.bucket(days as int).contains(x),
                pred == (|x: u32| self.bucket(days as int).contains(x)),
                out@ == offers@.subrange(0, k as int).filter(pred),
            decreases offers@.len() - k,
        {
            let x = offers[k];
            let ghost prev = out@;
            if set.contains(&x) {
                out.push(x);
            }
            proof {
                let s = offers@.subrange(0, k + 1);
                assert(s.drop_last() =~= offers@.subrange(0, k as int));
                assert(s.last() == x);
                reveal(Seq::filter);
                assert(s.filter(pred) == if pred(x) { prev.push(x) } else { prev });
            }
            k = k + 1;
        }
        assert(offers@.subrange(0, k as int) =~= offers@);
        out
    }

    /// Registers an offer under its duration in whole days.
    pub fn index_offer(&mut self, offer: &Offer)
        requires
            offer_valid(*offer),
        ensures
            forall|d: int|
                #[trigger] final(self).bucket(d) == if d == offer_days(*offer) {
                    old(self).bucket(d).push(offer.idx)
                } else {
                    old(self).bucket(d)
                },
    {
        let days = number_of_days(offer);
        let mut list = match self.map.remove(&days) {
            Some(list) => list,
            None => Vec::new(),
        };
        list.push(offer.idx);
        self.map.insert(days, list);
    }

    /// Removes every offer.
    pub fn clear(&mut self)
        ensures
            forall|d: int| #[trigger] final(self).bucket(d) == Seq::<u32>::empty(),
    {
        self.map.clear();
    }
}

} // verus!
