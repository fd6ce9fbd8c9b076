//! The offer store, its indexes, and the query engine over them.
use vstd::prelude::*;
use crate::counts::{CountMap, counts_of};
use crate::facets::{
    Dimension, bucket, car_type_total, count_kept, evaluate, facet_tally, bucket_start,
    kilometer_ranges_match, kilometer_ranges_of, lemma_bucket_bounds, lemma_count_kept_bounded,
    lemma_tally_bounded, price_ranges_match, price_ranges_of, satisfies_all, seat_counts_match,
    seat_counts_of, tally, vollkasko_total,
};
use crate::models::{
    CarType, CarTypeCount, FreeKilometerRange, GetReponseBodyModel, Offer, PriceRange, QueryError,
    RequestOffer, ResponseOffer, SeatCount, VollKaskoCount, offer_days, offer_valid,
};
use crate::ordering::{lemma_sort_by_price, page_of, sort_by_price, sort_offers};
use crate::number_of_days::NumberOfDaysIndex;
use crate::region_hierarchy::{
    Region, RegionTree, REGION_COUNT, description_valid, in_description, subtree_offers,
    table_matches,
};

verus! {

/// The offers in order of insertion; an offer's position is its `idx`.
pub struct DenseStore {
    pub all: Vec<Offer>,
}

impl DenseStore {
    /// An empty store, with room reserved for many offers.
    pub fn new() -> (r: Self)
        ensures
            r.all@.len() == 0,
    {
        DenseStore { all: Vec::with_capacity(1 << 25) }
    }

    /// Appends an offer.
    pub fn insert(&mut self, offer: Offer)
        ensures
            final(self).all@ == old(self).all@.push(offer),
    {
        self.all.push(offer);
    }
}

/// Why an offer was not stored.
#[derive(Clone, Copy, Debug, PartialEq, Eq, Structural)]
pub enum InsertError {
    /// The offer does not end after it starts.
    InvalidTimeRange,
    /// The offer's region id is not in the hierarchy.
    UnknownRegion,
    /// The store holds as many offers as a 32-bit index can address.
    StoreFull,
}

/// The offers, the region index and the duration index, kept consistent.
pub struct DBManager {
    pub region_tree: RegionTree,
    pub days_index: NumberOfDaysIndex,
    pub dense_store: DenseStore,
}

impl DBManager {
    /// The stored offers.
    pub open spec fn offers(&self) -> Seq<Offer> {
        self.dense_store.all@
    }

    /// Every stored offer carries its position, a valid time window and a
    /// known region, and the duration index holds exactly the stored offers,
    /// each under its duration.
    pub open spec fn wf(&self) -> bool {
        &&& self.region_tree.wf()
        &&& self.offers().len() <= u32::MAX
        &&& forall|i: int|
            0 <= i < self.offers().len() ==> {
                &&& (#[trigger] self.offers()[i]).idx == i
                &&& offer_valid(self.offers()[i])
                &&& (self.offers()[i].region_id as int) < REGION_COUNT
            }
        &&& forall|d: int, x: u32|
            #[trigger] self.days_index.bucket(d).contains(x) <==> (x < self.offers().len()
                && offer_days(self.offers()[x as int]) == d)
        &&& self.registered_once()
    }

    /// Each stored offer is registered exactly once, at its own region, and
    /// every registered index is a stored offer.
    pub open spec fn registered_once(&self) -> bool {
        &&& forall|r: int, k: int|
            0 <= r < REGION_COUNT && 0 <= k < self.region_tree.regions@[r].offers@.len() ==> {
                let x = #[trigger] self.region_tree.regions@[r].offers@[k];
                &&& x < self.offers().len()
                &&& self.offers()[x as int].region_id == r
            }
        &&& forall|i: int|
            0 <= i < self.offers().len() ==> #[trigger] self.region_tree.regions@[self.offers()[i].region_id as int].offers@.contains(
                i as u32,
            )
        &&& forall|r: int, k1: int, k2: int|
            0 <= r < REGION_COUNT && 0 <= k1 < k2 < self.region_tree.regions@[r].offers@.len()
                ==> #[trigger] self.region_tree.regions@[r].offers@[k1]
                != #[trigger] self.region_tree.regions@[r].offers@[k2]
    }

    /// Nothing is stored and no offer is registered anywhere.
    pub open spec fn is_cleared(&self) -> bool {
        &&& self.offers().len() == 0
        &&& self.region_tree.is_empty()
        &&& forall|d: int| #[trigger] self.days_index.bucket(d) == Seq::<u32>::empty()
    }

    /// The two hold the same offers, registered in the same way, under the
    /// same hierarchy.
    pub open spec fn same_contents(&self, other: &DBManager) -> bool {
        &&& self.offers() == other.offers()
        &&& self.region_tree.same_topology(&other.region_tree)
        &&& forall|r: int|
            0 <= r < self.region_tree.regions@.len() ==> (#[trigger] self.region_tree.regions@[r]).offers@
                == other.region_tree.regions@[r].offers@
        &&& forall|d: int| #[trigger] self.days_index.bucket(d) == other.days_index.bucket(d)
    }

    /// An empty store over the hierarchy that `root` describes.
    pub fn new(root: &Region) -> (r: Self)
        requires
            description_valid(*root),
        ensures
            r.wf(),
            r.is_cleared(),
            table_matches(r.region_tree.regions@, *root),
            forall|q: int|
                0 <= q < REGION_COUNT && !in_description(*root, q)
                    ==> (#[trigger] r.region_tree.regions@[q]).sub_regions@.len() == 0,
    {
        let r = DBManager {
            region_tree: RegionTree::populate_with_regions(root),
            days_index: NumberOfDaysIndex::new(),
            dense_store: DenseStore::new(),
        };
        r
    }

    /// Stores an offer under the next index, which it returns, and registers
    /// it at its region and under its duration.
    pub fn insert_offer(&mut self, offer: Offer) -> (r: Result<u32, InsertError>)
        requires
            old(self).wf(),
        ensures
            final(self).wf(),
            final(self).region_tree.same_topology(&old(self).region_tree),
            !offer_valid(offer) ==> r == Err::<u32, InsertError>(InsertError::InvalidTimeRange),
            offer_valid(offer) && offer.region_id as int >= REGION_COUNT ==> r == Err::<u32, InsertError>(
                InsertError::UnknownRegion,
            ),
            offer_valid(offer) && (offer.region_id as int) < REGION_COUNT && old(self).offers().len()
                == u32::MAX ==> r == Err::<u32, InsertError>(InsertError::StoreFull),
            offer_valid(offer) && (offer.region_id as int) < REGION_COUNT && old(self).offers().len()
                < u32::MAX ==> r is Ok,
            r is Err ==> final(self).same_contents(old(self)),
            r matches Ok(idx) ==> {
                &&& idx == old(self).offers().len()
                &&& final(self).offers() == old(self).offers().push(Offer { idx, ..offer })
                &&& final(self).region_tree.regions@[offer.region_id as int].offers@
                    == old(self).region_tree.regions@[offer.region_id as int].offers@.push(idx)
                &&& forall|q: int|
                    0 <= q < REGION_COUNT && q != offer.region_id
                        ==> (#[trigger] final(self).region_tree.regions@[q]).offers@
                        == old(self).region_tree.regions@[q].offers@
            },
    {
        if offer.start_date >= offer.end_date {
            return Err(InsertError::InvalidTimeRange);
        }
        if offer.region_id as usize >= REGION_COUNT {
            return Err(InsertError::UnknownRegion);
        }
        let len = self.dense_store.all.len();
        if len >= u32::MAX as usize {
            return Err(InsertError::StoreFull);
        }
        let idx = len as u32;
        let mut o = offer;
        o.idx = idx;
        let ghost old_self = *self;
        self.days_index.index_offer(&o);
        self.region_tree.insert_offer(o.region_id, idx);
        self.dense_store.insert(o);
        proof {
            let s = self.offers();
            assert forall|d: int, x: u32|
                #[trigger] self.days_index.bucket(d).contains(x) <==> (x < s.len()
                    && offer_days(s[x as int]) == d) by {
                let ob = old_self.days_index.bucket(d);
                if d == offer_days(o) {
                    assert(self.days_index.bucket(d) == ob.push(idx));
                    if ob.push(idx).contains(x) && x != idx {
                        let j = choose|j: int| 0 <= j < ob.len() + 1 && ob.push(idx)[j] == x;
                        assert(ob[j] == x);
                    }
                    if ob.contains(x) {
                        let j = choose|j: int| 0 <= j < ob.len() && ob[j] == x;
                        assert(ob.push(idx)[j] == x);
                    }
                    assert(ob.push(idx)[ob.len() as int] == idx);
                } else {
                    assert(self.days_index.bucket(d) == ob);
                }
            }
            assert(o == Offer { idx, ..offer });
            let ro = old_self.region_tree.regions@;
            let rn = self.region_tree.regions@;
            let g = o.region_id as int;
            assert(rn[g].offers@ == ro[g].offers@.push(idx));
            assert forall|r: int, k: int|
                0 <= r < REGION_COUNT && 0 <= k < rn[r].offers@.len() implies {
                    let x = #[trigger] rn[r].offers@[k];
                    &&& x < s.len()
                    &&& s[x as int].region_id == r
                } by {
                if r == g && k == ro[g].offers@.len() {
                    assert(rn[r].offers@[k] == idx);
                } else {
                    assert(rn[r].offers@[k] == ro[r].offers@[k]);
                }
            }
            assert forall|i: int| 0 <= i < s.len() implies #[trigger] rn[s[i].region_id as int].offers@.contains(i as u32) by {
                if i == idx {
                    assert(rn[g].offers@[ro[g].offers@.len() as int] == idx);
                } else {
                    let r = s[i].region_id as int;
                    assert(old_self.offers()[i] == s[i]);
                    assert(ro[r].offers@.contains(i as u32));
                    let k = choose|k: int| 0 <= k < ro[r].offers@.len() && ro[r].offers@[k] == i as u32;
                    assert(rn[r].offers@[k] == i as u32);
                }
            }
            assert forall|r: int, k1: int, k2: int|
                0 <= r < REGION_COUNT && 0 <= k1 < k2 < rn[r].offers@.len() implies #[trigger] rn[r].offers@[k1]
                    != #[trigger] rn[r].offers@[k2] by {
                if r == g && k2 == ro[g].offers@.len() {
                    assert(rn[r].offers@[k1] == ro[r].offers@[k1]);
                    assert(ro[r].offers@[k1] < old_self.offers().len());
                } else {
                    assert(rn[r].offers@[k1] == ro[r].offers@[k1]);
                    assert(rn[r].offers@[k2] == ro[r].offers@[k2]);
                }
            }
        }
        Ok(idx)
    }

    /// Removes every offer; the hierarchy stays.
    pub fn cleanup(&mut self)
        requires
            old(self).wf(),
        ensures
            final(self).wf(),
            final(self).is_cleared(),
            final(self).region_tree.same_topology(&old(self).region_tree),
    {
        self.region_tree.clear_offers();
        self.days_index.clear();
        self.dense_store.all.clear();
    }
}

/// Whether an offer's rental lies within the request's time range.
pub open spec fn in_window(o: Offer, req: RequestOffer) -> bool {
    req.time_range_start <= o.start_date && o.end_date <= req.time_range_end
}

/// Whether the request can be answered: a non-empty page and non-zero
/// histogram widths.
pub open spec fn request_valid(req: RequestOffer) -> bool {
    req.page_size > 0 && req.price_range_width > 0 && req.min_free_kilometer_width > 0
}

impl DBManager {
    /// The offers of the request's region subtree that are registered under
    /// the request's duration.
    pub open spec fn day_matched(&self, req: RequestOffer) -> Seq<u32> {
        subtree_offers(self.region_tree.regions@, req.region_id as int).filter(
            |i: u32| self.days_index.bucket(req.number_days as int).contains(i),
        )
    }

    /// Whether the offer at index `i` lies in the request's time range.
    pub open spec fn window_filter(&self, req: RequestOffer) -> spec_fn(u32) -> bool {
        |i: u32| in_window(self.offers()[i as int], req)
    }

    /// The candidates of a request, in enumeration order: offers of the
    /// region subtree with the requested duration, within the time range.
    pub open spec fn candidates(&self, req: RequestOffer) -> Seq<u32> {
        self.day_matched(req).filter(self.window_filter(req))
    }

    /// The offers at the given indices.
    pub open spec fn offers_at(&self, idxs: Seq<u32>) -> Seq<Offer> {
        idxs.map_values(|i: u32| self.offers()[i as int])
    }

    /// Whether the offer at index `i` passes every filter of the request.
    pub open spec fn match_filter(&self, req: RequestOffer) -> spec_fn(u32) -> bool {
        |i: u32| satisfies_all(self.offers()[i as int], req)
    }

    /// The candidates that pass every filter.
    pub open spec fn matches(&self, req: RequestOffer) -> Seq<u32> {
        self.candidates(req).filter(self.match_filter(req))
    }

    /// The matching offers in result order.
    pub open spec fn sorted_matches(&self, req: RequestOffer) -> Seq<u32> {
        sort_by_price(self.offers(), req.sort_order, self.matches(req))
    }

    /// The indices of the offers on the requested page.
    pub open spec fn page_matches(&self, req: RequestOffer) -> Seq<u32> {
        page_of(self.sorted_matches(req), req.page as int, req.page_size as int)
    }

    /// What the answer to a valid request holds: the requested page of the
    /// matching offers, and each facet over the candidates under the
    /// all-but-self rule.
    pub open spec fn answers(&self, req: RequestOffer, r: GetReponseBodyModel) -> bool {
        let page = self.page_matches(req);
        let cands = self.offers_at(self.candidates(req));
        &&& r.offers@.len() == page.len()
        &&& forall|i: int|
            0 <= i < page.len() ==> (#[trigger] r.offers@[i]).id@ == self.offers()[page[i] as int].id@
                && r.offers@[i].data@ == self.offers()[page[i] as int].data@
        &&& price_ranges_match(r.price_ranges@, facet_tally(cands, req, Dimension::Price), req.price_range_width)
        &&& kilometer_ranges_match(
            r.free_kilometer_range@,
            facet_tally(cands, req, Dimension::FreeKilometers),
            req.min_free_kilometer_width,
        )
        &&& seat_counts_match(r.seats_count@, facet_tally(cands, req, Dimension::Seats))
        &&& r.car_type_counts.small == car_type_total(cands, req, CarType::Small)
        &&& r.car_type_counts.sports == car_type_total(cands, req, CarType::Sports)
        &&& r.car_type_counts.luxury == car_type_total(cands, req, CarType::Luxury)
        &&& r.car_type_counts.family == car_type_total(cands, req, CarType::Family)
        &&& r.vollkasko_count.true_count == vollkasko_total(cands, req, true)
        &&& r.vollkasko_count.false_count == vollkasko_total(cands, req, false)
    }

    /// Answers a request: the requested page of the matching offers in
    /// result order, and the facets. A zero page size or histogram width is
    /// refused.
    pub fn query_for(&self, request_offer: RequestOffer) -> (r: Result<GetReponseBodyModel, QueryError>)
        requires
            self.wf(),
        ensures
            !request_valid(request_offer) ==> r == Err::<GetReponseBodyModel, QueryError>(QueryError::Validation),
            request_valid(request_offer) ==> (r matches Ok(body) && self.answers(request_offer, body)),
    {
        let req = request_offer;
        if req.page_size == 0 || req.price_range_width == 0 || req.min_free_kilometer_width == 0 {
            return Err(QueryError::Validation);
        }
        let subtree = self.region_tree.get_available_offers(req.region_id);
        let day_matched = self.days_index.filter_offers(req.number_days, subtree);
        let store = &self.dense_store.all;
        let mut filtered: Vec<u32> = Vec::new();
        let mut vollkasko_count = VollKaskoCount { true_count: 0, false_count: 0 };
        let mut car_type_count = CarTypeCount { small: 0, sports: 0, luxury: 0, family: 0 };
        let mut price_map = CountMap::new();
        let mut kilometer_map = CountMap::new();
        let mut seats_map = CountMap::new();
        let ghost win = self.window_filter(req);
        let ghost mut seen: Seq<u32> = Seq::empty();
        let mut k: usize = 0;
        assert(day_matched@.subrange(0, 0) =~= Seq::<u32>::empty());
        while k < day_matched.len()
            invariant
                self.wf(),
                request_valid(req),
                store == &self.dense_store.all,
                win == self.window_filter(req),
                day_matched@ == self.day_matched(req),
                k <= day_matched@.len(),
                seen == day_matched@.subrange(0, k as int).filter(win),
                seen.len() <= k,
                filtered@ == seen.filter(self.match_filter(req)),
                forall|j: int| 0 <= j < filtered@.len() ==> (#[trigger] filtered@[j] as int) < self.offers().len(),
                counts_of(price_map) == facet_tally(self.offers_at(seen), req, Dimension::Price),
                counts_of(kilometer_map) == facet_tally(self.offers_at(seen), req, Dimension::FreeKilometers),
                counts_of(seats_map) == facet_tally(self.offers_at(seen), req, Dimension::Seats),
                car_type_count.small == car_type_total(self.offers_at(seen), req, CarType::Small),
                car_type_count.sports == car_type_total(self.offers_at(seen), req, CarType::Sports),
                car_type_count.luxury == car_type_total(self.offers_at(seen), req, CarType::Luxury),
                car_type_count.family == car_type_total(self.offers_at(seen), req, CarType::Family),
                vollkasko_count.true_count == vollkasko_total(self.offers_at(seen), req, true),
                vollkasko_count.false_count == vollkasko_total(self.offers_at(seen), req, false),
            decreases day_matched@.len() - k,
        {
            let x = day_matched[k];
            proof {
                broadcast use vstd::seq_lib::group_filter_ensures;
                assert(day_matched@.contains(x));
                assert(self.days_index.bucket(req.number_days as int).contains(x));
            }
            let offer = &store[x as usize];
            let ghost prev_seen = seen;
            let ghost p = self.offers_at(prev_seen);
            proof {
                let s = day_matched@.subrange(0, k + 1);
                assert(s.drop_last() =~= day_matched@.subrange(0, k as int));
                assert(s.last() == x);
                reveal(Seq::filter);
                lemma_tally_bounded(p, |o: Offer| crate::facets::facet_key(o, req, Dimension::Price), |o: Offer| crate::facets::satisfies_all_but(o, req, Dimension::Price));
                lemma_tally_bounded(p, |o: Offer| crate::facets::facet_key(o, req, Dimension::FreeKilometers), |o: Offer| crate::facets::satisfies_all_but(o, req, Dimension::FreeKilometers));
                lemma_tally_bounded(p, |o: Offer| crate::facets::facet_key(o, req, Dimension::Seats), |o: Offer| crate::facets::satisfies_all_but(o, req, Dimension::Seats));
                lemma_count_kept_bounded(p, |o: Offer| crate::facets::satisfies_all_but(o, req, Dimension::CarType) && o.car_type == CarType::Small);
                lemma_count_kept_bounded(p, |o: Offer| crate::facets::satisfies_all_but(o, req, Dimension::CarType) && o.car_type == CarType::Sports);
                lemma_count_kept_bounded(p, |o: Offer| crate::facets::satisfies_all_but(o, req, Dimension::CarType) && o.car_type == CarType::Luxury);
                lemma_count_kept_bounded(p, |o: Offer| crate::facets::satisfies_all_but(o, req, Dimension::CarType) && o.car_type == CarType::Family);
                lemma_count_kept_bounded(p, |o: Offer| crate::facets::satisfies_all_but(o, req, Dimension::Vollkasko) && o.has_vollkasko == true);
                lemma_count_kept_bounded(p, |o: Offer| crate::facets::satisfies_all_but(o, req, Dimension::Vollkasko) && o.has_vollkasko == false);
            }
            if req.time_range_start <= offer.start_date && offer.end_date <= req.time_range_end {
                proof {
                    seen = prev_seen.push(x);
                    assert(self.offers_at(seen) =~= p.push(*offer));
                    assert(self.offers_at(seen).drop_last() =~= p);
                    assert(seen.drop_last() =~= prev_seen);
                }
                let c = evaluate(offer, &req);
                if c.listed {
                    filtered.push(x);
                }
                if c.price {
                    proof { lemma_bucket_bounds(offer.price as int, req.price_range_width as int); }
                    price_map.increment(bucket_start(offer.price, req.price_range_width));
                }
                if c.free_kilometers {
                    proof { lemma_bucket_bounds(offer.free_kilometers as int, req.min_free_kilometer_width as int); }
                    kilometer_map.increment(bucket_start(offer.free_kilometers, req.min_free_kilometer_width));
                }
                if c.seats {
                    seats_map.increment(offer.number_seats);
                }
                if c.car_type {
                    match offer.car_type {
                        CarType::Small => car_type_count.small = car_type_count.small + 1,
                        CarType::Sports => car_type_count.sports = car_type_count.sports + 1,
                        CarType::Luxury => car_type_count.luxury = car_type_count.luxury + 1,
                        CarType::Family => car_type_count.family = car_type_count.family + 1,
                    }
                }
                if c.vollkasko {
                    if offer.has_vollkasko {
                        vollkasko_count.true_count = vollkasko_count.true_count + 1;
                    } else {
                        vollkasko_count.false_count = vollkasko_count.false_count + 1;
                    }
                }
            }
            k = k + 1;
        }
        proof {
            assert(day_matched@.subrange(0, k as int) =~= day_matched@);
        }
        let offers = Self::sort_orders_and_paginate(store, &filtered, &req);
        let price_ranges = price_ranges_of(&price_map, req.price_range_width);
        let free_kilometer_range = kilometer_ranges_of(&kilometer_map, req.min_free_kilometer_width);
        let seats_count = seat_counts_of(&seats_map);
        Ok(GetReponseBodyModel {
            offers,
            price_ranges,
            car_type_counts: car_type_count,
            seats_count,
            free_kilometer_range,
            vollkasko_count,
        })
    }

    /// Puts the offers at `idxs` in result order and returns the requested
    /// page of them as ids and payloads.
    fn sort_orders_and_paginate(store: &Vec<Offer>, idxs: &Vec<u32>, req: &RequestOffer) -> (r: Vec<ResponseOffer>)
        requires
            forall|i: int| 0 <= i < idxs@.len() ==> (#[trigger] idxs@[i] as int) < store@.len(),
        ensures
            r@.len() == page_of(sort_by_price(store@, req.sort_order, idxs@), req.page as int, req.page_size as int).len(),
            forall|i: int| 0 <= i < r@.len() ==> {
                let page = page_of(sort_by_price(store@, req.sort_order, idxs@), req.page as int, req.page_size as int);
                &&& (#[trigger] r@[i]).id@ == store@[page[i] as int].id@
                &&& r@[i].data@ == store@[page[i] as int].data@
            },
    {
        let sorted = sort_offers(store, req.sort_order, idxs);
        proof {
            lemma_sort_by_price(store@, req.sort_order, idxs@);
        }
        assert forall|k: int| 0 <= k < sorted@.len() implies (#[trigger] sorted@[k] as int) < store@.len() by {
            broadcast use vstd::seq_lib::group_to_multiset_ensures;

            assert(sorted@.contains(sorted@[k]));
            assert(idxs@.to_multiset().count(sorted@[k]) > 0);
            assert(idxs@.contains(sorted@[k]));
        }
        let ghost page = page_of(sorted@, req.page as int, req.page_size as int);
        assert(req.page as int * req.page_size as int <= u32::MAX as int * u32::MAX as int) by (nonlinear_arith);
        let len = sorted.len();
        let skip: u64 = req.page as u64 * req.page_size as u64;
        let start: usize = if skip < len as u64 { skip as usize } else { len };
        let avail = len - start;
        let take: usize = if (req.page_size as u64) < (avail as u64) { req.page_size as usize } else { avail };
        let mut r: Vec<ResponseOffer> = Vec::new();
        let mut i: usize = 0;
        assert(page =~= sorted@.subrange(start as int, (start + take) as int));
        while i < take
            invariant
                i <= take,
                len == sorted@.len(),
                start + take <= len,
                page == sorted@.subrange(start as int, (start + take) as int),
                forall|k: int| 0 <= k < sorted@.len() ==> (#[trigger] sorted@[k] as int) < store@.len(),
                r@.len() == i,
                forall|k: int| 0 <= k < i ==> (#[trigger] r@[k]).id@ == store@[page[k] as int].id@
                    && r@[k].data@ == store@[page[k] as int].data@,
            decreases take - i,
        {
            let o = &store[sorted[start + i] as usize];
            r.push(ResponseOffer { id: o.id.clone(), data: o.data.clone() });
            i = i + 1;
        }
        r
    }
}

/// Whether to count an offer at all: every offer counts.
pub open spec fn any_offer() -> spec_fn(Offer) -> bool {
    |o: Offer| true
}

/// The offer's price bucket of width `w`.
pub open spec fn price_key(w: u32) -> spec_fn(Offer) -> u32 {
    |o: Offer| bucket(o.price as int, w as int) as u32
}

/// The offer's free-kilometer bucket of width `w`.
pub open spec fn kilometer_key(w: u32) -> spec_fn(Offer) -> u32 {
    |o: Offer| bucket(o.free_kilometers as int, w as int) as u32
}

/// The offer's seat number.
pub open spec fn seats_key() -> spec_fn(Offer) -> u32 {
    |o: Offer| o.number_seats
}

/// How many of `offers` are of car type `t`.
pub open spec fn count_car_type(offers: Seq<Offer>, t: CarType) -> nat {
    count_kept(offers, |o: Offer| o.car_type == t)
}

/// How many of `offers` have the insurance flag equal to `b`.
pub open spec fn count_vollkasko(offers: Seq<Offer>, b: bool) -> nat {
    count_kept(offers, |o: Offer| o.has_vollkasko == b)
}

/// Which keys a tally of `offers` under `key` takes: price buckets, free-kilometer
/// buckets or seat numbers.
enum TallyKind {
    Price(u32),
    Kilometers(u32),
    Seats,
}

/// Counts every offer under its key.
fn tally_offers(offers: &Vec<Offer>, kind: &TallyKind, key: Ghost<spec_fn(Offer) -> u32>) -> (m: CountMap)
    requires
        match *kind {
            TallyKind::Price(w) => w > 0 && key@ == price_key(w),
            TallyKind::Kilometers(w) => w > 0 && key@ == kilometer_key(w),
            TallyKind::Seats => key@ == seats_key(),
        },
    ensures
        counts_of(m) == tally(offers@, key@, any_offer()),
{
    let mut m = CountMap::new();
    let mut i: usize = 0;
    assert(offers@.subrange(0, 0) =~= Seq::<Offer>::empty());
    while i < offers.len()
        invariant
            i <= offers@.len(),
            match *kind {
                TallyKind::Price(w) => w > 0 && key@ == price_key(w),
                TallyKind::Kilometers(w) => w > 0 && key@ == kilometer_key(w),
                TallyKind::Seats => key@ == seats_key(),
            },
            counts_of(m) == tally(offers@.subrange(0, i as int), key@, any_offer()),
        decreases offers@.len() - i,
    {
        let o = &offers[i];
        proof {
            lemma_tally_bounded(offers@.subrange(0, i as int), key@, any_offer());
            let s = offers@.subrange(0, i + 1);
            assert(s.drop_last() =~= offers@.subrange(0, i as int));
            assert(s.last() == *o);
        }
        match kind {
            TallyKind::Price(w) => {
                proof { lemma_bucket_bounds(o.price as int, *w as int); }
                m.increment(bucket_start(o.price, *w));
            },
            TallyKind::Kilometers(w) => {
                proof { lemma_bucket_bounds(o.free_kilometers as int, *w as int); }
                m.increment(bucket_start(o.free_kilometers, *w));
            },
            TallyKind::Seats => m.increment(o.number_seats),
        }
        i = i + 1;
    }
    assert(offers@.subrange(0, i as int) =~= offers@);
    m
}

impl DBManager {
    /// The price histogram of `offers` with buckets of width
    /// `price_range_width`, by ascending start.
    pub fn to_price_ranges_offers(offers: &Vec<Offer>, price_range_width: u32) -> (r: Vec<PriceRange>)
        requires
            price_range_width > 0,
        ensures
            price_ranges_match(r@, tally(offers@, price_key(price_range_width), any_offer()), price_range_width),
    {
        let m = tally_offers(offers, &TallyKind::Price(price_range_width), Ghost(price_key(price_range_width)));
        price_ranges_of(&m, price_range_width)
    }

    /// The free-kilometer histogram of `offers` with buckets of width
    /// `free_kilometer_width`, by ascending start.
    pub fn to_free_kilometers_offers(offers: &Vec<Offer>, free_kilometer_width: u32) -> (r: Vec<FreeKilometerRange>)
        requires
            free_kilometer_width > 0,
        ensures
            kilometer_ranges_match(r@, tally(offers@, kilometer_key(free_kilometer_width), any_offer()), free_kilometer_width),
    {
        let m = tally_offers(offers, &TallyKind::Kilometers(free_kilometer_width), Ghost(kilometer_key(free_kilometer_width)));
        kilometer_ranges_of(&m, free_kilometer_width)
    }

    /// How many of `offers` have each seat number.
    pub fn to_seat_number_offers(offers: &Vec<Offer>) -> (r: Vec<SeatCount>)
        ensures
            seat_counts_match(r@, tally(offers@, seats_key(), any_offer())),
    {
        let m = tally_offers(offers, &TallyKind::Seats, Ghost(seats_key()));
        seat_counts_of(&m)
    }

    /// How many of `offers` have and lack full insurance.
    pub fn to_vollkasko_offers(offers: &Vec<Offer>) -> (r: VollKaskoCount)
        ensures
            r.true_count == count_vollkasko(offers@, true),
            r.false_count == count_vollkasko(offers@, false),
    {
        let mut r = VollKaskoCount { true_count: 0, false_count: 0 };
        let mut i: usize = 0;
        assert(offers@.subrange(0, 0) =~= Seq::<Offer>::empty());
        while i < offers.len()
            invariant
                i <= offers@.len(),
                r.true_count == count_vollkasko(offers@.subrange(0, i as int), true),
                r.false_count == count_vollkasko(offers@.subrange(0, i as int), false),
            decreases offers@.len() - i,
        {
            proof {
                lemma_count_kept_bounded(offers@.subrange(0, i as int), |o: Offer| o.has_vollkasko == true);
                lemma_count_kept_bounded(offers@.subrange(0, i as int), |o: Offer| o.has_vollkasko == false);
                let s = offers@.subrange(0, i + 1);
                assert(s.drop_last() =~= offers@.subrange(0, i as int));
            }
            if offers[i].has_vollkasko {
                r.true_count = r.true_count + 1;
            } else {
                r.false_count = r.false_count + 1;
            }
            i = i + 1;
        }
        assert(offers@.subrange(0, i as int) =~= offers@);
        r
    }

    /// How many of `offers` are of each car type.
    pub fn to_car_type_count(offers: &Vec<Offer>) -> (r: CarTypeCount)
        ensures
            r.small == count_car_type(offers@, CarType::Small),
            r.sports == count_car_type(offers@, CarType::Sports),
            r.luxury == count_car_type(offers@, CarType::Luxury),
            r.family == count_car_type(offers@, CarType::Family),
    {
        let mut r = CarTypeCount { small: 0, sports: 0, luxury: 0, family: 0 };
        let mut i: usize = 0;
        assert(offers@.subrange(0, 0) =~= Seq::<Offer>::empty());
        while i < offers.len()
            invariant
                i <= offers@.len(),
                r.small == count_car_type(offers@.subrange(0, i as int), CarType::Small),
                r.sports == count_car_type(offers@.subrange(0, i as int), CarType::Sports),
                r.luxury == count_car_type(offers@.subrange(0, i as int), CarType::Luxury),
                r.family == count_car_type(offers@.subrange(0, i as int), CarType::Family),
            decreases offers@.len() - i,
        {
            proof {
                let p = offers@.subrange(0, i as int);
                lemma_count_kept_bounded(p, |o: Offer| o.car_type == CarType::Small);
                lemma_count_kept_bounded(p, |o: Offer| o.car_type == CarType::Sports);
                lemma_count_kept_bounded(p, |o: Offer| o.car_type == CarType::Luxury);
                lemma_count_kept_bounded(p, |o: Offer| o.car_type == CarType::Family);
                let s = offers@.subrange(0, i + 1);
                assert(s.drop_last() =~= p);
            }
            match offers[i].car_type {
                CarType::Small => r.small = r.small + 1,
                CarType::Sports => r.sports = r.sports + 1,
                CarType::Luxury => r.luxury = r.luxury + 1,
                CarType::Family => r.family = r.family + 1,
            }
            i = i + 1;
        }
        assert(offers@.subrange(0, i as int) =~= offers@);
        r
    }

    /// The car-type facet from the offers that pass every filter and those
    /// that fail the car-type filter alone: without a car-type filter, the
    /// types of `offers`; with one, all of `offers` for the requested type
    /// and the types of `excluded_offers` for the others.
    pub fn get_car_type_count(offers: &Vec<Offer>, excluded_offers: &Vec<Offer>, request_offer: &RequestOffer) -> (r: CarTypeCount)
        ensures
            request_offer.car_type is None ==> r == (CarTypeCount {
                small: count_car_type(offers@, CarType::Small) as u64,
                sports: count_car_type(offers@, CarType::Sports) as u64,
                luxury: count_car_type(offers@, CarType::Luxury) as u64,
                family: count_car_type(offers@, CarType::Family) as u64,
            }),
            request_offer.car_type matches Some(t) ==> {
                &&& r.small == if t == CarType::Small { offers@.len() as nat } else { count_car_type(excluded_offers@, CarType::Small) }
                &&& r.sports == if t == CarType::Sports { offers@.len() as nat } else { count_car_type(excluded_offers@, CarType::Sports) }
                &&& r.luxury == if t == CarType::Luxury { offers@.len() as nat } else { count_car_type(excluded_offers@, CarType::Luxury) }
                &&& r.family == if t == CarType::Family { offers@.len() as nat } else { count_car_type(excluded_offers@, CarType::Family) }
            },
    {
        match request_offer.car_type {
            None => Self::to_car_type_count(offers),
            Some(filtered) => {
                let excluded = Self::to_car_type_count(excluded_offers);
                let n = offers.len() as u64;
                CarTypeCount {
                    small: if CarType::Small.eq_me(&filtered) { n } else { excluded.small },
                    sports: if CarType::Sports.eq_me(&filtered) { n } else { excluded.sports },
                    luxury: if CarType::Luxury.eq_me(&filtered) { n } else { excluded.luxury },
                    family: if CarType::Family.eq_me(&filtered) { n } else { excluded.family },
                }
            },
        }
    }
}

/// Cleaning up a store that is already empty changes nothing.
pub proof fn lemma_cleanup_idempotent(before: DBManager, after: DBManager)
    requires
        before.wf(),
        before.is_cleared(),
        after.wf(),
        after.is_cleared(),
        after.region_tree.same_topology(&before.region_tree),
    ensures
        after.same_contents(&before),
{
    assert(after.offers() =~= before.offers());
    assert forall|r: int|
        0 <= r < after.region_tree.regions@.len() implies (#[trigger] after.region_tree.regions@[r]).offers@
            == before.region_tree.regions@[r].offers@ by {
        assert(after.region_tree.regions@[r].offers@ =~= before.region_tree.regions@[r].offers@);
    }
}

} // verus!
