//! The five filters of a request and the facet counts computed under the
//! all-but-self rule: each facet counts the offers that pass every filter
//! except its own.
use vstd::prelude::*;
use crate::counts::{CountMap, counts_of};
use crate::models::{
    CarType, FreeKilometerRange, Offer, PriceRange, RequestOffer, SeatCount,
};

verus! {

/// The filter dimensions of a request; each has a facet of its own.
#[derive(Clone, Copy, Debug, PartialEq, Eq, Structural)]
pub enum Dimension {
    Seats,
    CarType,
    Vollkasko,
    FreeKilometers,
    Price,
}

/// Whether an offer passes the request's filter of dimension `d`; an unset
/// filter passes every offer.
pub open spec fn satisfies(o: Offer, req: RequestOffer, d: Dimension) -> bool {
    match d {
        Dimension::Seats => match req.min_number_seats {
            Some(m) => o.number_seats >= m,
            None => true,
        },
        Dimension::CarType => match req.car_type {
            Some(t) => o.car_type == t,
            None => true,
        },
        Dimension::Vollkasko => match req.only_vollkasko {
            Some(true) => o.has_vollkasko,
            _ => true,
        },
        Dimension::FreeKilometers => match req.min_free_kilometer {
            Some(m) => o.free_kilometers >= m,
            None => true,
        },
        Dimension::Price => {
            &&& (match req.min_price {
                Some(m) => m <= o.price,
                None => true,
            })
            &&& (match req.max_price {
                Some(m) => o.price < m,
                None => true,
            })
        },
    }
}

/// Whether an offer passes every filter of the request.
pub open spec fn satisfies_all(o: Offer, req: RequestOffer) -> bool {
    &&& satisfies(o, req, Dimension::Seats)
    &&& satisfies(o, req, Dimension::CarType)
    &&& satisfies(o, req, Dimension::Vollkasko)
    &&& satisfies(o, req, Dimension::FreeKilometers)
    &&& satisfies(o, req, Dimension::Price)
}

/// Whether an offer passes every filter of the request except possibly that
/// of dimension `d`.
pub open spec fn satisfies_all_but(o: Offer, req: RequestOffer, d: Dimension) -> bool {
    &&& (d == Dimension::Seats || satisfies(o, req, Dimension::Seats))
    &&& (d == Dimension::CarType || satisfies(o, req, Dimension::CarType))
    &&& (d == Dimension::Vollkasko || satisfies(o, req, Dimension::Vollkasko))
    &&& (d == Dimension::FreeKilometers || satisfies(o, req, Dimension::FreeKilometers))
    &&& (d == Dimension::Price || satisfies(o, req, Dimension::Price))
}

/// Which aggregates an offer adds to: `listed` when it passes every
/// filter, and each facet's flag when it passes every filter but that
/// facet's own.
#[derive(Clone, Copy, Debug, PartialEq, Eq, Structural)]
pub struct Contribution {
    pub listed: bool,
    pub seats: bool,
    pub car_type: bool,
    pub vollkasko: bool,
    pub free_kilometers: bool,
    pub price: bool,
}

/// Evaluates the five filters on an offer and decides where it counts:
/// everywhere when all pass, only in the facet of the one filter that
/// fails, and nowhere when two or more fail.
pub fn evaluate(offer: &Offer, req: &RequestOffer) -> (c: Contribution)
    ensures
        c.listed == satisfies_all(*offer, *req),
        c.seats == satisfies_all_but(*offer, *req, Dimension::Seats),
        c.car_type == satisfies_all_but(*offer, *req, Dimension::CarType),
        c.vollkasko == satisfies_all_but(*offer, *req, Dimension::Vollkasko),
        c.free_kilometers == satisfies_all_but(*offer, *req, Dimension::FreeKilometers),
        c.price == satisfies_all_but(*offer, *req, Dimension::Price),
{
    let mut seats_incl = true;
    let mut car_type_incl = true;
    let mut vollkasko_incl = true;
    let mut free_kilometers_incl = true;
    let mut price_incl = true;
    if let Some(min_seats) = req.min_number_seats {
        if offer.number_seats < min_seats {
            seats_incl = false;
        }
    }
    if let Some(car_type) = req.car_type {
        if !offer.car_type.eq_me(&car_type) {
            car_type_incl = false;
        }
    }
    if let Some(required) = req.only_vollkasko {
        if required && !offer.has_vollkasko {
            vollkasko_incl = false;
        }
    }
    if let Some(min_km) = req.min_free_kilometer {
        if offer.free_kilometers < min_km {
            free_kilometers_incl = false;
        }
    }
    if let Some(max_price) = req.max_price {
        if max_price <= offer.price {
            price_incl = false;
        }
    }
    if let Some(min_price) = req.min_price {
        if min_price > offer.price {
            price_incl = false;
        }
    }
    let none = Contribution {
        listed: false,
        seats: false,
        car_type: false,
        vollkasko: false,
        free_kilometers: false,
        price: false,
    };
    match (seats_incl, car_type_incl, vollkasko_incl, free_kilometers_incl, price_incl) {
        (true, true, true, true, true) => Contribution {
            listed: true,
            seats: true,
            car_type: true,
            vollkasko: true,
            free_kilometers: true,
            price: true,
        },
        (true, true, true, true, false) => Contribution { price: true, ..none },
        (true, true, true, false, true) => Contribution { free_kilometers: true, ..none },
        (true, true, false, true, true) => Contribution { vollkasko: true, ..none },
        (true, false, true, true, true) => Contribution { car_type: true, ..none },
        (false, true, true, true, true) => Contribution { seats: true, ..none },
        _ => none,
    }
}

/// The key under which an offer counts in the facet of dimension `d`: its
/// price bucket, its free-kilometer bucket, or its seat number.
pub open spec fn facet_key(o: Offer, req: RequestOffer, d: Dimension) -> u32 {
    match d {
        Dimension::Price => bucket(o.price as int, req.price_range_width as int) as u32,
        Dimension::FreeKilometers => bucket(
            o.free_kilometers as int,
            req.min_free_kilometer_width as int,
        ) as u32,
        _ => o.number_seats,
    }
}

/// The counts of the facet of dimension `d` over `offers`, under the
/// all-but-self rule.
pub open spec fn facet_tally(offers: Seq<Offer>, req: RequestOffer, d: Dimension) -> Map<u32, nat> {
    tally(offers, |o: Offer| facet_key(o, req, d), |o: Offer| satisfies_all_but(o, req, d))
}

/// The car-type facet over `offers`: how many of type `t` pass every filter
/// but the car type.
pub open spec fn car_type_total(offers: Seq<Offer>, req: RequestOffer, t: CarType) -> nat {
    count_kept(
        offers,
        |o: Offer| satisfies_all_but(o, req, Dimension::CarType) && o.car_type == t,
    )
}

/// The insurance facet over `offers`: how many with the flag equal to `b`
/// pass every filter but the insurance one.
pub open spec fn vollkasko_total(offers: Seq<Offer>, req: RequestOffer, b: bool) -> nat {
    count_kept(
        offers,
        |o: Offer| satisfies_all_but(o, req, Dimension::Vollkasko) && o.has_vollkasko == b,
    )
}

/// Start of the histogram bucket of width `w` that holds `v`.
pub open spec fn bucket(v: int, w: int) -> int {
    (v / w) * w
}

/// Every value lies in its bucket: the bucket starts at or below it and
/// ends above it.
pub proof fn lemma_bucket_bounds(v: int, w: int)
    requires
        v >= 0,
        w > 0,
    ensures
        bucket(v, w) == (v / w) * w,
        bucket(v, w) <= v < bucket(v, w) + w,
        bucket(v, w) >= 0,
{
    vstd::arithmetic::div_mod::lemma_fundamental_div_mod(v, w);
    assert(v % w >= 0 && v % w < w) by {
        vstd::arithmetic::div_mod::lemma_mod_bound(v, w);
    }
    assert(v / w >= 0) by {
        vstd::arithmetic::div_mod::lemma_div_pos_is_pos(v, w);
    }
    assert((v / w) * w >= 0) by (nonlinear_arith)
        requires
            v / w >= 0,
            w > 0,
    ;
    assert(w * (v / w) == (v / w) * w) by (nonlinear_arith);
}

/// Start of the histogram bucket of width `w` that holds `v`.
pub fn bucket_start(v: u32, w: u32) -> (r: u32)
    requires
        w > 0,
    ensures
        r == bucket(v as int, w as int),
{
    proof {
        lemma_bucket_bounds(v as int, w as int);
    }
    (v / w) * w
}

/// How many of `offers` that `keep` admits fall under each key.
pub open spec fn tally(
    offers: Seq<Offer>,
    key: spec_fn(Offer) -> u32,
    keep: spec_fn(Offer) -> bool,
) -> Map<u32, nat>
    decreases offers.len(),
{
    if offers.len() == 0 {
        Map::empty()
    } else {
        let m = tally(offers.drop_last(), key, keep);
        let o = offers.last();
        if keep(o) {
            let k = key(o);
            m.insert(k, if m.contains_key(k) { m[k] + 1 } else { 1 })
        } else {
            m
        }
    }
}

/// How many of `offers` that `keep` admits.
pub open spec fn count_kept(offers: Seq<Offer>, keep: spec_fn(Offer) -> bool) -> nat
    decreases offers.len(),
{
    if offers.len() == 0 {
        0
    } else {
        count_kept(offers.drop_last(), keep) + if keep(offers.last()) { 1nat } else { 0nat }
    }
}

/// No key is counted more often than there are offers.
pub proof fn lemma_tally_bounded(
    offers: Seq<Offer>,
    key: spec_fn(Offer) -> u32,
    keep: spec_fn(Offer) -> bool,
)
    ensures
        forall|k: u32|
            #[trigger] tally(offers, key, keep).contains_key(k) ==> tally(offers, key, keep)[k]
                <= offers.len(),
    decreases offers.len(),
{
    if offers.len() > 0 {
        let m = tally(offers.drop_last(), key, keep);
        lemma_tally_bounded(offers.drop_last(), key, keep);
        assert forall|k: u32| #[trigger] tally(offers, key, keep).contains_key(k) implies tally(offers, key, keep)[k]
            <= offers.len() by {
            if m.contains_key(k) {
                assert(m[k] <= offers.len() - 1);
            }
        }
    }
}

/// No more offers are kept than there are.
pub proof fn lemma_count_kept_bounded(offers: Seq<Offer>, keep: spec_fn(Offer) -> bool)
    ensures
        count_kept(offers, keep) <= offers.len(),
    decreases offers.len(),
{
    if offers.len() > 0 {
        lemma_count_kept_bounded(offers.drop_last(), keep);
    }
}

/// The histogram ranges list each bucket of `m` once, by ascending start,
/// each spanning `w` and carrying the bucket's count.
pub open spec fn price_ranges_match(r: Seq<PriceRange>, m: Map<u32, nat>, w: u32) -> bool {
    &&& forall|i: int, j: int| 0 <= i < j < r.len() ==> r[i].start < r[j].start
    &&& forall|i: int|
        0 <= i < r.len() ==> {
            &&& r[i].start <= u32::MAX
            &&& m.contains_key(#[trigger] r[i].start as u32)
            &&& r[i].count == m[r[i].start as u32]
            &&& r[i].end == r[i].start + w
        }
    &&& forall|k: u32| m.contains_key(k) ==> exists|i: int| 0 <= i < r.len() && #[trigger] r[i].start == k
}

/// As `price_ranges_match`, for free-kilometer ranges.
pub open spec fn kilometer_ranges_match(r: Seq<FreeKilometerRange>, m: Map<u32, nat>, w: u32) -> bool {
    &&& forall|i: int, j: int| 0 <= i < j < r.len() ==> r[i].start < r[j].start
    &&& forall|i: int|
        0 <= i < r.len() ==> {
            &&& r[i].start <= u32::MAX
            &&& m.contains_key(#[trigger] r[i].start as u32)
            &&& r[i].count == m[r[i].start as u32]
            &&& r[i].end == r[i].start + w
        }
    &&& forall|k: u32| m.contains_key(k) ==> exists|i: int| 0 <= i < r.len() && #[trigger] r[i].start == k
}

/// The seat counts list each seat number of `m` once, by ascending number,
/// with its count.
pub open spec fn seat_counts_match(r: Seq<SeatCount>, m: Map<u32, nat>) -> bool {
    &&& forall|i: int, j: int| 0 <= i < j < r.len() ==> r[i].number_seats < r[j].number_seats
    &&& forall|i: int|
        0 <= i < r.len() ==> m.contains_key(#[trigger] r[i].number_seats) && r[i].count
            == m[r[i].number_seats]
    &&& forall|k: u32|
        m.contains_key(k) ==> exists|i: int| 0 <= i < r.len() && #[trigger] r[i].number_seats == k
}

/// The price ranges of width `w` for the counts in `map`.
pub fn price_ranges_of(map: &CountMap, w: u32) -> (r: Vec<PriceRange>)
    ensures
        price_ranges_match(r@, counts_of(*map), w),
{
    let entries = map.sorted_entries();
    let mut r: Vec<PriceRange> = Vec::new();
    let mut i: usize = 0;
    while i < entries.len()
        invariant
            i <= entries@.len(),
            r@.len() == i,
            forall|a: int, b: int| 0 <= a < b < entries@.len() ==> entries@[a].0 < entries@[b].0,
            forall|a: int| 0 <= a < i ==> (#[trigger] r@[a]).start == entries@[a].0 && r@[a].end
                == entries@[a].0 + w && r@[a].count == entries@[a].1,
        decreases entries@.len() - i,
    {
        let (k, c) = entries[i];
        r.push(PriceRange { start: k as u64, end: k as u64 + w as u64, count: c });
        i = i + 1;
    }
    assert forall|k: u32| counts_of(*map).contains_key(k) implies exists|a: int| 0 <= a < r@.len() && #[trigger] r@[a].start == k by {
        let a = choose|a: int| 0 <= a < entries@.len() && #[trigger] entries@[a].0 == k;
        assert(r@[a].start == k);
    }
    assert forall|a: int| 0 <= a < r@.len() implies counts_of(*map).contains_key(#[trigger] r@[a].start as u32) by {
        assert(entries@[a].0 == r@[a].start);
    }
    r
}

/// The free-kilometer ranges of width `w` for the counts in `map`.
pub fn kilometer_ranges_of(map: &CountMap, w: u32) -> (r: Vec<FreeKilometerRange>)
    ensures
        kilometer_ranges_match(r@, counts_of(*map), w),
{
    let entries = map.sorted_entries();
    let mut r: Vec<FreeKilometerRange> = Vec::new();
    let mut i: usize = 0;
    while i < entries.len()
        invariant
            i <= entries@.len(),
            r@.len() == i,
            forall|a: int, b: int| 0 <= a < b < entries@.len() ==> entries@[a].0 < entries@[b].0,
            forall|a: int| 0 <= a < i ==> (#[trigger] r@[a]).start == entries@[a].0 && r@[a].end
                == entries@[a].0 + w && r@[a].count == entries@[a].1,
        decreases entries@.len() - i,
    {
        let (k, c) = entries[i];
        r.push(FreeKilometerRange { start: k as u64, end: k as u64 + w as u64, count: c });
        i = i + 1;
    }
    assert forall|k: u32| counts_of(*map).contains_key(k) implies exists|a: int| 0 <= a < r@.len() && #[trigger] r@[a].start == k by {
        let a = choose|a: int| 0 <= a < entries@.len() && #[trigger] entries@[a].0 == k;
        assert(r@[a].start == k);
    }
    assert forall|a: int| 0 <= a < r@.len() implies counts_of(*map).contains_key(#[trigger] r@[a].start as u32) by {
        assert(entries@[a].0 == r@[a].start);
    }
    r
}

/// The seat counts for the counts in `map`.
pub fn seat_counts_of(map: &CountMap) -> (r: Vec<SeatCount>)
    ensures
        seat_counts_match(r@, counts_of(*map)),
{
    let entries = map.sorted_entries();
    let mut r: Vec<SeatCount> = Vec::new();
    let mut i: usize = 0;
    while i < entries.len()
        invariant
            i <= entries@.len(),
            r@.len() == i,
            forall|a: int, b: int| 0 <= a < b < entries@.len() ==> entries@[a].0 < entries@[b].0,
            forall|a: int| 0 <= a < i ==> (#[trigger] r@[a]).number_seats == entries@[a].0 && r@[a].count == entries@[a].1,
        decreases entries@.len() - i,
    {
        let (k, c) = entries[i];
        r.push(SeatCount { number_seats: k, count: c });
        i = i + 1;
    }
    assert forall|k: u32| counts_of(*map).contains_key(k) implies exists|a: int| 0 <= a < r@.len() && #[trigger] r@[a].number_seats == k by {
        let a = choose|a: int| 0 <= a < entries@.len() && #[trigger] entries@[a].0 == k;
        assert(r@[a].number_seats == k);
    }
    assert forall|a: int| 0 <= a < r@.len() implies counts_of(*map).contains_key(#[trigger] r@[a].number_seats) by {
        assert(entries@[a].0 == r@[a].number_seats);
    }
    r
}

} // verus!
