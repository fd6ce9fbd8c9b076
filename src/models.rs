//! The records that the engine stores, the request it answers and the
//! response it produces.
use vstd::prelude::*;

verus! {

/// Milliseconds in one rental day.
pub const DAY_MS: u64 = 86_400_000;

/// The kinds of car an offer can be for.
#[derive(Clone, Copy, Debug, PartialEq, Eq, Structural)]
pub enum CarType {
    Small,
    Sports,
    Luxury,
    Family,
}

impl CarType {
    /// Whether two car types are the same kind.
    pub fn eq_me(&self, other: &CarType) -> (r: bool)
        ensures
            r == (*self == *other),
    {
        match (self, other) {
            (CarType::Small, CarType::Small) => true,
            (CarType::Sports, CarType::Sports) => true,
            (CarType::Luxury, CarType::Luxury) => true,
            (CarType::Family, CarType::Family) => true,
            _ => false,
        }
    }
}

/// Direction of the price ordering of the result list.
#[derive(Clone, Copy, Debug, PartialEq, Eq, Structural)]
pub enum SortOrder {
    PriceAsc,
    PriceDesc,
}

/// A stored offer. `idx` is its position in the offer store.
#[derive(Clone, Debug)]
pub struct Offer {
    pub id: String,
    pub data: String,
    pub region_id: u8,
    pub start_date: i64,
    pub end_date: i64,
    pub number_seats: u32,
    pub price: u32,
    pub car_type: CarType,
    pub has_vollkasko: bool,
    pub free_kilometers: u32,
    pub idx: u32,
}

/// An offer's time window is non-empty.
pub open spec fn offer_valid(o: Offer) -> bool {
    o.start_date < o.end_date
}

/// Whole rental days between an offer's start and end.
pub open spec fn offer_days(o: Offer) -> int {
    (o.end_date - o.start_date) / (DAY_MS as int)
}

/// Whole rental days between an offer's start and end.
pub fn number_of_days(offer: &Offer) -> (days: u64)
    requires
        offer_valid(*offer),
    ensures
        days == offer_days(*offer),
{
    let span: i128 = offer.end_date as i128 - offer.start_date as i128;
    (span / (DAY_MS as i128)) as u64
}

/// A search request; the `Option` fields are the optional filters.
#[derive(Clone, Debug)]
pub struct RequestOffer {
    pub region_id: u8,
    pub time_range_start: i64,
    pub time_range_end: i64,
    pub number_days: u64,
    pub sort_order: SortOrder,
    pub page: u32,
    pub page_size: u32,
    pub price_range_width: u32,
    pub min_free_kilometer_width: u32,
    pub min_number_seats: Option<u32>,
    pub min_price: Option<u32>,
    pub max_price: Option<u32>,
    pub car_type: Option<CarType>,
    pub only_vollkasko: Option<bool>,
    pub min_free_kilometer: Option<u32>,
}

/// One offer of the result page.
#[derive(Clone, Debug)]
pub struct ResponseOffer {
    pub id: String,
    pub data: String,
}

/// One bucket of the price histogram: prices in `[start, end)`.
#[derive(Clone, Copy, Debug, PartialEq, Eq, Structural)]
pub struct PriceRange {
    pub start: u64,
    pub end: u64,
    pub count: u64,
}

/// One bucket of the free-kilometer histogram: values in `[start, end)`.
#[derive(Clone, Copy, Debug, PartialEq, Eq, Structural)]
pub struct FreeKilometerRange {
    pub start: u64,
    pub end: u64,
    pub count: u64,
}

/// Number of offers per car type.
#[derive(Clone, Copy, Debug, PartialEq, Eq, Structural)]
pub struct CarTypeCount {
    pub small: u64,
    pub sports: u64,
    pub luxury: u64,
    pub family: u64,
}

/// Number of offers with a given seat count.
#[derive(Clone, Copy, Debug, PartialEq, Eq, Structural)]
pub struct SeatCount {
    pub number_seats: u32,
    pub count: u64,
}

/// Number of offers with and without full insurance.
#[derive(Clone, Copy, Debug, PartialEq, Eq, Structural)]
pub struct VollKaskoCount {
    pub true_count: u64,
    pub false_count: u64,
}

/// The answer to a search request.
#[derive(Clone, Debug)]
pub struct GetReponseBodyModel {
    pub offers: Vec<ResponseOffer>,
    pub price_ranges: Vec<PriceRange>,
    pub car_type_counts: CarTypeCount,
    pub seats_count: Vec<SeatCount>,
    pub free_kilometer_range: Vec<FreeKilometerRange>,
    pub vollkasko_count: VollKaskoCount,
}

/// Why a request was not answered.
#[derive(Clone, Copy, Debug, PartialEq, Eq, Structural)]
pub enum QueryError {
    /// A page size or a histogram width of zero.
    Validation,
}

} // verus!
