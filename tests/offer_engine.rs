use offer_engine::db_manager::{DBManager, InsertError};
use offer_engine::facets::{bucket_start, evaluate};
use offer_engine::models::{
    CarType, CarTypeCount, FreeKilometerRange, GetReponseBodyModel, Offer, PriceRange,
    QueryError, RequestOffer, SeatCount, SortOrder, VollKaskoCount,
};
use offer_engine::ordering::bytes_less;
use offer_engine::region_hierarchy::{Region, RegionTree, check_description};

const DAY: i64 = 86_400_000;

const HIERARCHY: &[(u8, &[u8])] = &[
    (0, &[1, 2, 3, 4, 5, 6]),
    (1, &[7, 8, 9]),
    (7, &[21, 22, 23]),
    (21, &[58, 59]),
    (22, &[60, 61]),
    (23, &[62, 63]),
    (8, &[24, 25, 26, 27, 28]),
    (24, &[64, 65]),
    (25, &[66, 67]),
    (26, &[68, 69]),
    (27, &[70, 71]),
    (28, &[72, 73]),
    (9, &[29, 30]),
    (29, &[74, 75]),
    (30, &[76, 77]),
    (2, &[10, 11]),
    (10, &[31, 32, 33, 34, 35]),
    (31, &[78, 79, 80, 81]),
    (32, &[82, 83]),
    (33, &[84, 85]),
    (34, &[86, 87]),
    (35, &[88, 89]),
    (11, &[36, 37]),
    (36, &[90, 91]),
    (37, &[92, 93]),
    (3, &[12, 13, 14]),
    (12, &[38, 39]),
    (38, &[94, 95]),
    (39, &[96, 97]),
    (13, &[40, 41, 42]),
    (40, &[98, 99]),
    (41, &[100]),
    (42, &[101, 102]),
    (14, &[43, 44]),
    (43, &[103]),
    (44, &[104, 105]),
    (4, &[15, 16]),
    (15, &[45, 46]),
    (45, &[106, 107]),
    (46, &[108, 109]),
    (16, &[47, 48]),
    (47, &[110, 111]),
    (48, &[112, 113]),
    (5, &[17, 18]),
    (17, &[49, 50]),
    (49, &[114, 115]),
    (50, &[116, 117]),
    (18, &[51, 52]),
    (51, &[118]),
    (52, &[119, 120]),
    (6, &[19, 20]),
    (19, &[53, 54, 55]),
    (53, &[121]),
    (54, &[122]),
    (55, &[123, 124]),
    (20, &[56, 57]),
];

fn region(id: u8) -> Region {
    let children: &[u8] = HIERARCHY
        .iter()
        .find(|(p, _)| *p == id)
        .map(|(_, c)| *c)
        .unwrap_or(&[]);
    Region { id, subregions: children.iter().map(|c| region(*c)).collect() }
}

fn root_region() -> Region {
    region(0)
}

#[allow(clippy::too_many_arguments)]
fn offer(
    id: &str,
    region_id: u8,
    start: i64,
    end: i64,
    seats: u32,
    price: u32,
    car_type: CarType,
    vollkasko: bool,
    km: u32,
) -> Offer {
    Offer {
        id: id.to_string(),
        data: format!("data-{}", id),
        region_id,
        start_date: start,
        end_date: end,
        number_seats: seats,
        price,
        car_type,
        has_vollkasko: vollkasko,
        free_kilometers: km,
        idx: 0,
    }
}

fn simple(id: &str, region_id: u8, price: u32) -> Offer {
    offer(id, region_id, 0, DAY, 4, price, CarType::Small, true, 100)
}

fn request(region_id: u8, number_days: u64, start: i64, end: i64) -> RequestOffer {
    RequestOffer {
        region_id,
        time_range_start: start,
        time_range_end: end,
        number_days,
        sort_order: SortOrder::PriceAsc,
        page: 0,
        page_size: 10,
        price_range_width: 500,
        min_free_kilometer_width: 50,
        min_number_seats: None,
        min_price: None,
        max_price: None,
        car_type: None,
        only_vollkasko: None,
        min_free_kilometer: None,
    }
}

fn db_with(offers: Vec<Offer>) -> DBManager {
    let mut db = DBManager::new(&root_region());
    for o in offers {
        db.insert_offer(o).unwrap();
    }
    db
}

fn ids(body: &GetReponseBodyModel) -> Vec<String> {
    body.offers.iter().map(|o| o.id.clone()).collect()
}

#[test]
fn it_should_work() {
    let root = root_region();
    let mut tree = RegionTree::populate_with_regions(&root);
    assert_eq!(tree.get_available_offers(0), Vec::<u32>::new());

    tree.insert_offer(0, 1);
    tree.insert_offer(1, 2);
    tree.insert_offer(2, 3);
    tree.insert_offer(3, 4);
    tree.insert_offer(4, 5);

    assert_eq!(tree.get_available_offers(0), vec![1, 2, 3, 4, 5]);
    assert_eq!(tree.get_available_offers(1), vec![2]);
    assert_eq!(tree.get_available_offers(2), vec![3]);
    assert_eq!(tree.get_available_offers(3), vec![4]);
    assert_eq!(tree.get_available_offers(4), vec![5]);
    assert_eq!(tree.get_available_offers(5), Vec::<u32>::new());
}

#[test]
fn populate_lists_children_in_order() {
    let tree = RegionTree::populate_with_regions(&root_region());
    assert_eq!(tree.regions.len(), 125);
    assert_eq!(tree.regions[0].sub_regions, vec![1, 2, 3, 4, 5, 6]);
    assert_eq!(tree.regions[10].sub_regions, vec![31, 32, 33, 34, 35]);
    assert!(tree.regions[124].sub_regions.is_empty());
    assert_eq!(tree.regions[7].sub_regions, vec![21, 22, 23]);
    assert_eq!(tree.regions[41].sub_regions, vec![100]);
    assert!(tree.regions[58].sub_regions.is_empty());
}

#[test]
fn description_checks() {
    assert!(check_description(&root_region()));
    let leaf = |id: u8| Region { id, subregions: Vec::new() };
    assert!(check_description(&Region { id: 3, subregions: vec![leaf(4), leaf(9)] }));
    assert!(!check_description(&Region { id: 3, subregions: vec![leaf(2)] }));
    assert!(!check_description(&Region { id: 3, subregions: vec![leaf(125)] }));
    assert!(!check_description(&Region { id: 125, subregions: Vec::new() }));
    let dup = Region {
        id: 0,
        subregions: vec![Region { id: 1, subregions: vec![leaf(5)] }, Region { id: 2, subregions: vec![leaf(5)] }],
    };
    assert!(!check_description(&dup));
}

#[test]
fn subtree_collects_descendants_in_preorder() {
    let mut tree = RegionTree::populate_with_regions(&root_region());
    tree.insert_offer(58, 10);
    tree.insert_offer(7, 11);
    tree.insert_offers(21, vec![12, 13]);
    tree.insert_offer(8, 14);
    assert_eq!(tree.get_available_offers(7), vec![11, 12, 13, 10]);
    assert_eq!(tree.get_available_offers(1), vec![11, 12, 13, 10, 14]);
    assert_eq!(tree.get_available_offers(21), vec![12, 13, 10]);
    assert_eq!(tree.get_available_offers(2), Vec::<u32>::new());
    assert_eq!(tree.get_available_offers(200), Vec::<u32>::new());
    tree.clear_offers();
    assert_eq!(tree.get_available_offers(0), Vec::<u32>::new());
}

#[test]
fn single_offer_query() {
    let db = db_with(vec![offer("A", 58, 0, DAY, 4, 1000, CarType::Small, true, 100)]);
    let body = db.query_for(request(0, 1, 0, DAY)).unwrap();
    assert_eq!(ids(&body), vec!["A".to_string()]);
    assert_eq!(body.offers[0].data, "data-A");
    assert_eq!(body.car_type_counts, CarTypeCount { small: 1, sports: 0, luxury: 0, family: 0 });
    assert_eq!(body.vollkasko_count, VollKaskoCount { true_count: 1, false_count: 0 });
    assert_eq!(body.price_ranges, vec![PriceRange { start: 1000, end: 1500, count: 1 }]);
    assert_eq!(body.free_kilometer_range, vec![FreeKilometerRange { start: 100, end: 150, count: 1 }]);
    assert_eq!(body.seats_count, vec![SeatCount { number_seats: 4, count: 1 }]);
}

#[test]
fn price_facet_ignores_price_filter() {
    let db = db_with(vec![simple("cheap", 58, 900), simple("dear", 58, 1100)]);
    let mut req = request(0, 1, 0, DAY);
    req.max_price = Some(1100);
    let body = db.query_for(req).unwrap();
    assert_eq!(ids(&body), vec!["cheap".to_string()]);
    assert_eq!(
        body.price_ranges,
        vec![
            PriceRange { start: 500, end: 1000, count: 1 },
            PriceRange { start: 1000, end: 1500, count: 1 },
        ]
    );
    assert_eq!(body.car_type_counts.small, 1);
}

#[test]
fn car_type_facet_ignores_car_type_filter() {
    let db = db_with(vec![
        offer("s", 58, 0, DAY, 4, 100, CarType::Small, false, 10),
        offer("p", 58, 0, DAY, 2, 200, CarType::Sports, false, 10),
    ]);
    let mut req = request(0, 1, 0, DAY);
    req.car_type = Some(CarType::Small);
    let body = db.query_for(req).unwrap();
    assert_eq!(ids(&body), vec!["s".to_string()]);
    assert_eq!(body.car_type_counts, CarTypeCount { small: 1, sports: 1, luxury: 0, family: 0 });
    assert_eq!(body.seats_count, vec![SeatCount { number_seats: 4, count: 1 }]);
    assert_eq!(body.vollkasko_count, VollKaskoCount { true_count: 0, false_count: 1 });
}

#[test]
fn region_subtree_query() {
    let db = db_with(vec![simple("a1", 7, 10), simple("a2", 7, 20), simple("b1", 21, 30)]);
    let at = |r: u8| ids(&db.query_for(request(r, 1, 0, DAY)).unwrap());
    assert_eq!(at(7), vec!["a1".to_string(), "a2".to_string(), "b1".to_string()]);
    assert_eq!(at(21), vec!["b1".to_string()]);
    assert_eq!(at(8), Vec::<String>::new());
}

#[test]
fn duration_filter() {
    let db = db_with(vec![offer("two", 58, 0, 2 * DAY, 4, 100, CarType::Family, true, 0)]);
    assert!(db.query_for(request(0, 1, 0, 2 * DAY)).unwrap().offers.is_empty());
    assert_eq!(ids(&db.query_for(request(0, 2, 0, 2 * DAY)).unwrap()), vec!["two".to_string()]);
}

#[test]
fn time_window_filter() {
    let db = db_with(vec![offer("w", 58, DAY, 2 * DAY, 4, 100, CarType::Family, true, 0)]);
    assert!(db.query_for(request(0, 1, DAY + 1, 3 * DAY)).unwrap().offers.is_empty());
    assert!(db.query_for(request(0, 1, 0, 2 * DAY - 1)).unwrap().offers.is_empty());
    assert_eq!(ids(&db.query_for(request(0, 1, DAY, 2 * DAY)).unwrap()), vec!["w".to_string()]);
}

#[test]
fn sort_and_paginate() {
    let db = db_with(vec![
        simple("b", 58, 10),
        simple("a", 58, 10),
        simple("c", 58, 20),
        simple("d", 58, 30),
    ]);
    let page = |order: SortOrder, p: u32| {
        let mut req = request(0, 1, 0, DAY);
        req.sort_order = order;
        req.page = p;
        req.page_size = 2;
        ids(&db.query_for(req).unwrap())
    };
    assert_eq!(page(SortOrder::PriceAsc, 0), vec!["a".to_string(), "b".to_string()]);
    assert_eq!(page(SortOrder::PriceAsc, 1), vec!["c".to_string(), "d".to_string()]);
    assert_eq!(page(SortOrder::PriceDesc, 0), vec!["d".to_string(), "c".to_string()]);
    assert_eq!(page(SortOrder::PriceDesc, 1), vec!["a".to_string(), "b".to_string()]);
    assert_eq!(page(SortOrder::PriceAsc, 2), Vec::<String>::new());
}

#[test]
fn pages_concatenate_to_full_list() {
    let prices = [50u32, 10, 40, 10, 30, 20, 20];
    let names = ["g", "f", "e", "d", "c", "b", "a"];
    let offers = names.iter().zip(prices.iter()).map(|(n, p)| simple(n, 58, *p)).collect();
    let db = db_with(offers);
    let mut all_req = request(0, 1, 0, DAY);
    all_req.page_size = 100;
    let full = ids(&db.query_for(all_req).unwrap());
    assert_eq!(full, vec!["d", "f", "a", "b", "c", "e", "g"]);
    let mut joined = Vec::new();
    for p in 0..3 {
        let mut req = request(0, 1, 0, DAY);
        req.page = p;
        req.page_size = 3;
        joined.extend(ids(&db.query_for(req).unwrap()));
    }
    assert_eq!(joined, full);
}

#[test]
fn id_tie_break_is_bytewise() {
    let db = db_with(vec![simple("b", 58, 5), simple("ab", 58, 5), simple("a", 58, 5)]);
    let mut req = request(0, 1, 0, DAY);
    req.sort_order = SortOrder::PriceDesc;
    assert_eq!(ids(&db.query_for(req).unwrap()), vec!["a", "ab", "b"]);
    assert!(bytes_less(b"a", b"ab"));
    assert!(bytes_less(b"ab", b"b"));
    assert!(!bytes_less(b"b", b"b"));
}

#[test]
fn cleanup_empties_every_query() {
    let mut db = db_with(vec![simple("x", 58, 10), simple("y", 7, 20)]);
    db.cleanup();
    let body = db.query_for(request(0, 1, 0, DAY)).unwrap();
    assert!(body.offers.is_empty());
    assert!(body.price_ranges.is_empty());
    assert!(body.seats_count.is_empty());
    assert!(body.free_kilometer_range.is_empty());
    assert_eq!(body.car_type_counts, CarTypeCount { small: 0, sports: 0, luxury: 0, family: 0 });
    assert_eq!(body.vollkasko_count, VollKaskoCount { true_count: 0, false_count: 0 });
    db.cleanup();
    assert!(db.query_for(request(7, 1, 0, DAY)).unwrap().offers.is_empty());
    assert_eq!(db.insert_offer(simple("z", 58, 1)), Ok(0));
    assert_eq!(ids(&db.query_for(request(0, 1, 0, DAY)).unwrap()), vec!["z".to_string()]);
}

#[test]
fn unfiltered_query_returns_candidates() {
    let db = db_with(vec![
        offer("in", 60, 0, DAY, 9, 7, CarType::Luxury, false, 0),
        offer("long", 60, 0, 3 * DAY, 9, 7, CarType::Luxury, false, 0),
        offer("other", 100, 0, DAY, 9, 7, CarType::Luxury, false, 0),
        offer("in2", 22, 0, DAY, 1, 3, CarType::Family, true, 5),
    ]);
    let body = db.query_for(request(7, 1, 0, DAY)).unwrap();
    assert_eq!(ids(&body), vec!["in2".to_string(), "in".to_string()]);
}

#[test]
fn evaluate_follows_all_but_self() {
    let o = offer("o", 58, 0, DAY, 4, 1000, CarType::Small, false, 100);
    let mut req = request(0, 1, 0, DAY);
    let c = evaluate(&o, &req);
    assert!(c.listed && c.seats && c.car_type && c.vollkasko && c.free_kilometers && c.price);
    req.only_vollkasko = Some(true);
    let c = evaluate(&o, &req);
    assert!(!c.listed && c.vollkasko && !c.seats && !c.car_type && !c.price && !c.free_kilometers);
    req.min_number_seats = Some(5);
    let c = evaluate(&o, &req);
    assert!(!c.listed && !c.vollkasko && !c.seats && !c.car_type && !c.price && !c.free_kilometers);
    let mut req = request(0, 1, 0, DAY);
    req.min_price = Some(1000);
    assert!(evaluate(&o, &req).listed);
    req.min_price = Some(1001);
    let c = evaluate(&o, &req);
    assert!(!c.listed && c.price);
}

#[test]
fn filters_on_seats_and_kilometers() {
    let db = db_with(vec![
        offer("small", 58, 0, DAY, 2, 100, CarType::Small, true, 30),
        offer("big", 58, 0, DAY, 7, 100, CarType::Small, true, 120),
    ]);
    let mut req = request(0, 1, 0, DAY);
    req.min_number_seats = Some(5);
    req.min_free_kilometer = Some(100);
    let body = db.query_for(req).unwrap();
    assert_eq!(ids(&body), vec!["big".to_string()]);
    assert_eq!(
        body.seats_count,
        vec![SeatCount { number_seats: 7, count: 1 }]
    );
    assert_eq!(
        body.free_kilometer_range,
        vec![FreeKilometerRange { start: 100, end: 150, count: 1 }]
    );
    let mut req = request(0, 1, 0, DAY);
    req.min_number_seats = Some(5);
    let body = db.query_for(req).unwrap();
    assert_eq!(
        body.seats_count,
        vec![SeatCount { number_seats: 2, count: 1 }, SeatCount { number_seats: 7, count: 1 }]
    );
    assert_eq!(
        body.free_kilometer_range,
        vec![FreeKilometerRange { start: 100, end: 150, count: 1 }]
    );
}

#[test]
fn unknown_region_gives_empty_result() {
    let db = db_with(vec![simple("x", 58, 10)]);
    let body = db.query_for(request(125, 1, 0, DAY)).unwrap();
    assert!(body.offers.is_empty());
    assert!(body.price_ranges.is_empty());
    assert_eq!(body.car_type_counts, CarTypeCount { small: 0, sports: 0, luxury: 0, family: 0 });
}

#[test]
fn invalid_requests_are_refused() {
    let db = db_with(vec![simple("x", 58, 10)]);
    let mut req = request(0, 1, 0, DAY);
    req.page_size = 0;
    assert_eq!(db.query_for(req).unwrap_err(), QueryError::Validation);
    let mut req = request(0, 1, 0, DAY);
    req.price_range_width = 0;
    assert_eq!(db.query_for(req).unwrap_err(), QueryError::Validation);
    let mut req = request(0, 1, 0, DAY);
    req.min_free_kilometer_width = 0;
    assert_eq!(db.query_for(req).unwrap_err(), QueryError::Validation);
}

#[test]
fn invalid_offers_are_refused() {
    let mut db = DBManager::new(&root_region());
    assert_eq!(
        db.insert_offer(offer("t", 58, DAY, DAY, 4, 1, CarType::Small, true, 0)),
        Err(InsertError::InvalidTimeRange)
    );
    assert_eq!(db.insert_offer(simple("r", 125, 1)), Err(InsertError::UnknownRegion));
    assert_eq!(db.insert_offer(simple("ok", 124, 1)), Ok(0));
    assert_eq!(db.insert_offer(simple("ok2", 0, 1)), Ok(1));
    assert_eq!(db.dense_store.all[1].idx, 1);
}

#[test]
fn bucket_start_values() {
    assert_eq!(bucket_start(1234, 500), 1000);
    assert_eq!(bucket_start(999, 500), 500);
    assert_eq!(bucket_start(500, 500), 500);
    assert_eq!(bucket_start(0, 7), 0);
    assert_eq!(bucket_start(u32::MAX, 1), u32::MAX);
    assert_eq!(bucket_start(u32::MAX, 10), 4_294_967_290);
}

#[test]
fn price_histogram_of_offers() {
    let offers = vec![simple("a", 0, 1200), simple("b", 0, 40), simple("c", 0, 1499)];
    assert_eq!(
        DBManager::to_price_ranges_offers(&offers, 500),
        vec![
            PriceRange { start: 0, end: 500, count: 1 },
            PriceRange { start: 1000, end: 1500, count: 2 },
        ]
    );
    assert_eq!(
        DBManager::to_free_kilometers_offers(&offers, 30),
        vec![FreeKilometerRange { start: 90, end: 120, count: 3 }]
    );
}

#[test]
fn seat_and_type_counts_of_offers() {
    let offers = vec![
        offer("a", 0, 0, DAY, 2, 1, CarType::Sports, true, 0),
        offer("b", 0, 0, DAY, 5, 1, CarType::Family, false, 0),
        offer("c", 0, 0, DAY, 5, 1, CarType::Family, false, 0),
    ];
    assert_eq!(
        DBManager::to_seat_number_offers(&offers),
        vec![SeatCount { number_seats: 2, count: 1 }, SeatCount { number_seats: 5, count: 2 }]
    );
    assert_eq!(
        DBManager::to_car_type_count(&offers),
        CarTypeCount { small: 0, sports: 1, luxury: 0, family: 2 }
    );
    assert_eq!(
        DBManager::to_vollkasko_offers(&offers),
        VollKaskoCount { true_count: 1, false_count: 2 }
    );
    let mut req = request(0, 1, 0, DAY);
    assert_eq!(
        DBManager::get_car_type_count(&offers, &Vec::new(), &req),
        CarTypeCount { small: 0, sports: 1, luxury: 0, family: 2 }
    );
    req.car_type = Some(CarType::Luxury);
    let excluded = vec![offer("d", 0, 0, DAY, 2, 1, CarType::Small, true, 0)];
    assert_eq!(
        DBManager::get_car_type_count(&offers, &excluded, &req),
        CarTypeCount { small: 1, sports: 0, luxury: 3, family: 0 }
    );
}

#[test]
fn car_type_equality() {
    assert!(CarType::Small.eq_me(&CarType::Small));
    assert!(!CarType::Small.eq_me(&CarType::Family));
}
