//! Facts about whole queries: the order of the result list, paging,
//! queries after a cleanup and queries without optional filters.
use vstd::prelude::*;
use crate::db_manager::{DBManager, in_window};
use crate::models::{RequestOffer, offer_days};
use crate::ordering::{is_sorted_by, lemma_pages_concat, lemma_sort_by_price, page_of, pages_upto};
use crate::region_hierarchy::{
    REGION_COUNT, lemma_direct_offers_contains, lemma_subtree_regions_range,
    lemma_subtree_transitivity, subtree_offers, subtree_regions,
};

verus! {

/// The result list is in result order, and holds each matching offer once.
pub proof fn lemma_result_order(db: DBManager, req: RequestOffer)
    ensures
        is_sorted_by(db.offers(), req.sort_order, db.sorted_matches(req)),
        db.sorted_matches(req).to_multiset() == db.matches(req).to_multiset(),
{
    lemma_sort_by_price(db.offers(), req.sort_order, db.matches(req));
}

/// Taking the pages of one request in turn, until they cover the result
/// list, gives back the whole list in order, with no offer repeated or left
/// out.
pub proof fn lemma_pagination(db: DBManager, req: RequestOffer, n: nat)
    requires
        req.page_size > 0,
        n * req.page_size >= db.sorted_matches(req).len(),
    ensures
        pages_upto(db.sorted_matches(req), req.page_size as int, n) == db.sorted_matches(req),
{
    lemma_pages_concat(db.sorted_matches(req), req.page_size as int, n);
    assert(db.sorted_matches(req).subrange(0, db.sorted_matches(req).len() as int) =~= db.sorted_matches(req));
}

proof fn lemma_filter_drops_all(s: Seq<u32>, p: spec_fn(u32) -> bool)
    requires
        forall|i: int| 0 <= i < s.len() ==> !p(#[trigger] s[i]),
    ensures
        s.filter(p) == Seq::<u32>::empty(),
    decreases s.len(),
{
    reveal(Seq::filter);
    if s.len() > 0 {
        lemma_filter_drops_all(s.drop_last(), p);
    }
}

proof fn lemma_page_of_empty(s: Seq<u32>, page: int, size: int)
    requires
        s.len() == 0,
        page >= 0,
        size >= 0,
    ensures
        page_of(s, page, size) == s,
{
    assert(page * size >= 0) by (nonlinear_arith)
        requires
            page >= 0,
            size >= 0,
    ;
    assert(page_of(s, page, size) =~= s);
}

/// Once everything is removed, every request has no candidates, so its
/// page is empty and every facet is zero.
pub proof fn lemma_cleared_queries_empty(db: DBManager, req: RequestOffer)
    requires
        db.is_cleared(),
    ensures
        db.candidates(req) == Seq::<u32>::empty(),
        db.page_matches(req) == Seq::<u32>::empty(),
{
    let sub = subtree_offers(db.region_tree.regions@, req.region_id as int);
    let bucket = db.days_index.bucket(req.number_days as int);
    assert(bucket == Seq::<u32>::empty());
    lemma_filter_drops_all(sub, |i: u32| bucket.contains(i));
    lemma_filter_drops_all(Seq::<u32>::empty(), db.window_filter(req));
    lemma_filter_drops_all(Seq::<u32>::empty(), db.match_filter(req));
    assert(db.sorted_matches(req) == Seq::<u32>::empty());
    lemma_page_of_empty(db.sorted_matches(req), req.page as int, req.page_size as int);
}

/// An offer is registered in a region's subtree exactly when it is stored
/// and its own region is one of the subtree's regions.
pub proof fn lemma_subtree_by_region(db: DBManager, r: int, x: u32)
    requires
        db.wf(),
    ensures
        subtree_offers(db.region_tree.regions@, r).contains(x) <==> (x < db.offers().len()
            && subtree_regions(db.region_tree.regions@, r).contains(
            db.offers()[x as int].region_id as int,
        )),
{
    let regions = db.region_tree.regions@;
    let ids = subtree_regions(regions, r);
    lemma_subtree_transitivity(regions, r);
    lemma_direct_offers_contains(regions, ids, x);
    lemma_subtree_regions_range(regions, r);
    if subtree_offers(regions, r).contains(x) {
        let j = choose|j: int| 0 <= j < ids.len() && #[trigger] regions[ids[j]].offers@.contains(x);
        let k = choose|k: int| 0 <= k < regions[ids[j]].offers@.len() && regions[ids[j]].offers@[k] == x;
        assert(0 <= ids[j] < REGION_COUNT);
        assert(regions[ids[j]].offers@[k] == x);
        assert(ids[j] == db.offers()[x as int].region_id as int);
    }
    if x < db.offers().len() && ids.contains(db.offers()[x as int].region_id as int) {
        let j = choose|j: int| 0 <= j < ids.len() && ids[j] == db.offers()[x as int].region_id as int;
        assert(regions[db.offers()[x as int].region_id as int].offers@.contains(x as int as u32));
        assert(regions[ids[j]].offers@.contains(x));
    }
}

/// Whether a request sets none of the optional filters.
pub open spec fn unfiltered(req: RequestOffer) -> bool {
    &&& req.min_number_seats is None
    &&& req.min_price is None
    &&& req.max_price is None
    &&& req.car_type is None
    &&& req.only_vollkasko is None
    &&& req.min_free_kilometer is None
}

proof fn lemma_filter_keeps_all(s: Seq<u32>, p: spec_fn(u32) -> bool)
    requires
        forall|i: int| 0 <= i < s.len() ==> p(#[trigger] s[i]),
    ensures
        s.filter(p) == s,
    decreases s.len(),
{
    reveal(Seq::filter);
    if s.len() > 0 {
        lemma_filter_keeps_all(s.drop_last(), p);
        assert(s.drop_last().push(s.last()) =~= s);
    }
}

/// A request without optional filters matches exactly its candidates: the
/// stored offers whose region lies in the requested region's subtree, with
/// the requested duration and a rental within the time range.
pub proof fn lemma_unfiltered_query(db: DBManager, req: RequestOffer, x: u32)
    requires
        db.wf(),
        unfiltered(req),
    ensures
        db.matches(req) == db.candidates(req),
        db.candidates(req).contains(x) <==> {
            &&& x < db.offers().len()
            &&& subtree_regions(db.region_tree.regions@, req.region_id as int).contains(
                db.offers()[x as int].region_id as int,
            )
            &&& offer_days(db.offers()[x as int]) == req.number_days
            &&& in_window(db.offers()[x as int], req)
        },
{
    lemma_filter_keeps_all(db.candidates(req), db.match_filter(req));
    lemma_subtree_by_region(db, req.region_id as int, x);
    let sub = subtree_offers(db.region_tree.regions@, req.region_id as int);
    let bucket_pred = |i: u32| db.days_index.bucket(req.number_days as int).contains(i);
    let dm = db.day_matched(req);
    let cands = db.candidates(req);
    if cands.contains(x) {
        let k = choose|k: int| 0 <= k < cands.len() && cands[k] == x;
        dm.lemma_filter_pred(db.window_filter(req), k);
        dm.lemma_filter_contains_rev(db.window_filter(req), x);
        let j = choose|j: int| 0 <= j < dm.len() && dm[j] == x;
        sub.lemma_filter_pred(bucket_pred, j);
        sub.lemma_filter_contains_rev(bucket_pred, x);
    }
    if sub.contains(x) && x < db.offers().len() && offer_days(db.offers()[x as int])
        == req.number_days && in_window(db.offers()[x as int], req) {
        let i = choose|i: int| 0 <= i < sub.len() && sub[i] == x;
        assert(bucket_pred(sub[i]));
        sub.lemma_filter_contains(bucket_pred, i);
        let j = choose|j: int| 0 <= j < dm.len() && dm[j] == x;
        dm.lemma_filter_contains(db.window_filter(req), j);
    }
}

} // verus!
