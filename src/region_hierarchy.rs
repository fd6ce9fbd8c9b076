//! The fixed region hierarchy and the offers registered directly at each
//! region.
use vstd::prelude::*;

verus! {

/// Number of regions in the hierarchy; region ids are `0..REGION_COUNT`.
pub const REGION_COUNT: usize = 125;

/// A node of the region description: an id and its subregions in order.
#[derive(Debug)]
pub struct Region {
    pub id: u8,
    pub subregions: Vec<Region>,
}

/// One entry of the region table.
#[derive(Clone, Debug)]
pub struct RegionTreeElement {
    /// Indices of the offers registered at exactly this region.
    pub offers: Vec<u32>,
    /// Ids of the direct subregions, in declared order.
    pub sub_regions: Vec<u8>,
}

/// The region table, indexed by region id.
#[derive(Clone, Debug)]
pub struct RegionTree {
    pub regions: Vec<RegionTreeElement>,
}

/// The offers of region `r` and of all its descendants: the region's own
/// offers first, then those of each subregion's subtree in declared order.
/// A child id that does not lie above its parent's id names no subtree.
pub open spec fn subtree_offers(regions: Seq<RegionTreeElement>, r: int) -> Seq<u32>
    decreases REGION_COUNT - r, 1int, 0int,
{
    if 0 <= r < REGION_COUNT && r < regions.len() {
        regions[r].offers@ + children_offers(regions, r, regions[r].sub_regions@.len() as int)
    } else {
        Seq::empty()
    }
}

/// The offers of the subtrees of the first `k` subregions of region `r`.
pub open spec fn children_offers(regions: Seq<RegionTreeElement>, r: int, k: int) -> Seq<u32>
    decreases REGION_COUNT - r, 0int, k,
{
    if 0 <= r < REGION_COUNT && r < regions.len() && 0 < k <= regions[r].sub_regions@.len() {
        let c = regions[r].sub_regions@[k - 1] as int;
        children_offers(regions, r, k - 1) + if r < c < REGION_COUNT {
            subtree_offers(regions, c)
        } else {
            Seq::empty()
        }
    } else {
        Seq::empty()
    }
}

/// The ids of region `r` and of all its descendants, in pre-order.
pub open spec fn subtree_regions(regions: Seq<RegionTreeElement>, r: int) -> Seq<int>
    decreases REGION_COUNT - r, 1int, 0int,
{
    if 0 <= r < REGION_COUNT && r < regions.len() {
        seq![r] + children_regions(regions, r, regions[r].sub_regions@.len() as int)
    } else {
        Seq::empty()
    }
}

/// The ids in the subtrees of the first `k` subregions of region `r`.
pub open spec fn children_regions(regions: Seq<RegionTreeElement>, r: int, k: int) -> Seq<int>
    decreases REGION_COUNT - r, 0int, k,
{
    if 0 <= r < REGION_COUNT && r < regions.len() && 0 < k <= regions[r].sub_regions@.len() {
        let c = regions[r].sub_regions@[k - 1] as int;
        children_regions(regions, r, k - 1) + if r < c < REGION_COUNT {
            subtree_regions(regions, c)
        } else {
            Seq::empty()
        }
    } else {
        Seq::empty()
    }
}

/// The direct offers of the listed regions, one list after the other.
pub open spec fn direct_offers_of(regions: Seq<RegionTreeElement>, ids: Seq<int>) -> Seq<u32>
    decreases ids.len(),
{
    if ids.len() == 0 {
        Seq::empty()
    } else {
        direct_offers_of(regions, ids.drop_last()) + regions[ids.last()].offers@
    }
}

proof fn lemma_direct_offers_of_concat(regions: Seq<RegionTreeElement>, a: Seq<int>, b: Seq<int>)
    ensures
        direct_offers_of(regions, a + b) == direct_offers_of(regions, a) + direct_offers_of(
            regions,
            b,
        ),
    decreases b.len(),
{
    if b.len() == 0 {
        assert(a + b =~= a);
    } else {
        lemma_direct_offers_of_concat(regions, a, b.drop_last());
        assert((a + b).drop_last() =~= a + b.drop_last());
    }
}

/// The offers of a subtree are the direct offers of the subtree's regions,
/// region by region in pre-order: each offer occurs as often as it is
/// registered at the region or at one of its transitive descendants.
pub proof fn lemma_subtree_transitivity(regions: Seq<RegionTreeElement>, r: int)
    ensures
        subtree_offers(regions, r) == direct_offers_of(regions, subtree_regions(regions, r)),
    decreases REGION_COUNT - r, 1int, 0int,
{
    if 0 <= r < REGION_COUNT && r < regions.len() {
        let k = regions[r].sub_regions@.len() as int;
        lemma_children_transitivity(regions, r, k);
        lemma_direct_offers_of_concat(regions, seq![r], children_regions(regions, r, k));
        assert(seq![r].drop_last() =~= Seq::<int>::empty());
        assert(seq![r].last() == r);
        assert(direct_offers_of(regions, Seq::<int>::empty()) == Seq::<u32>::empty());
        assert(direct_offers_of(regions, seq![r]) =~= regions[r].offers@);
    }
}

/// The subtrees of the first `k` subregions, as in `lemma_subtree_transitivity`.
pub proof fn lemma_children_transitivity(regions: Seq<RegionTreeElement>, r: int, k: int)
    ensures
        children_offers(regions, r, k) == direct_offers_of(regions, children_regions(regions, r, k)),
    decreases REGION_COUNT - r, 0int, k,
{
    if 0 <= r < REGION_COUNT && r < regions.len() && 0 < k <= regions[r].sub_regions@.len() {
        let c = regions[r].sub_regions@[k - 1] as int;
        lemma_children_transitivity(regions, r, k - 1);
        if r < c < REGION_COUNT {
            lemma_subtree_transitivity(regions, c);
            lemma_direct_offers_of_concat(
                regions,
                children_regions(regions, r, k - 1),
                subtree_regions(regions, c),
            );
        } else {
            assert(children_regions(regions, r, k - 1) + Seq::<int>::empty() =~= children_regions(
                regions,
                r,
                k - 1,
            ));
            assert(children_offers(regions, r, k - 1) + Seq::<u32>::empty() =~= children_offers(
                regions,
                r,
                k - 1,
            ));
        }
    }
}

/// An offer is among the direct offers of the listed regions exactly when
/// one of them holds it.
pub proof fn lemma_direct_offers_contains(regions: Seq<RegionTreeElement>, ids: Seq<int>, x: u32)
    ensures
        direct_offers_of(regions, ids).contains(x) <==> exists|j: int|
            0 <= j < ids.len() && #[trigger] regions[ids[j]].offers@.contains(x),
    decreases ids.len(),
{
    if ids.len() > 0 {
        let init = ids.drop_last();
        let prev = direct_offers_of(regions, init);
        let last = regions[ids.last()].offers@;
        lemma_direct_offers_contains(regions, init, x);
        if (prev + last).contains(x) {
            let k = choose|k: int| 0 <= k < (prev + last).len() && (prev + last)[k] == x;
            if k < prev.len() {
                assert(prev[k] == x);
                let j = choose|j: int| 0 <= j < init.len() && #[trigger] regions[init[j]].offers@.contains(x);
                assert(ids[j] == init[j]);
            } else {
                assert(last[k - prev.len()] == x);
                assert(regions[ids[ids.len() - 1]].offers@.contains(x));
            }
        }
        if exists|j: int| 0 <= j < ids.len() && #[trigger] regions[ids[j]].offers@.contains(x) {
            let j = choose|j: int| 0 <= j < ids.len() && #[trigger] regions[ids[j]].offers@.contains(x);
            if j < ids.len() - 1 {
                assert(regions[init[j]].offers@.contains(x));
                let k = choose|k: int| 0 <= k < prev.len() && prev[k] == x;
                assert((prev + last)[k] == x);
            } else {
                let k = choose|k: int| 0 <= k < last.len() && last[k] == x;
                assert((prev + last)[prev.len() + k] == x);
            }
        }
    }
}

/// The regions of a subtree are ids of the table.
pub proof fn lemma_subtree_regions_range(regions: Seq<RegionTreeElement>, r: int)
    ensures
        forall|i: int| 0 <= i < subtree_regions(regions, r).len() ==> 0 <= #[trigger] subtree_regions(regions, r)[i] < REGION_COUNT,
    decreases REGION_COUNT - r, 1int, 0int,
{
    if 0 <= r < REGION_COUNT && r < regions.len() {
        let k = regions[r].sub_regions@.len() as int;
        lemma_children_regions_range(regions, r, k);
        let c = children_regions(regions, r, k);
        assert forall|i: int| 0 <= i < subtree_regions(regions, r).len() implies 0 <= #[trigger] subtree_regions(regions, r)[i] < REGION_COUNT by {
            if i > 0 {
                assert(subtree_regions(regions, r)[i] == c[i - 1]);
            }
        }
    }
}

/// The regions of the first `k` subregions' subtrees are ids of the table.
pub proof fn lemma_children_regions_range(regions: Seq<RegionTreeElement>, r: int, k: int)
    ensures
        forall|i: int| 0 <= i < children_regions(regions, r, k).len() ==> 0 <= #[trigger] children_regions(regions, r, k)[i] < REGION_COUNT,
    decreases REGION_COUNT - r, 0int, k,
{
    if 0 <= r < REGION_COUNT && r < regions.len() && 0 < k <= regions[r].sub_regions@.len() {
        let c = regions[r].sub_regions@[k - 1] as int;
        lemma_children_regions_range(regions, r, k - 1);
        let p = children_regions(regions, r, k - 1);
        if r < c < REGION_COUNT {
            lemma_subtree_regions_range(regions, c);
            let t = subtree_regions(regions, c);
            assert forall|i: int| 0 <= i < children_regions(regions, r, k).len() implies 0 <= #[trigger] children_regions(regions, r, k)[i] < REGION_COUNT by {
                if i < p.len() {
                    assert(children_regions(regions, r, k)[i] == p[i]);
                } else {
                    assert(children_regions(regions, r, k)[i] == t[i - p.len()]);
                }
            }
        } else {
            assert(children_regions(regions, r, k) =~= p);
        }
    }
}

/// The ids of a region's direct subregions, in declared order.
pub open spec fn child_ids(region: Region) -> Seq<u8> {
    region.subregions@.map_values(|s: Region| s.id)
}

/// The `k`-th subregion lies above its parent's id and below `REGION_COUNT`.
pub open spec fn child_in_order(region: Region, k: int) -> bool {
    &&& 0 <= k < region.subregions@.len()
    &&& region.id < region.subregions@[k].id
    &&& (region.subregions@[k].id as int) < REGION_COUNT
}

/// Whether `id` is the id of `region` or of one of its descendants, along
/// paths of ascending ids below `REGION_COUNT`.
pub open spec fn in_description(region: Region, id: int) -> bool
    decreases REGION_COUNT - region.id, 1int, 0int,
{
    region.id == id || ((region.id as int) < REGION_COUNT && in_subregions(
        region,
        region.subregions@.len() as int,
        id,
    ))
}

/// Whether `id` lies in the description of one of the first `k` subregions.
pub open spec fn in_subregions(region: Region, k: int, id: int) -> bool
    decreases REGION_COUNT - region.id, 0int, k,
{
    if (region.id as int) < REGION_COUNT && 0 < k <= region.subregions@.len() {
        in_subregions(region, k - 1, id) || (child_in_order(region, k - 1) && in_description(
            region.subregions@[k - 1],
            id,
        ))
    } else {
        false
    }
}

/// A description the table can be built from: ids below `REGION_COUNT`,
/// each subregion's id above its parent's, and no id used twice (the
/// subtrees of two siblings share no id).
pub open spec fn description_valid(region: Region) -> bool
    decreases REGION_COUNT - region.id, 1int, 0int,
{
    &&& (region.id as int) < REGION_COUNT
    &&& subregions_valid(region, region.subregions@.len() as int)
    &&& forall|i: int, j: int, id: int|
        0 <= i < j < region.subregions@.len() ==> !(#[trigger] in_description(
            region.subregions@[i],
            id,
        ) && #[trigger] in_description(region.subregions@[j], id))
}

/// The first `k` subregions are in order and valid descriptions.
pub open spec fn subregions_valid(region: Region, k: int) -> bool
    decreases REGION_COUNT - region.id, 0int, k,
{
    if (region.id as int) < REGION_COUNT && 0 < k <= region.subregions@.len() {
        &&& subregions_valid(region, k - 1)
        &&& child_in_order(region, k - 1)
        &&& description_valid(region.subregions@[k - 1])
    } else {
        true
    }
}

/// Every region of the description lists exactly its subregions' ids, in
/// declared order.
pub open spec fn table_matches(regions: Seq<RegionTreeElement>, region: Region) -> bool
    decreases REGION_COUNT - region.id, 1int, 0int,
{
    &&& regions[region.id as int].sub_regions@ == child_ids(region)
    &&& ((region.id as int) < REGION_COUNT ==> subregions_match(
        regions,
        region,
        region.subregions@.len() as int,
    ))
}

/// The table matches the descriptions of the first `k` subregions.
pub open spec fn subregions_match(regions: Seq<RegionTreeElement>, region: Region, k: int) -> bool
    decreases REGION_COUNT - region.id, 0int, k,
{
    if (region.id as int) < REGION_COUNT && 0 < k <= region.subregions@.len() {
        &&& subregions_match(regions, region, k - 1)
        &&& (child_in_order(region, k - 1) ==> table_matches(regions, region.subregions@[k - 1]))
    } else {
        true
    }
}

proof fn lemma_in_subregions_elim(region: Region, k: int, id: int) -> (j: int)
    requires
        in_subregions(region, k, id),
    ensures
        0 <= j < k,
        child_in_order(region, j),
        in_description(region.subregions@[j], id),
    decreases k,
{
    if in_subregions(region, k - 1, id) {
        lemma_in_subregions_elim(region, k - 1, id)
    } else {
        k - 1
    }
}

proof fn lemma_in_subregions_intro(region: Region, k: int, j: int, id: int)
    requires
        (region.id as int) < REGION_COUNT,
        0 <= j < k <= region.subregions@.len(),
        child_in_order(region, j),
        in_description(region.subregions@[j], id),
    ensures
        in_subregions(region, k, id),
    decreases k,
{
    if j < k - 1 {
        lemma_in_subregions_intro(region, k - 1, j, id);
    }
}

/// An id in a subregion's description is in its parent's.
proof fn lemma_in_child(region: Region, j: int, id: int)
    requires
        (region.id as int) < REGION_COUNT,
        child_in_order(region, j),
        in_description(region.subregions@[j], id),
    ensures
        in_description(region, id),
{
    lemma_in_subregions_intro(region, region.subregions@.len() as int, j, id);
}

proof fn lemma_subregions_valid_at(region: Region, k: int, j: int)
    requires
        (region.id as int) < REGION_COUNT,
        subregions_valid(region, k),
        0 <= j < k <= region.subregions@.len(),
    ensures
        child_in_order(region, j),
        description_valid(region.subregions@[j]),
    decreases k,
{
    if j < k - 1 {
        lemma_subregions_valid_at(region, k - 1, j);
    }
}

proof fn lemma_subregions_match_at(regions: Seq<RegionTreeElement>, region: Region, k: int, j: int)
    requires
        (region.id as int) < REGION_COUNT,
        subregions_match(regions, region, k),
        0 <= j < k <= region.subregions@.len(),
        child_in_order(region, j),
    ensures
        table_matches(regions, region.subregions@[j]),
    decreases k,
{
    if j < k - 1 {
        lemma_subregions_match_at(regions, region, k - 1, j);
    }
}

proof fn lemma_subregions_match_intro(regions: Seq<RegionTreeElement>, region: Region, k: int)
    requires
        (region.id as int) < REGION_COUNT,
        0 <= k <= region.subregions@.len(),
        forall|j: int| 0 <= j < k && child_in_order(region, j) ==> #[trigger] table_matches(regions, region.subregions@[j]),
    ensures
        subregions_match(regions, region, k),
    decreases k,
{
    if k > 0 {
        lemma_subregions_match_intro(regions, region, k - 1);
        if child_in_order(region, k - 1) {
            assert(table_matches(regions, region.subregions@[k - 1]));
        }
    }
}

/// The ids of a valid description lie at or above its root's id and below
/// `REGION_COUNT`.
pub proof fn lemma_description_ids(region: Region, id: int)
    requires
        description_valid(region),
        in_description(region, id),
    ensures
        region.id <= id < REGION_COUNT,
    decreases REGION_COUNT - region.id,
{
    if region.id != id {
        let j = lemma_in_subregions_elim(region, region.subregions@.len() as int, id);
        lemma_subregions_valid_at(region, region.subregions@.len() as int, j);
        lemma_description_ids(region.subregions@[j], id);
    }
}

/// Whether a table matches a description depends only on the entries of the
/// description's ids.
proof fn lemma_table_frame(a: Seq<RegionTreeElement>, b: Seq<RegionTreeElement>, region: Region)
    requires
        description_valid(region),
        table_matches(a, region),
        forall|q: int| #[trigger] in_description(region, q) ==> a[q].sub_regions@ == b[q].sub_regions@,
    ensures
        table_matches(b, region),
    decreases REGION_COUNT - region.id,
{
    let n = region.subregions@.len() as int;
    assert(in_description(region, region.id as int));
    assert forall|j: int| 0 <= j < n && child_in_order(region, j) implies #[trigger] table_matches(
        b,
        region.subregions@[j],
    ) by {
        let sub = region.subregions@[j];
        lemma_subregions_valid_at(region, n, j);
        lemma_subregions_match_at(a, region, n, j);
        assert forall|q: int| #[trigger] in_description(sub, q) implies a[q].sub_regions@
            == b[q].sub_regions@ by {
            lemma_in_child(region, j, q);
        }
        lemma_table_frame(a, b, sub);
    }
    lemma_subregions_match_intro(b, region, n);
}

/// Whether `root` is a description the table can be built from.
pub fn check_description(root: &Region) -> (r: bool)
    ensures
        r == description_valid(*root),
{
    let mut seen: Vec<bool> = Vec::new();
    let mut i: usize = 0;
    while i < REGION_COUNT
        invariant
            i <= REGION_COUNT,
            seen@.len() == i,
            forall|q: int| 0 <= q < i ==> !(#[trigger] seen@[q]),
        decreases REGION_COUNT - i,
    {
        seen.push(false);
        i = i + 1;
    }
    proof {
        if description_valid(*root) {
            assert forall|q: int| #[trigger] in_description(*root, q) implies 0 <= q < REGION_COUNT
                && !seen@[q] by {
                lemma_description_ids(*root, q);
            }
        }
    }
    mark_description(root, &mut seen)
}

/// Walks a description, marking each id as seen; fails on an id out of
/// range or out of order, or on one seen before.
fn mark_description(region: &Region, seen: &mut Vec<bool>) -> (ok: bool)
    requires
        old(seen)@.len() == REGION_COUNT,
    ensures
        final(seen)@.len() == REGION_COUNT,
        ok == (description_valid(*region) && forall|q: int|
            #[trigger] in_description(*region, q) ==> 0 <= q < REGION_COUNT && !old(seen)@[q]),
        ok ==> forall|q: int|
            0 <= q < REGION_COUNT ==> #[trigger] final(seen)@[q] == (old(seen)@[q] || in_description(*region, q)),
    decreases region,
{
    let ghost start = seen@;
    if region.id as usize >= REGION_COUNT {
        return false;
    }
    if seen[region.id as usize] {
        proof {
            assert(in_description(*region, region.id as int));
        }
        return false;
    }
    seen.set(region.id as usize, true);
    let ghost n = region.subregions@.len() as int;
    let mut i: usize = 0;
    while i < region.subregions.len()
        invariant
            (region.id as int) < REGION_COUNT,
            n == region.subregions@.len(),
            0 <= i <= n,
            seen@.len() == REGION_COUNT,
            !start[region.id as int],
            start == old(seen)@,
            subregions_valid(*region, i as int),
            forall|q: int| 0 <= q < REGION_COUNT ==> #[trigger] seen@[q] == (start[q] || q == region.id || in_subregions(*region, i as int, q)),
            forall|q: int| #[trigger] in_subregions(*region, i as int, q) ==> 0 <= q < REGION_COUNT && !start[q] && q != region.id,
            forall|a: int, b: int, id: int|
                0 <= a < b < i ==> !(#[trigger] in_description(region.subregions@[a], id)
                    && #[trigger] in_description(region.subregions@[b], id)),
        decreases n - i,
    {
        let sub = &region.subregions[i];
        if region.id >= sub.id {
            proof {
                if description_valid(*region) {
                    lemma_subregions_valid_at(*region, n, i as int);
                }
            }
            return false;
        }
        let ghost before = seen@;
        let sub_ok = mark_description(sub, seen);
        if !sub_ok {
            proof {
                if description_valid(*region) && forall|q: int|
                    #[trigger] in_description(*region, q) ==> 0 <= q < REGION_COUNT && !start[q] {
                    lemma_subregions_valid_at(*region, n, i as int);
                    assert(description_valid(*sub));
                    assert(!(forall|q: int|
                        #[trigger] in_description(*sub, q) ==> 0 <= q < REGION_COUNT && !before[q]));
                    let q = choose|q: int| #[trigger] in_description(*sub, q) && !(0 <= q < REGION_COUNT && !before[q]);
                    lemma_description_ids(*sub, q);
                    lemma_in_child(*region, i as int, q);
                    assert(!start[q]);
                    assert(q != region.id);
                    assert(before[q]);
                    assert(in_subregions(*region, i as int, q));
                    if in_subregions(*region, i as int, q) {
                        let a = lemma_in_subregions_elim(*region, i as int, q);
                        assert(in_description(region.subregions@[a], q) && in_description(region.subregions@[i as int], q));
                    }
                    assert(false);
                }
            }
            return false;
        }
        proof {
            assert(child_in_order(*region, i as int)) by {
                lemma_description_ids(*sub, sub.id as int);
                assert(in_description(*sub, sub.id as int));
            }
            assert forall|q: int| 0 <= q < REGION_COUNT implies #[trigger] seen@[q] == (start[q] || q == region.id || in_subregions(*region, i + 1, q)) by {
                if in_description(*sub, q) {
                    lemma_in_subregions_intro(*region, i + 1, i as int, q);
                }
            }
            assert forall|q: int| #[trigger] in_subregions(*region, i + 1, q) implies 0 <= q < REGION_COUNT && !start[q] && q != region.id by {
                if !in_subregions(*region, i as int, q) {
                    assert(in_description(*sub, q));
                    assert(!before[q]);
                }
            }
            assert forall|a: int, b: int, id: int|
                0 <= a < b < i + 1 implies !(#[trigger] in_description(region.subregions@[a], id)
                    && #[trigger] in_description(region.subregions@[b], id)) by {
                if b == i && in_description(region.subregions@[a], id) && in_description(*sub, id) {
                    lemma_subregions_valid_at(*region, i as int, a);
                    lemma_in_subregions_intro(*region, i as int, a, id);
                }
            }
        }
        i = i + 1;
    }
    proof {
        assert forall|q: int| #[trigger] in_description(*region, q) implies 0 <= q < REGION_COUNT && !start[q] by {
            if q != region.id {
                assert(in_subregions(*region, n, q));
            }
        }
    }
    true
}

impl RegionTree {
    /// The table has one entry per region, and every subregion id lies above
    /// its parent's id and below `REGION_COUNT`.
    pub open spec fn wf(&self) -> bool {
        &&& self.regions@.len() == REGION_COUNT
        &&& forall|r: int, k: int|
            #![trigger self.regions@[r].sub_regions@[k]]
            0 <= r < REGION_COUNT && 0 <= k < self.regions@[r].sub_regions@.len() ==> r
                < self.regions@[r].sub_regions@[k] < REGION_COUNT
    }

    /// No offer is registered anywhere.
    pub open spec fn is_empty(&self) -> bool {
        forall|r: int| 0 <= r < self.regions@.len() ==> (#[trigger] self.regions@[r]).offers@.len() == 0
    }

    /// Both tables have the same hierarchy.
    pub open spec fn same_topology(&self, other: &RegionTree) -> bool {
        &&& self.regions@.len() == other.regions@.len()
        &&& forall|r: int|
            0 <= r < self.regions@.len() ==> (#[trigger] self.regions@[r]).sub_regions@
                == other.regions@[r].sub_regions@
    }

    /// Builds the table from a region description: each region of the
    /// description lists the ids of its subregions in declared order, the
    /// other regions list none, and no offers are registered.
    pub fn populate_with_regions(root: &Region) -> (tree: RegionTree)
        requires
            description_valid(*root),
        ensures
            tree.wf(),
            tree.is_empty(),
            table_matches(tree.regions@, *root),
            forall|q: int|
                0 <= q < REGION_COUNT && !in_description(*root, q) ==> (#[trigger] tree.regions@[q]).sub_regions@.len()
                    == 0,
    {
        let mut regions: Vec<RegionTreeElement> = Vec::new();
        let mut i: usize = 0;
        while i < REGION_COUNT
            invariant
                i <= REGION_COUNT,
                regions@.len() == i,
                forall|r: int|
                    0 <= r < i ==> (#[trigger] regions@[r]).offers@.len() == 0
                        && regions@[r].sub_regions@.len() == 0,
            decreases REGION_COUNT - i,
        {
            regions.push(RegionTreeElement { offers: Vec::new(), sub_regions: Vec::new() });
            i = i + 1;
        }
        let mut tree = RegionTree { regions };
        proof {
            assert forall|q: int| #[trigger] in_description(*root, q) implies tree.regions@[q].sub_regions@.len() == 0 by {
                lemma_description_ids(*root, q);
            }
        }
        tree.populate_with_regions_recursive(root);
        tree
    }

    fn populate_with_regions_recursive(&mut self, region: &Region)
        requires
            old(self).wf(),
            old(self).is_empty(),
            description_valid(*region),
            forall|q: int| #[trigger] in_description(*region, q) ==> old(self).regions@[q].sub_regions@.len() == 0,
        ensures
            final(self).wf(),
            final(self).is_empty(),
            table_matches(final(self).regions@, *region),
            forall|q: int|
                0 <= q < REGION_COUNT && !in_description(*region, q) ==> (#[trigger] final(self).regions@[q])
                    == old(self).regions@[q],
        decreases region,
    {
        let ghost ids = child_ids(*region);
        let ghost subs = region.subregions@;
        let ghost n = subs.len() as int;
        let mut i: usize = 0;
        proof {
            assert(in_description(*region, region.id as int));
            assert(ids.subrange(0, 0) =~= Seq::<u8>::empty());
            assert forall|k: int, q: int|
                0 <= k < n && #[trigger] in_description(subs[k], q)
                    implies self.regions@[q].sub_regions@.len() == 0 by {
                lemma_subregions_valid_at(*region, n, k);
                lemma_in_child(*region, k, q);
            }
        }
        while i < region.subregions.len()
            invariant
                self.wf(),
                self.is_empty(),
                description_valid(*region),
                subs == region.subregions@,
                n == subs.len(),
                ids == child_ids(*region),
                i <= n,
                self.regions@[region.id as int].sub_regions@ == ids.subrange(0, i as int),
                forall|k: int| 0 <= k < i && child_in_order(*region, k) ==> #[trigger] table_matches(self.regions@, subs[k]),
                forall|k: int, q: int|
                    i <= k < n && #[trigger] in_description(subs[k], q)
                        ==> self.regions@[q].sub_regions@.len() == 0,
                forall|q: int|
                    0 <= q < REGION_COUNT && !in_description(*region, q) ==> (#[trigger] self.regions@[q])
                        == old(self).regions@[q],
            decreases n - i,
        {
            let sub = &region.subregions[i];
            proof {
                lemma_subregions_valid_at(*region, n, i as int);
            }
            let ghost before = self.regions@;
            self.regions[region.id as usize].sub_regions.push(sub.id);
            proof {
                assert forall|q: int| #[trigger] in_description(*sub, q) implies self.regions@[q].sub_regions@.len() == 0 by {
                    lemma_description_ids(*sub, q);
                    assert(in_description(subs[i as int], q));
                }
            }
            let ghost pushed = self.regions@;
            self.populate_with_regions_recursive(sub);
            proof {
                let after = self.regions@;
                assert(!in_description(*sub, region.id as int)) by {
                    if in_description(*sub, region.id as int) {
                        lemma_description_ids(*sub, region.id as int);
                    }
                }
                assert(after[region.id as int].sub_regions@ =~= ids.subrange(0, i + 1));
                assert forall|k: int| 0 <= k < i + 1 && child_in_order(*region, k) implies #[trigger] table_matches(after, subs[k]) by {
                    if k < i {
                        assert forall|q: int| #[trigger] in_description(subs[k], q) implies before[q].sub_regions@
                            == after[q].sub_regions@ by {
                            lemma_subregions_valid_at(*region, n, k);
                            lemma_description_ids(subs[k], q);
                            if in_description(*sub, q) {
                                assert(in_description(subs[k], q) && in_description(subs[i as int], q));
                            }
                        }
                        lemma_subregions_valid_at(*region, n, k);
                        lemma_table_frame(before, after, subs[k]);
                    }
                }
                assert forall|k: int, q: int|
                    i + 1 <= k < n && #[trigger] in_description(subs[k], q)
                        implies after[q].sub_regions@.len() == 0 by {
                    if in_description(*sub, q) {
                        assert(in_description(subs[i as int], q) && in_description(subs[k], q));
                    }
                    lemma_subregions_valid_at(*region, n, k);
                    lemma_description_ids(subs[k], q);
                }
                assert forall|q: int|
                    0 <= q < REGION_COUNT && !in_description(*region, q) implies (#[trigger] after[q])
                        == old(self).regions@[q] by {
                    if in_description(*sub, q) {
                        lemma_in_child(*region, i as int, q);
                    }
                }
            }
            i = i + 1;
        }
        proof {
            assert(ids.subrange(0, i as int) =~= ids);
            lemma_subregions_match_intro(self.regions@, *region, n);
        }
    }

    /// The offers of the region's subtree; none for an id outside the table.
    pub fn get_available_offers(&self, region_id: u8) -> (r: Vec<u32>)
        requires
            self.wf(),
        ensures
            r@ == subtree_offers(self.regions@, region_id as int),
    {
        let mut out: Vec<u32> = Vec::new();
        if (region_id as usize) < REGION_COUNT {
            self.get_available_offers_recursive(region_id, &mut out);
        }
        assert(out@ =~= subtree_offers(self.regions@, region_id as int));
        out
    }

    fn get_available_offers_recursive(&self, region_id: u8, out: &mut Vec<u32>)
        requires
            self.wf(),
            (region_id as usize) < REGION_COUNT,
        ensures
            final(out)@ == old(out)@ + subtree_offers(self.regions@, region_id as int),
        decreases REGION_COUNT - region_id,
    {
        let ghost start = out@;
        let r = region_id as usize;
        let element = &self.regions[r];
        let mut j: usize = 0;
        while j < element.offers.len()
            invariant
                element == self.regions@[r as int],
                j <= element.offers@.len(),
                out@ == start + element.offers@.subrange(0, j as int),
            decreases element.offers@.len() - j,
        {
            out.push(element.offers[j]);
            j = j + 1;
            assert(out@ =~= start + element.offers@.subrange(0, j as int));
        }
        assert(element.offers@.subrange(0, j as int) =~= element.offers@);
        let mut k: usize = 0;
        while k < element.sub_regions.len()
            invariant
                self.wf(),
                r < REGION_COUNT,
                region_id as int == r,
                element == self.regions@[r as int],
                k <= element.sub_regions@.len(),
                out@ == start + element.offers@ + children_offers(self.regions@, r as int, k as int),
            decreases element.sub_regions@.len() - k,
        {
            let c = element.sub_regions[k];
            assert(r < c < REGION_COUNT);
            self.get_available_offers_recursive(c, out);
            k = k + 1;
            assert(out@ =~= start + element.offers@ + children_offers(self.regions@, r as int, k as int));
        }
    }

    /// Registers an offer directly at a region.
    pub fn insert_offer(&mut self, region_id: u8, offer_idx: u32)
        requires
            old(self).wf(),
            (region_id as usize) < REGION_COUNT,
        ensures
            final(self).wf(),
            final(self).same_topology(old(self)),
            final(self).regions@[region_id as int].offers@ == old(self).regions@[region_id as int].offers@.push(offer_idx),
            forall|r: int| 0 <= r < REGION_COUNT && r != region_id ==> (#[trigger] final(self).regions@[r]).offers@ == old(self).regions@[r].offers@,
    {
        self.regions[region_id as usize].offers.push(offer_idx);
    }

    /// Registers several offers directly at a region, in the given order.
    pub fn insert_offers(&mut self, region_id: u8, offer_idxs: Vec<u32>)
        requires
            old(self).wf(),
            (region_id as usize) < REGION_COUNT,
        ensures
            final(self).wf(),
            final(self).same_topology(old(self)),
            final(self).regions@[region_id as int].offers@ == old(self).regions@[region_id as int].offers@ + offer_idxs@,
            forall|r: int| 0 <= r < REGION_COUNT && r != region_id ==> (#[trigger] final(self).regions@[r]).offers@ == old(self).regions@[r].offers@,
    {
        let ghost start = self.regions@[region_id as int].offers@;
        let mut i: usize = 0;
        while i < offer_idxs.len()
            invariant
                self.wf(),
                self.same_topology(old(self)),
                (region_id as usize) < REGION_COUNT,
                i <= offer_idxs@.len(),
                start == old(self).regions@[region_id as int].offers@,
                self.regions@[region_id as int].offers@ == start + offer_idxs@.subrange(0, i as int),
                forall|r: int| 0 <= r < REGION_COUNT && r != region_id ==> (#[trigger] self.regions@[r]).offers@ == old(self).regions@[r].offers@,
            decreases offer_idxs@.len() - i,
        {
            self.insert_offer(region_id, offer_idxs[i]);
            i = i + 1;
            assert(self.regions@[region_id as int].offers@ =~= start + offer_idxs@.subrange(0, i as int));
        }
        assert(offer_idxs@.subrange(0, i as int) =~= offer_idxs@);
    }

    /// Removes every registered offer; the hierarchy stays.
    pub fn clear_offers(&mut self)
        requires
            old(self).wf(),
        ensures
            final(self).wf(),
            final(self).is_empty(),
            final(self).same_topology(old(self)),
    {
        let mut i: usize = 0;
        while i < self.regions.len()
            invariant
                self.wf(),
                self.same_topology(old(self)),
                i <= self.regions@.len(),
                forall|r: int| 0 <= r < i ==> (#[trigger] self.regions@[r]).offers@.len() == 0,
            decreases self.regions@.len() - i,
        {
            self.regions[i].offers.clear();
            i = i + 1;
        }
    }
}

} // verus!
