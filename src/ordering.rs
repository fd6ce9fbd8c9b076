//! The order of the result list: by price in the requested direction, ties
//! broken by ascending id, and the pages cut from it.
use vstd::prelude::*;
use vstd::utf8::encode_utf8;
use crate::models::{Offer, SortOrder};

verus! {

/// Lexicographic strict order on byte strings, as `Ord` orders `[u8]`.
pub open spec fn bytes_lt(a: Seq<u8>, b: Seq<u8>) -> bool
    decreases a.len(),
{
    if a.len() == 0 {
        b.len() > 0
    } else if b.len() == 0 {
        false
    } else if a[0] != b[0] {
        a[0] < b[0]
    } else {
        bytes_lt(a.drop_first(), b.drop_first())
    }
}

/// The bytes of an offer's textual id; `String`'s order compares them.
pub open spec fn id_bytes(o: Offer) -> Seq<u8> {
    encode_utf8(o.id@)
}

/// Whether offer `a` comes strictly before offer `b` in the result list.
pub open spec fn precedes(a: Offer, b: Offer, order: SortOrder) -> bool {
    if a.price != b.price {
        match order {
            SortOrder::PriceAsc => a.price < b.price,
            SortOrder::PriceDesc => a.price > b.price,
        }
    } else {
        bytes_lt(id_bytes(a), id_bytes(b))
    }
}

/// No offer of the list comes strictly before one that is listed earlier.
pub open spec fn is_sorted_by(store: Seq<Offer>, order: SortOrder, s: Seq<u32>) -> bool {
    forall|i: int, j: int|
        0 <= i < j < s.len() ==> !precedes(#[trigger] store[s[j] as int], #[trigger] store[s[i] as int], order)
}

/// Places `x` after every element of `s` that it does not strictly precede.
pub open spec fn insert_sorted(store: Seq<Offer>, order: SortOrder, s: Seq<u32>, x: u32) -> Seq<u32>
    decreases s.len(),
{
    if s.len() == 0 {
        seq![x]
    } else if precedes(store[x as int], store[s[0] as int], order) {
        seq![x] + s
    } else {
        seq![s[0]] + insert_sorted(store, order, s.drop_first(), x)
    }
}

/// The offer indices `s` in result order; offers that are equal in the order
/// keep their relative position.
pub open spec fn sort_by_price(store: Seq<Offer>, order: SortOrder, s: Seq<u32>) -> Seq<u32>
    decreases s.len(),
{
    if s.len() == 0 {
        Seq::empty()
    } else {
        insert_sorted(store, order, sort_by_price(store, order, s.drop_last()), s.last())
    }
}

/// The `page`-th slice of `size` elements of `s` (0-based); empty past the end.
pub open spec fn page_of<T>(s: Seq<T>, page: int, size: int) -> Seq<T> {
    let start = if page * size < s.len() { page * size } else { s.len() as int };
    let end = if start + size < s.len() { start + size } else { s.len() as int };
    s.subrange(start, end)
}

/// The first `n` pages of `s`, one after the other.
pub open spec fn pages_upto<T>(s: Seq<T>, size: int, n: nat) -> Seq<T>
    decreases n,
{
    if n == 0 {
        Seq::empty()
    } else {
        pages_upto(s, size, (n - 1) as nat) + page_of(s, n - 1, size)
    }
}

proof fn lemma_bytes_lt_irreflexive(a: Seq<u8>)
    ensures
        !bytes_lt(a, a),
    decreases a.len(),
{
    if a.len() > 0 {
        lemma_bytes_lt_irreflexive(a.drop_first());
    }
}

proof fn lemma_bytes_lt_transitive(a: Seq<u8>, b: Seq<u8>, c: Seq<u8>)
    requires
        bytes_lt(a, b),
        bytes_lt(b, c),
    ensures
        bytes_lt(a, c),
    decreases a.len(),
{
    if a.len() > 0 && b.len() > 0 && c.len() > 0 && a[0] == b[0] && b[0] == c[0] {
        lemma_bytes_lt_transitive(a.drop_first(), b.drop_first(), c.drop_first());
    }
}

proof fn lemma_precedes_transitive(a: Offer, b: Offer, c: Offer, order: SortOrder)
    requires
        precedes(a, b, order),
        precedes(b, c, order),
    ensures
        precedes(a, c, order),
{
    if a.price == b.price && b.price == c.price {
        lemma_bytes_lt_transitive(id_bytes(a), id_bytes(b), id_bytes(c));
    }
}

proof fn lemma_bytes_lt_total(a: Seq<u8>, b: Seq<u8>)
    ensures
        bytes_lt(a, b) || bytes_lt(b, a) || a == b,
    decreases a.len(),
{
    if a.len() > 0 && b.len() > 0 && a[0] == b[0] {
        lemma_bytes_lt_total(a.drop_first(), b.drop_first());
        if a.drop_first() == b.drop_first() {
            assert(a =~= seq![a[0]] + a.drop_first());
            assert(b =~= seq![b[0]] + b.drop_first());
        }
    } else if a.len() == 0 && b.len() == 0 {
        assert(a =~= b);
    }
}

/// In a sorted list, once `x` strictly precedes an element it strictly
/// precedes every later one.
proof fn lemma_precedes_monotone(x: Offer, a: Offer, b: Offer, order: SortOrder)
    requires
        precedes(x, a, order),
        !precedes(b, a, order),
    ensures
        precedes(x, b, order),
{
    if x.price == a.price && a.price == b.price {
        lemma_bytes_lt_total(id_bytes(a), id_bytes(b));
        if bytes_lt(id_bytes(a), id_bytes(b)) {
            lemma_bytes_lt_transitive(id_bytes(x), id_bytes(a), id_bytes(b));
        }
    }
}

proof fn lemma_precedes_asymmetric(a: Offer, b: Offer, order: SortOrder)
    requires
        precedes(a, b, order),
    ensures
        !precedes(b, a, order),
{
    if precedes(b, a, order) {
        lemma_precedes_transitive(a, b, a, order);
        lemma_bytes_lt_irreflexive(id_bytes(a));
    }
}

/// `insert_sorted` puts `x` before the first element that it strictly
/// precedes.
pub proof fn lemma_insert_sorted_at(store: Seq<Offer>, order: SortOrder, s: Seq<u32>, x: u32, j: int)
    requires
        0 <= j <= s.len(),
        forall|k: int| 0 <= k < j ==> !precedes(store[x as int], #[trigger] store[s[k] as int], order),
        j < s.len() ==> precedes(store[x as int], store[s[j] as int], order),
    ensures
        insert_sorted(store, order, s, x) == s.insert(j, x),
    decreases j,
{
    if s.len() == 0 {
        assert(s.insert(j, x) =~= seq![x]);
    } else if j == 0 {
        assert(s.insert(j, x) =~= seq![x] + s);
    } else {
        assert(!precedes(store[x as int], store[s[0] as int], order));
        let t = s.drop_first();
        assert forall|k: int| 0 <= k < j - 1 implies !precedes(store[x as int], #[trigger] store[t[k] as int], order) by {
            assert(t[k] == s[k + 1]);
        }
        lemma_insert_sorted_at(store, order, t, x, j - 1);
        assert(seq![s[0]] + t.insert(j - 1, x) =~= s.insert(j, x));
    }
}

proof fn lemma_insert_sorted_multiset(store: Seq<Offer>, order: SortOrder, s: Seq<u32>, x: u32)
    ensures
        insert_sorted(store, order, s, x).to_multiset() == s.to_multiset().insert(x),
    decreases s.len(),
{
    broadcast use vstd::seq_lib::group_to_multiset_ensures, vstd::seq_lib::lemma_multiset_commutative;

    assert(seq![x] =~= Seq::<u32>::empty().push(x));
    if s.len() == 0 {
    } else if precedes(store[x as int], store[s[0] as int], order) {
        assert(s.to_multiset().insert(x) =~= seq![x].to_multiset().add(s.to_multiset()));
    } else {
        let t = s.drop_first();
        lemma_insert_sorted_multiset(store, order, t, x);
        assert(seq![s[0]] =~= Seq::<u32>::empty().push(s[0]));
        assert(s =~= seq![s[0]] + t);
        assert(s.to_multiset().insert(x) =~= seq![s[0]].to_multiset().add(t.to_multiset().insert(x)));
    }
}

proof fn lemma_insert_sorted_sorted(store: Seq<Offer>, order: SortOrder, s: Seq<u32>, x: u32)
    requires
        is_sorted_by(store, order, s),
    ensures
        is_sorted_by(store, order, insert_sorted(store, order, s, x)),
    decreases s.len(),
{
    let r = insert_sorted(store, order, s, x);
    if s.len() == 0 {
    } else if precedes(store[x as int], store[s[0] as int], order) {
        assert forall|i: int, j: int|
            0 <= i < j < r.len() implies !precedes(#[trigger] store[r[j] as int], #[trigger] store[r[i] as int], order) by {
            if i == 0 {
                if j == 1 {
                    lemma_precedes_asymmetric(store[x as int], store[s[0] as int], order);
                } else {
                    assert(!precedes(store[s[j - 1] as int], store[s[0] as int], order));
                    if precedes(store[s[j - 1] as int], store[x as int], order) {
                        lemma_precedes_transitive(store[s[j - 1] as int], store[x as int], store[s[0] as int], order);
                    }
                }
            } else {
                assert(r[i] == s[i - 1] && r[j] == s[j - 1]);
            }
        }
    } else {
        let t = s.drop_first();
        assert forall|i: int, j: int| 0 <= i < j < t.len() implies !precedes(#[trigger] store[t[j] as int], #[trigger] store[t[i] as int], order) by {
            assert(t[i] == s[i + 1] && t[j] == s[j + 1]);
        }
        lemma_insert_sorted_sorted(store, order, t, x);
        lemma_insert_sorted_multiset(store, order, t, x);
        let rt = insert_sorted(store, order, t, x);
        assert(r == seq![s[0]] + rt);
        assert forall|i: int, j: int|
            0 <= i < j < r.len() implies !precedes(#[trigger] store[r[j] as int], #[trigger] store[r[i] as int], order) by {
            if i == 0 {
                let y = rt[j - 1];
                assert(rt.to_multiset().count(y) > 0) by {
                    broadcast use vstd::seq_lib::group_to_multiset_ensures;
                    assert(rt.contains(y));
                }
                assert(t.to_multiset().insert(x).count(y) > 0);
                if y != x {
                    broadcast use vstd::seq_lib::group_to_multiset_ensures;
                    assert(t.to_multiset().count(y) > 0);
                    assert(t.contains(y));
                    let k = choose|k: int| 0 <= k < t.len() && t[k] == y;
                    assert(s[k + 1] == y);
                }
            } else {
                assert(r[i] == rt[i - 1] && r[j] == rt[j - 1]);
            }
        }
    }
}

/// Sorting keeps the offers, each as often as it was given, and puts them in
/// result order.
pub proof fn lemma_sort_by_price(store: Seq<Offer>, order: SortOrder, s: Seq<u32>)
    ensures
        sort_by_price(store, order, s).to_multiset() == s.to_multiset(),
        is_sorted_by(store, order, sort_by_price(store, order, s)),
    decreases s.len(),
{
    broadcast use vstd::seq_lib::group_to_multiset_ensures;

    if s.len() > 0 {
        let p = sort_by_price(store, order, s.drop_last());
        lemma_sort_by_price(store, order, s.drop_last());
        lemma_insert_sorted_multiset(store, order, p, s.last());
        lemma_insert_sorted_sorted(store, order, p, s.last());
        assert(s =~= s.drop_last().push(s.last()));
    }
}

/// Whether byte string `a` sorts strictly before `b`.
pub fn bytes_less(a: &[u8], b: &[u8]) -> (r: bool)
    ensures
        r == bytes_lt(a@, b@),
{
    let mut i: usize = 0;
    assert(a@.subrange(0, a@.len() as int) =~= a@);
    assert(b@.subrange(0, b@.len() as int) =~= b@);
    while i < a.len() && i < b.len()
        invariant
            i <= a@.len(),
            i <= b@.len(),
            bytes_lt(a@, b@) == bytes_lt(a@.subrange(i as int, a@.len() as int), b@.subrange(i as int, b@.len() as int)),
        decreases a@.len() - i,
    {
        let ghost sa = a@.subrange(i as int, a@.len() as int);
        let ghost sb = b@.subrange(i as int, b@.len() as int);
        assert(sa[0] == a@[i as int] && sb[0] == b@[i as int]);
        if a[i] != b[i] {
            return a[i] < b[i];
        }
        assert(sa.drop_first() =~= a@.subrange(i + 1, a@.len() as int));
        assert(sb.drop_first() =~= b@.subrange(i + 1, b@.len() as int));
        i = i + 1;
    }
    a.len() == i && i < b.len()
}

/// Whether offer `a` comes strictly before offer `b` in the result list.
pub fn precedes_exec(a: &Offer, b: &Offer, order: SortOrder) -> (r: bool)
    ensures
        r == precedes(*a, *b, order),
{
    if a.price != b.price {
        match order {
            SortOrder::PriceAsc => a.price < b.price,
            SortOrder::PriceDesc => a.price > b.price,
        }
    } else {
        bytes_less(a.id.as_str().as_bytes(), b.id.as_str().as_bytes())
    }
}

/// The offer indices `idxs` in result order.
pub fn sort_offers(store: &Vec<Offer>, order: SortOrder, idxs: &Vec<u32>) -> (r: Vec<u32>)
    requires
        forall|i: int| 0 <= i < idxs@.len() ==> (#[trigger] idxs@[i] as int) < store@.len(),
    ensures
        r@ == sort_by_price(store@, order, idxs@),
{
    let mut out: Vec<u32> = Vec::new();
    let mut i: usize = 0;
    while i < idxs.len()
        invariant
            i <= idxs@.len(),
            forall|k: int| 0 <= k < idxs@.len() ==> (#[trigger] idxs@[k] as int) < store@.len(),
            out@ == sort_by_price(store@, order, idxs@.subrange(0, i as int)),
            forall|k: int| 0 <= k < out@.len() ==> (#[trigger] out@[k] as int) < store@.len(),
        decreases idxs@.len() - i,
    {
        let x = idxs[i];
        proof {
            lemma_sort_by_price(store@, order, idxs@.subrange(0, i as int));
        }
        let mut lo: usize = 0;
        let mut hi: usize = out.len();
        while lo < hi
            invariant
                lo <= hi <= out@.len(),
                (x as int) < store@.len(),
                is_sorted_by(store@, order, out@),
                forall|k: int| 0 <= k < out@.len() ==> (#[trigger] out@[k] as int) < store@.len(),
                forall|k: int| 0 <= k < lo ==> !precedes(store@[x as int], #[trigger] store@[out@[k] as int], order),
                forall|k: int| hi <= k < out@.len() ==> precedes(store@[x as int], #[trigger] store@[out@[k] as int], order),
            decreases hi - lo,
        {
            let mid = lo + (hi - lo) / 2;
            if precedes_exec(&store[x as usize], &store[out[mid] as usize], order) {
                proof {
                    assert forall|k: int| mid <= k < out@.len() implies precedes(store@[x as int], #[trigger] store@[out@[k] as int], order) by {
                        if k > mid {
                            lemma_precedes_monotone(store@[x as int], store@[out@[mid as int] as int], store@[out@[k] as int], order);
                        }
                    }
                }
                hi = mid;
            } else {
                proof {
                    assert forall|k: int| 0 <= k < mid + 1 implies !precedes(store@[x as int], #[trigger] store@[out@[k] as int], order) by {
                        if k < mid && precedes(store@[x as int], store@[out@[k] as int], order) {
                            lemma_precedes_monotone(store@[x as int], store@[out@[k] as int], store@[out@[mid as int] as int], order);
                        }
                    }
                }
                lo = mid + 1;
            }
        }
        let j = lo;
        proof {
            lemma_insert_sorted_at(store@, order, out@, x, j as int);
            let s = idxs@.subrange(0, i + 1);
            assert(s.drop_last() =~= idxs@.subrange(0, i as int));
        }
        let ghost prev = out@;
        out.insert(j, x);
        assert forall|k: int| 0 <= k < out@.len() implies (#[trigger] out@[k] as int) < store@.len() by {
            if k < j {
                assert(out@[k] == prev[k]);
            } else if k > j {
                assert(out@[k] == prev[k - 1]);
            }
        }
        i = i + 1;
    }
    assert(idxs@.subrange(0, i as int) =~= idxs@);
    out
}

/// The pages of a list, taken in turn until they cover it, give back the
/// whole list, with no element repeated or left out.
pub proof fn lemma_pages_concat<T>(s: Seq<T>, size: int, n: nat)
    requires
        size > 0,
    ensures
        pages_upto(s, size, n) == s.subrange(0, if n * size < s.len() { n * size } else { s.len() as int }),
    decreases n,
{
    if n > 0 {
        let m = (n - 1) as nat;
        lemma_pages_concat(s, size, m);
        assert(m * size + size == n * size) by (nonlinear_arith)
            requires
                m + 1 == n,
        ;
        assert(m * size >= 0) by (nonlinear_arith)
            requires
                size > 0,
        ;
        let prev = if m * size < s.len() { m * size } else { s.len() as int };
        let cur = if n * size < s.len() { n * size } else { s.len() as int };
        let end = if prev + size < s.len() { prev + size } else { s.len() as int };
        assert(end == cur);
        assert(page_of(s, m as int, size) == s.subrange(prev, end));
        assert(pages_upto(s, size, n) == pages_upto(s, size, m) + page_of(s, m as int, size));
        assert(s.subrange(0, prev) + s.subrange(prev, end) =~= s.subrange(0, cur));
    } else {
        assert(n * size == 0) by (nonlinear_arith)
            requires
                n == 0,
        ;
        assert(s.subrange(0, 0) =~= Seq::<T>::empty());
    }
}

} // verus!
