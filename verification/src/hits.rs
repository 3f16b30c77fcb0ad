//! Points with their distances, kept in order.

use vstd::prelude::*;
use vstd::relations::*;
use vstd::seq_lib::*;

use crate::floatbits;
use crate::floatbits::total_key;

verus! {

/// A distance (a bit pattern) and the point it belongs to.
#[derive(Clone, Copy, Debug, PartialEq, Eq, Structural)]
pub struct DistId(pub u32, pub u32);

/// Position in the order by distance, ties by id.
pub open spec fn hit_rank(h: DistId) -> int {
    floatbits::total_rank(h.0) * 0x1_0000_0000 + h.1
}

/// The order by distance, ties by id.
pub open spec fn by_distance() -> spec_fn(DistId, DistId) -> bool {
    |a: DistId, b: DistId| hit_rank(a) <= hit_rank(b)
}

/// The hits in ascending order.
pub open spec fn ranked(hits: Seq<DistId>) -> Seq<DistId> {
    hits.sort_by(by_distance())
}

/// Whether the hits stand in ascending order.
pub open spec fn ascending(hits: Seq<DistId>) -> bool {
    forall|i: int, j: int| 0 <= i <= j < hits.len() ==> hit_rank(hits[i]) <= hit_rank(hits[j])
}

/// The order tells any two hits apart.
pub proof fn hit_rank_injective(a: DistId, b: DistId)
    requires
        hit_rank(a) == hit_rank(b),
    ensures
        a == b,
{
    floatbits::total_rank_injective(a.0, b.0);
}

/// A hit comes before another if its distance does in the total order, and of two hits at
/// one distance the one with the smaller id comes first.
pub proof fn nearer_hits_come_first_and_ties_go_by_id(a: DistId, b: DistId)
    ensures
        hit_rank(a) < hit_rank(b) <==> floatbits::total_rank(a.0) < floatbits::total_rank(b.0)
            || a.0 == b.0 && a.1 < b.1,
{
    if floatbits::total_rank(a.0) == floatbits::total_rank(b.0) {
        floatbits::total_rank_injective(a.0, b.0);
    }
}

proof fn lemma_by_distance_total()
    ensures
        total_ordering(by_distance()),
{
    let r = by_distance();
    assert forall|a: DistId, b: DistId| #[trigger] r(a, b) && #[trigger] r(b, a) implies a == b by {
        hit_rank_injective(a, b);
    }
}

/// Ranking keeps the hits and puts them in ascending order; nothing else does.
pub proof fn ranked_is_the_ascending_order(hits: Seq<DistId>, sorted: Seq<DistId>)
    ensures
        ascending(ranked(hits)),
        ranked(hits).to_multiset() == hits.to_multiset(),
        ranked(hits).len() == hits.len(),
        ascending(sorted) && sorted.to_multiset() == hits.to_multiset() ==> sorted == ranked(hits),
{
    lemma_by_distance_total();
    hits.lemma_sort_by_ensures(by_distance());
    let r = ranked(hits);
    hits.to_multiset_ensures();
    r.to_multiset_ensures();
    let leq = by_distance();
    assert(ascending(r)) by {
        assert forall|i: int, j: int| 0 <= i <= j < r.len() implies hit_rank(r[i]) <= hit_rank(
            r[j],
        ) by {
            if i < j {
                assert(leq(r[i], r[j]));
            }
        }
    }
    if ascending(sorted) && sorted.to_multiset() == hits.to_multiset() {
        assert(sorted_by(sorted, leq));
        lemma_sorted_unique(sorted, r, leq);
    }
}

/// The order as an order of integers.
fn hit_key(h: DistId) -> (r: u64)
    ensures
        r == hit_rank(h) + 0x8000_0000_0000_0000,
{
    (total_key(h.0) as u64) * 0x1_0000_0000 + h.1 as u64
}

/// Where `h` goes in ascending hits.
fn upper_bound(hits: &Vec<DistId>, h: DistId) -> (r: usize)
    requires
        ascending(hits@),
    ensures
        r <= hits@.len(),
        forall|i: int| 0 <= i < r ==> hit_rank(#[trigger] hits@[i]) <= hit_rank(h),
        forall|i: int| r <= i < hits@.len() ==> hit_rank(#[trigger] hits@[i]) > hit_rank(h),
{
    let key: u64 = hit_key(h);
    let mut lo: usize = 0;
    let mut hi: usize = hits.len();
    while lo < hi
        invariant
            lo <= hi <= hits@.len(),
            ascending(hits@),
            key == hit_rank(h) + 0x8000_0000_0000_0000,
            forall|i: int| 0 <= i < lo ==> hit_rank(#[trigger] hits@[i]) <= hit_rank(h),
            forall|i: int| hi <= i < hits@.len() ==> hit_rank(#[trigger] hits@[i]) > hit_rank(h),
        decreases hi - lo,
    {
        let mid: usize = lo + (hi - lo) / 2;
        if hit_key(hits[mid]) <= key {
            lo = mid + 1;
        } else {
            hi = mid;
        }
    }
    lo
}

proof fn lemma_insert_ranked(hits: Seq<DistId>, p: int, h: DistId)
    requires
        ascending(hits),
        0 <= p <= hits.len(),
        forall|i: int| 0 <= i < p ==> hit_rank(#[trigger] hits[i]) <= hit_rank(h),
        forall|i: int| p <= i < hits.len() ==> hit_rank(#[trigger] hits[i]) > hit_rank(h),
    ensures
        hits.insert(p, h) == ranked(hits.push(h)),
        ascending(hits.insert(p, h)),
{
    let sorted = hits.insert(p, h);
    assert(ascending(sorted)) by {
        assert forall|i: int, j: int| 0 <= i <= j < sorted.len() implies hit_rank(sorted[i])
            <= hit_rank(sorted[j]) by {
            assert(sorted[i] == if i < p {
                hits[i]
            } else if i == p {
                h
            } else {
                hits[i - 1]
            });
            assert(sorted[j] == if j < p {
                hits[j]
            } else if j == p {
                h
            } else {
                hits[j - 1]
            });
        }
    }
    broadcast use group_to_multiset_ensures;

    assert(sorted.to_multiset() =~= hits.push(h).to_multiset());
    ranked_is_the_ascending_order(hits.push(h), sorted);
}

/// Ranking ascending hits with one more puts that one in between the others.
pub proof fn lemma_ranked_push(hits: Seq<DistId>, h: DistId) -> (p: int)
    requires
        ascending(hits),
    ensures
        0 <= p <= hits.len(),
        forall|i: int| 0 <= i < p ==> hit_rank(#[trigger] hits[i]) <= hit_rank(h),
        forall|i: int| p <= i < hits.len() ==> hit_rank(#[trigger] hits[i]) > hit_rank(h),
        ranked(hits.push(h)) == hits.insert(p, h),
        ascending(hits.insert(p, h)),
{
    let p = lemma_gap(hits, h, hits.len() as int);
    lemma_insert_ranked(hits, p, h);
    p
}

proof fn lemma_gap(hits: Seq<DistId>, h: DistId, to: int) -> (p: int)
    requires
        ascending(hits),
        0 <= to <= hits.len(),
        forall|i: int| to <= i < hits.len() ==> hit_rank(#[trigger] hits[i]) > hit_rank(h),
    ensures
        0 <= p <= hits.len(),
        forall|i: int| 0 <= i < p ==> hit_rank(#[trigger] hits[i]) <= hit_rank(h),
        forall|i: int| p <= i < hits.len() ==> hit_rank(#[trigger] hits[i]) > hit_rank(h),
    decreases to,
{
    if to > 0 && hit_rank(hits[to - 1]) > hit_rank(h) {
        lemma_gap(hits, h, to - 1)
    } else {
        to
    }
}

/// Ranking keeps each hit.
pub proof fn lemma_ranked_contains(hits: Seq<DistId>, h: DistId)
    ensures
        ranked(hits).contains(h) == hits.contains(h),
{
    ranked_is_the_ascending_order(hits, hits);
    broadcast use group_to_multiset_ensures;

    assert(hits.contains(h) == (hits.to_multiset().count(h) > 0));
    assert(ranked(hits).contains(h) == (ranked(hits).to_multiset().count(h) > 0));
}

/// Hits in ascending order; the farthest can be seen and taken off.
pub struct NearestHits {
    items: Vec<DistId>,
}

impl View for NearestHits {
    type V = Seq<DistId>;

    closed spec fn view(&self) -> Seq<DistId> {
        self.items@
    }
}

impl NearestHits {
    #[verifier::type_invariant]
    spec fn in_order(&self) -> bool {
        ascending(self.items@)
    }

    /// No hits.
    pub fn new() -> (r: Self)
        ensures
            r@ == Seq::<DistId>::empty(),
    {
        NearestHits { items: Vec::new() }
    }

    /// Number of hits.
    pub fn len(&self) -> (r: usize)
        ensures
            r == self@.len(),
    {
        self.items.len()
    }

    /// The farthest hit.
    pub fn peek(&self) -> (r: Option<DistId>)
        ensures
            r == if self@.len() > 0 {
                Some(self@.last())
            } else {
                None
            },
    {
        let n: usize = self.items.len();
        if n > 0 {
            Some(self.items[n - 1])
        } else {
            None
        }
    }

    /// Adds a hit.
    pub fn push(&mut self, h: DistId)
        ensures
            final(self)@ == ranked(old(self)@.push(h)),
    {
        proof {
            use_type_invariant(&*self);
        }
        let p: usize = upper_bound(&self.items, h);
        proof {
            lemma_insert_ranked(self.items@, p as int, h);
        }
        let mut items: Vec<DistId> = Vec::new();
        std::mem::swap(&mut items, &mut self.items);
        items.insert(p, h);
        self.items = items;
    }

    /// Takes the farthest hit off.
    pub fn pop(&mut self)
        requires
            old(self)@.len() > 0,
        ensures
            final(self)@ == old(self)@.drop_last(),
    {
        proof {
            use_type_invariant(&*self);
        }
        let mut items: Vec<DistId> = Vec::new();
        std::mem::swap(&mut items, &mut self.items);
        let _ = items.pop();
        assert(items@ =~= old(self)@.drop_last());
        self.items = items;
    }

    /// The hits in ascending order.
    pub fn into_vec(self) -> (r: Vec<DistId>)
        ensures
            r@ == self@,
            ascending(r@),
    {
        proof {
            use_type_invariant(&self);
        }
        self.items
    }
}

/// Hits in ascending order; the nearest can be taken off.
pub struct Frontier {
    // Farthest first, so that the nearest is taken off the end.
    items: Vec<DistId>,
}

impl View for Frontier {
    type V = Seq<DistId>;

    closed spec fn view(&self) -> Seq<DistId> {
        self.items@.reverse()
    }
}

impl Frontier {
    #[verifier::type_invariant]
    spec fn in_order(&self) -> bool {
        ascending(self.items@.reverse())
    }

    /// No hits.
    pub fn new() -> (r: Self)
        ensures
            r@ == Seq::<DistId>::empty(),
    {
        let r = Frontier { items: Vec::new() };
        assert(r@ =~= Seq::<DistId>::empty());
        r
    }

    /// Adds a hit.
    pub fn push(&mut self, h: DistId)
        ensures
            final(self)@ == ranked(old(self)@.push(h)),
    {
        proof {
            use_type_invariant(&*self);
        }
        let key: u64 = hit_key(h);
        let ghost seen = self@;
        let n: usize = self.items.len();
        assert forall|i: int, j: int| 0 <= i <= j < n implies hit_rank(
            self.items@[j],
        ) <= hit_rank(self.items@[i]) by {
            assert(self.items@[i] == seen[n - 1 - i] && self.items@[j] == seen[n - 1 - j]);
        }
        let mut lo: usize = 0;
        let mut hi: usize = n;
        while lo < hi
            invariant
                lo <= hi <= n,
                n == self.items@.len(),
                key == hit_rank(h) + 0x8000_0000_0000_0000,
                forall|i: int, j: int|
                    0 <= i <= j < n ==> hit_rank(self.items@[j]) <= hit_rank(self.items@[i]),
                forall|i: int| 0 <= i < lo ==> hit_rank(#[trigger] self.items@[i]) > hit_rank(h),
                forall|i: int| hi <= i < n ==> hit_rank(#[trigger] self.items@[i]) <= hit_rank(h),
            decreases hi - lo,
        {
            let mid: usize = lo + (hi - lo) / 2;
            if hit_key(self.items[mid]) > key {
                lo = mid + 1;
            } else {
                hi = mid;
            }
        }
        proof {
            assert forall|i: int| 0 <= i < n - lo implies hit_rank(#[trigger] seen[i]) <= hit_rank(
                h,
            ) by {
                assert(seen[i] == self.items@[n - 1 - i]);
            }
            assert forall|i: int| n - lo <= i < n implies hit_rank(#[trigger] seen[i]) > hit_rank(
                h,
            ) by {
                assert(seen[i] == self.items@[n - 1 - i]);
            }
            lemma_insert_ranked(seen, n - lo, h);
        }
        let mut items: Vec<DistId> = Vec::new();
        std::mem::swap(&mut items, &mut self.items);
        items.insert(lo, h);
        assert(items@.reverse() =~= seen.insert(n - lo, h));
        self.items = items;
    }

    /// Takes the nearest hit off.
    pub fn pop(&mut self) -> (r: Option<DistId>)
        ensures
            old(self)@.len() == 0 ==> r is None && final(self)@ == old(self)@,
            old(self)@.len() > 0 ==> r == Some(old(self)@[0]) && final(self)@ == old(
                self,
            )@.drop_first(),
    {
        proof {
            use_type_invariant(&*self);
        }
        let ghost seen = self@;
        let mut items: Vec<DistId> = Vec::new();
        std::mem::swap(&mut items, &mut self.items);
        let r = items.pop();
        proof {
            if seen.len() > 0 {
                assert(items@.reverse() =~= seen.drop_first());
            }
        }
        self.items = items;
        r
    }
}

// ---------------------------------------------------------------------------
// Sorting
// ---------------------------------------------------------------------------

/// Merges two ascending runs.
fn merge(a: &Vec<DistId>, b: &Vec<DistId>) -> (r: Vec<DistId>)
    requires
        ascending(a@),
        ascending(b@),
    ensures
        ascending(r@),
        r@.to_multiset() == a@.to_multiset().add(b@.to_multiset()),
{
    broadcast use group_to_multiset_ensures;

    let mut out: Vec<DistId> = Vec::new();
    let mut i: usize = 0;
    let mut j: usize = 0;
    assert(a@.take(0) =~= Seq::<DistId>::empty());
    assert(b@.take(0) =~= Seq::<DistId>::empty());
    assert(out@.to_multiset() =~= a@.take(0).to_multiset().add(b@.take(0).to_multiset()));
    while i < a.len() || j < b.len()
        invariant
            ascending(a@),
            ascending(b@),
            i <= a@.len(),
            j <= b@.len(),
            ascending(out@),
            out@.to_multiset() == a@.take(i as int).to_multiset().add(
                b@.take(j as int).to_multiset(),
            ),
            out@.len() > 0 && i < a@.len() ==> hit_rank(out@.last()) <= hit_rank(a@[i as int]),
            out@.len() > 0 && j < b@.len() ==> hit_rank(out@.last()) <= hit_rank(b@[j as int]),
        decreases a@.len() + b@.len() - i - j,
    {
        let from_a: bool = j >= b.len() || (i < a.len() && hit_key(a[i]) <= hit_key(b[j]));
        let ghost before = out@;
        if from_a {
            out.push(a[i]);
            proof {
                broadcast use group_to_multiset_ensures;

                assert(a@.take(i + 1) =~= a@.take(i as int).push(a@[i as int]));
                assert(out@.to_multiset() =~= a@.take(i + 1).to_multiset().add(
                    b@.take(j as int).to_multiset(),
                ));
            }
            i = i + 1;
        } else {
            out.push(b[j]);
            proof {
                broadcast use group_to_multiset_ensures;

                assert(b@.take(j + 1) =~= b@.take(j as int).push(b@[j as int]));
                assert(out@.to_multiset() =~= a@.take(i as int).to_multiset().add(
                    b@.take(j + 1).to_multiset(),
                ));
            }
            j = j + 1;
        }
        assert(ascending(out@)) by {
            assert forall|x: int, y: int| 0 <= x <= y < out@.len() implies hit_rank(out@[x])
                <= hit_rank(out@[y]) by {
                if y == before.len() && x < y {
                    assert(hit_rank(before[x]) <= hit_rank(before[before.len() - 1]));
                }
            }
        }
    }
    assert(a@.take(i as int) =~= a@);
    assert(b@.take(j as int) =~= b@);
    out
}

/// Sorts hits by distance, ties by id.
pub fn sort_hits(hits: Vec<DistId>) -> (r: Vec<DistId>)
    ensures
        r@ == ranked(hits@),
    decreases hits@.len(),
{
    let ghost all = hits@;
    let n: usize = hits.len();
    if n <= 1 {
        proof {
            ranked_is_the_ascending_order(all, all);
        }
        return hits;
    }
    let mid: usize = n / 2;
    let mut left: Vec<DistId> = hits;
    let right: Vec<DistId> = left.split_off(mid);
    assert(left@ + right@ =~= all);
    let ghost l = left@;
    let ghost r = right@;
    let left: Vec<DistId> = sort_hits(left);
    let right: Vec<DistId> = sort_hits(right);
    proof {
        ranked_is_the_ascending_order(l, l);
        ranked_is_the_ascending_order(r, r);
    }
    let out: Vec<DistId> = merge(&left, &right);
    proof {
        lemma_multiset_commutative(l, r);
        ranked_is_the_ascending_order(all, out@);
    }
    out
}

// ---------------------------------------------------------------------------
// Sorting bare distances
// ---------------------------------------------------------------------------

/// The total order on patterns.
pub open spec fn by_total_rank() -> spec_fn(u32, u32) -> bool {
    |a: u32, b: u32| floatbits::total_rank(a) <= floatbits::total_rank(b)
}

/// The patterns in their total order.
pub open spec fn ordered(values: Seq<u32>) -> Seq<u32> {
    values.sort_by(by_total_rank())
}

/// The patterns as distances of one point.
spec fn as_hits(values: Seq<u32>) -> Seq<DistId> {
    values.map_values(|x: u32| DistId(x, 0))
}

proof fn lemma_as_hits_count(values: Seq<u32>, x: u32)
    ensures
        as_hits(values).to_multiset().count(DistId(x, 0)) == values.to_multiset().count(x),
    decreases values.len(),
{
    broadcast use group_to_multiset_ensures;

    if values.len() == 0 {
        assert(as_hits(values).to_multiset().len() == 0);
        assert(values.to_multiset().len() == 0);
        assert(!as_hits(values).contains(DistId(x, 0)));
        assert(!values.contains(x));
    } else {
        let init = values.drop_last();
        lemma_as_hits_count(init, x);
        assert(values =~= init.push(values.last()));
        assert(as_hits(values) =~= as_hits(init).push(DistId(values.last(), 0)));
    }
}

proof fn lemma_total_rank_orders()
    ensures
        total_ordering(by_total_rank()),
{
    let leq = by_total_rank();
    assert forall|a: u32, b: u32| #[trigger] leq(a, b) && #[trigger] leq(b, a) implies a == b by {
        floatbits::total_rank_injective(a, b);
    }
}

/// Patterns in their total order are those that were put in order.
pub(crate) proof fn lemma_ordered_contains(values: Seq<u32>, i: int)
    requires
        0 <= i < ordered(values).len(),
    ensures
        values.contains(ordered(values)[i]),
{
    let sorted = ordered(values);
    lemma_total_rank_orders();
    values.lemma_sort_by_ensures(by_total_rank());
    broadcast use group_to_multiset_ensures;

    assert(sorted.contains(sorted[i]));
    assert(sorted.to_multiset().count(sorted[i]) > 0);
    assert(values.to_multiset().count(sorted[i]) > 0);
}

/// Ordering patterns keeps them and puts them in their total order; nothing else does.
pub proof fn ordered_is_the_ascending_order(values: Seq<u32>, sorted: Seq<u32>)
    ensures
        forall|i: int, j: int|
            0 <= i <= j < ordered(values).len() ==> floatbits::total_rank(ordered(values)[i])
                <= floatbits::total_rank(ordered(values)[j]),
        ordered(values).to_multiset() == values.to_multiset(),
        ordered(values).len() == values.len(),
        (forall|i: int, j: int|
            0 <= i <= j < sorted.len() ==> floatbits::total_rank(sorted[i])
                <= floatbits::total_rank(sorted[j])) && sorted.to_multiset()
            == values.to_multiset() ==> sorted == ordered(values),
{
    let leq = by_total_rank();
    let r = ordered(values);
    lemma_total_rank_orders();
    values.lemma_sort_by_ensures(leq);
    values.to_multiset_ensures();
    r.to_multiset_ensures();
    assert forall|i: int, j: int| 0 <= i <= j < r.len() implies floatbits::total_rank(r[i])
        <= floatbits::total_rank(r[j]) by {
        if i < j {
            assert(leq(r[i], r[j]));
        }
    }
    if (forall|i: int, j: int|
        0 <= i <= j < sorted.len() ==> floatbits::total_rank(sorted[i]) <= floatbits::total_rank(
            sorted[j],
        )) && sorted.to_multiset() == values.to_multiset() {
        assert(sorted_by(sorted, leq));
        lemma_sorted_unique(sorted, r, leq);
    }
}

/// Sorts patterns in their total order.
pub fn sort_values(values: &[u32]) -> (r: Vec<u32>)
    ensures
        r@ == ordered(values@),
        r@.len() == values@.len(),
{
    let n: usize = values.len();
    let mut items: Vec<DistId> = Vec::new();
    for i in 0..n
        invariant
            n == values@.len(),
            items@ == as_hits(values@.take(i as int)),
    {
        items.push(DistId(values[i], 0));
        assert(items@ =~= as_hits(values@.take(i + 1)));
    }
    assert(values@.take(n as int) =~= values@);
    let sorted: Vec<DistId> = sort_hits(items);
    let ghost start = as_hits(values@);
    proof {
        ranked_is_the_ascending_order(start, start);
    }
    let mut out: Vec<u32> = Vec::new();
    for i in 0..n
        invariant
            n == sorted@.len(),
            out@.len() == i,
            forall|j: int| 0 <= j < i ==> #[trigger] out@[j] == sorted@[j].0,
    {
        out.push(sorted[i].0);
    }
    proof {
        assert(sorted@ =~= as_hits(out@)) by {
            assert forall|i: int| 0 <= i < n implies #[trigger] sorted@[i] == DistId(
                out@[i],
                0,
            ) by {
                assert(sorted@.contains(sorted@[i]));
                lemma_ranked_contains(start, sorted@[i]);
            }
        }
        assert forall|x: u32| out@.to_multiset().count(x) == values@.to_multiset().count(x) by {
            lemma_as_hits_count(out@, x);
            lemma_as_hits_count(values@, x);
        }
        assert(out@.to_multiset() =~= values@.to_multiset());
        let leq = by_total_rank();
        lemma_total_rank_orders();
        values@.lemma_sort_by_ensures(leq);
        assert(sorted_by(out@, leq)) by {
            assert forall|i: int, j: int| 0 <= i < j < out@.len() implies #[trigger] leq(
                out@[i],
                out@[j],
            ) by {
                assert(hit_rank(sorted@[i]) <= hit_rank(sorted@[j]));
            }
        }
        lemma_sorted_unique(out@, ordered(values@), leq);
    }
    out
}

} // verus!
