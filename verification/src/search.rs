//! Nearest-neighbour search over the packed graph.
//!
//! Distances come from the caller, as bit patterns. A row distance scores one
//! point; a batch distance scores up to [`FASTSCAN_N`] points at once, and may
//! round another way than the row distance does.

use vstd::prelude::*;
use vstd::set_lib::*;

use crate::floatbits;
use crate::floatbits::{lt, INFINITY_BITS};
use crate::graph;
use crate::graph::{CompactHnswGraph, NeighborIter};
use crate::hits;
use crate::hits::{sort_hits, DistId, Frontier, NearestHits};
use crate::options::{Metric, VectorDistance};
use crate::turboquant::FASTSCAN_N;
use crate::visited::VisitedSet;

verus! {

/// A point that a search found, and its distance from the query (a bit pattern).
#[derive(Clone, Copy, Debug, PartialEq, Eq, Structural)]
pub struct SearchResult {
    pub doc_id: u32,
    pub distance: u32,
}

// ---------------------------------------------------------------------------
// What the caller's distances stand for
// ---------------------------------------------------------------------------

/// Whether a row distance gives each point the distance that `dist` says.
pub open spec fn computes<F: Fn(u32) -> u32>(f: F, dist: spec_fn(u32) -> u32) -> bool {
    forall|id: u32, d: u32| #[trigger] f.ensures((id,), d) ==> d == dist(id)
}

/// Whether a batch distance gives each batch the distances that `score` says.
pub open spec fn computes_batches<B: Fn(&[u32]) -> Vec<u32>>(
    f: B,
    score: spec_fn(Seq<u32>) -> Seq<u32>,
) -> bool {
    forall|ids: &[u32], d: Vec<u32>| #[trigger] f.ensures((ids,), d) ==> d@ == score(ids@)
}

/// Whether all ids lie below a bound.
pub open spec fn all_below(ids: Seq<u32>, n: u32) -> bool {
    forall|i: int| 0 <= i < ids.len() ==> #[trigger] ids[i] < n
}

/// Whether a row distance takes every point below a bound.
pub open spec fn scores_points<F: Fn(u32) -> u32>(f: F, n: u32) -> bool {
    forall|id: u32| id < n ==> #[trigger] f.requires((id,))
}

/// Whether a batch distance takes every batch of points below a bound, and gives
/// each point of a batch a distance.
pub open spec fn scores_batches<B: Fn(&[u32]) -> Vec<u32>>(f: B, n: u32) -> bool {
    &&& forall|ids: &[u32]|
        0 < ids@.len() <= FASTSCAN_N && all_below(ids@, n) ==> #[trigger] f.requires((ids,))
    &&& forall|ids: &[u32], d: Vec<u32>| #[trigger]
        f.ensures((ids,), d) ==> d@.len() == ids@.len()
}

/// Whether the entry point and every neighbour is a point of the graph.
pub open spec fn links_in_range(b: Seq<u8>) -> bool {
    &&& graph::num_points_of(b) > 0 ==> graph::entry_point_of(b) < graph::num_points_of(b)
    &&& forall|point: u32, layer: nat|
        all_below(#[trigger] graph::neighbor_ids(b, point, layer), graph::num_points_of(b))
}

// ---------------------------------------------------------------------------
// Exhaustive search
// ---------------------------------------------------------------------------

/// The first `k` hits.
pub open spec fn top(ranking: Seq<DistId>, k: nat) -> Seq<SearchResult> {
    Seq::new(
        if k < ranking.len() {
            k
        } else {
            ranking.len()
        },
        |i: int| SearchResult { doc_id: ranking[i].1, distance: ranking[i].0 },
    )
}

/// Every point with its distance.
pub open spec fn all_hits(dist: spec_fn(u32) -> u32, n: nat) -> Seq<DistId> {
    Seq::new(n, |i: int| DistId(dist(i as u32), i as u32))
}

// ---------------------------------------------------------------------------
// Graph search
// ---------------------------------------------------------------------------

/// The nearer of a hit and a point; the hit where neither is nearer.
pub open spec fn nearer(dist: spec_fn(u32) -> u32, best: DistId, id: u32) -> DistId {
    if floatbits::less(dist(id), best.0) {
        DistId(dist(id), id)
    } else {
        best
    }
}

/// The nearest of a hit and some points; the first where several are.
pub open spec fn nearest(dist: spec_fn(u32) -> u32, best: DistId, ids: Seq<u32>) -> DistId
    decreases ids.len(),
{
    if ids.len() == 0 {
        best
    } else {
        nearest(dist, nearer(dist, best, ids[0]), ids.drop_first())
    }
}

/// Where a walk on one layer ends that always goes on to the nearest neighbour,
/// as long as that is nearer than the point it stands at.
pub open spec fn walk_layer(
    b: Seq<u8>,
    dist: spec_fn(u32) -> u32,
    layer: nat,
    at: DistId,
) -> DistId
    decreases floatbits::total_rank(at.0) + floatbits::SIGN_BIT,
{
    let next = nearest(dist, at, graph::neighbor_ids(b, at.1, layer));
    if floatbits::less(next.0, at.0) {
        walk_layer(b, dist, layer, next)
    } else {
        next
    }
}

/// Where the walks on `layers` layers end, from the highest down to the first.
pub open spec fn walk_down(b: Seq<u8>, dist: spec_fn(u32) -> u32, layers: nat, at: DistId) -> DistId
    decreases layers,
{
    if layers == 0 {
        at
    } else {
        walk_down(b, dist, (layers - 1) as nat, walk_layer(b, dist, layers, at))
    }
}

/// Where a search enters the lowest layer.
pub open spec fn descent(b: Seq<u8>, dist: spec_fn(u32) -> u32) -> DistId {
    let entry = graph::entry_point_of(b);
    walk_down(b, dist, graph::entry_layer_of(b) as nat, DistId(dist(entry), entry))
}

/// The state of a search on the lowest layer.
pub struct Beam {
    /// Points whose neighbours are still to be looked at, nearest first.
    pub frontier: Seq<DistId>,
    /// The hits so far, nearest first.
    pub results: Seq<DistId>,
    /// The points seen so far.
    pub seen: Set<u32>,
}

/// A search that stands at one point.
pub open spec fn first_beam(at: DistId) -> Beam {
    Beam { frontier: seq![at], results: seq![at], seen: Set::empty().insert(at.1) }
}

/// The distance of the farthest hit; infinity where there is none.
pub open spec fn worst(results: Seq<DistId>) -> u32 {
    if results.len() == 0 {
        floatbits::INFINITY_BITS
    } else {
        results.last().0
    }
}

/// A point is kept if it is nearer than the farthest hit, or if there are fewer
/// than `ef` hits. Of more than `ef` hits the farthest goes.
pub open spec fn offer(beam: Beam, ef: nat, h: DistId) -> Beam {
    if floatbits::less(h.0, worst(beam.results)) || beam.results.len() < ef {
        let grown = hits::ranked(beam.results.push(h));
        Beam {
            frontier: hits::ranked(beam.frontier.push(h)),
            results: if grown.len() > ef {
                grown.drop_last()
            } else {
                grown
            },
            seen: beam.seen,
        }
    } else {
        beam
    }
}

/// A search is over when no point is left to go on from, or when it has `ef`
/// hits and the nearest such point is farther than all of them.
pub open spec fn is_over(beam: Beam, ef: nat) -> bool {
    ||| beam.frontier.len() == 0
    ||| floatbits::less(worst(beam.results), beam.frontier[0].0) && beam.results.len() >= ef
}

/// Offers those of the points that were not seen before, in order.
pub open spec fn visit(beam: Beam, ef: nat, dist: spec_fn(u32) -> u32, ids: Seq<u32>) -> Beam
    decreases ids.len(),
{
    if ids.len() == 0 {
        beam
    } else if beam.seen.contains(ids[0]) {
        visit(beam, ef, dist, ids.drop_first())
    } else {
        let marked = Beam { seen: beam.seen.insert(ids[0]), ..beam };
        visit(offer(marked, ef, DistId(dist(ids[0]), ids[0])), ef, dist, ids.drop_first())
    }
}

/// Bounds the steps that are left.
pub open spec fn effort(beam: Beam) -> nat {
    2 * beam.seen.complement().len() + beam.frontier.len()
}

/// Goes on from the nearest point of the frontier until the search is over.
pub open spec fn explore(b: Seq<u8>, ef: nat, dist: spec_fn(u32) -> u32, beam: Beam) -> Beam
    decreases effort(beam),
{
    if is_over(beam, ef) {
        beam
    } else {
        let rest = Beam { frontier: beam.frontier.drop_first(), ..beam };
        let ids = graph::neighbor_ids(b, beam.frontier[0].1, 0);
        proof {
            lemma_visit_effort(rest, ef, dist, ids);
        }
        explore(b, ef, dist, visit(rest, ef, dist, ids))
    }
}

/// The hits of a graph search that scores point by point.
pub open spec fn graph_hits(b: Seq<u8>, dist: spec_fn(u32) -> u32, ef: nat) -> Seq<DistId> {
    explore(b, ef, dist, first_beam(descent(b, dist))).results
}

proof fn lemma_unseen(seen: Set<u32>, id: u32)
    requires
        !seen.contains(id),
    ensures
        seen.insert(id).complement().len() + 1 == seen.complement().len(),
{
    let unseen = seen.complement();
    u32::full_properties();
    lemma_len_subset(unseen, Set::<u32>::full());
    assert(seen.insert(id).complement() =~= unseen.remove(id));
}

proof fn lemma_offer_frontier(beam: Beam, ef: nat, h: DistId)
    ensures
        offer(beam, ef, h).seen == beam.seen,
        offer(beam, ef, h).frontier.len() <= beam.frontier.len() + 1,
{
    hits::ranked_is_the_ascending_order(beam.frontier.push(h), beam.frontier);
}

pub proof fn lemma_visit_effort(beam: Beam, ef: nat, dist: spec_fn(u32) -> u32, ids: Seq<u32>)
    ensures
        effort(visit(beam, ef, dist, ids)) <= effort(beam),
    decreases ids.len(),
{
    if ids.len() > 0 {
        if beam.seen.contains(ids[0]) {
            lemma_visit_effort(beam, ef, dist, ids.drop_first());
        } else {
            let marked = Beam { seen: beam.seen.insert(ids[0]), ..beam };
            let h = DistId(dist(ids[0]), ids[0]);
            lemma_unseen(beam.seen, ids[0]);
            lemma_offer_frontier(marked, ef, h);
            lemma_visit_effort(offer(marked, ef, h), ef, dist, ids.drop_first());
        }
    }
}

// ---------------------------------------------------------------------------
// Graph search in batches
// ---------------------------------------------------------------------------

/// A search that scores new points only once a batch of them is full.
pub struct BatchBeam {
    pub beam: Beam,
    /// Points that were seen and wait for their score.
    pub pending: Seq<u32>,
}

/// Offers scored points in order.
pub open spec fn offer_all(beam: Beam, ef: nat, ids: Seq<u32>, dists: Seq<u32>) -> Beam
    decreases ids.len(),
{
    if ids.len() == 0 {
        beam
    } else {
        offer_all(
            offer(beam, ef, DistId(dists[0], ids[0])),
            ef,
            ids.drop_first(),
            dists.drop_first(),
        )
    }
}

/// Puts the points that were not seen before in the batch, in order, and offers
/// the batch whenever it is full.
pub open spec fn gather(
    s: BatchBeam,
    ef: nat,
    score: spec_fn(Seq<u32>) -> Seq<u32>,
    ids: Seq<u32>,
) -> BatchBeam
    decreases ids.len(),
{
    if ids.len() == 0 {
        s
    } else if s.beam.seen.contains(ids[0]) {
        gather(s, ef, score, ids.drop_first())
    } else {
        let marked = Beam { seen: s.beam.seen.insert(ids[0]), ..s.beam };
        let pending = s.pending.push(ids[0]);
        let next = if pending.len() == FASTSCAN_N {
            BatchBeam {
                beam: offer_all(marked, ef, pending, score(pending)),
                pending: Seq::empty(),
            }
        } else {
            BatchBeam { beam: marked, pending }
        };
        gather(next, ef, score, ids.drop_first())
    }
}

/// Goes on from the nearest point of the frontier until the search is over.
pub open spec fn explore_batches(
    b: Seq<u8>,
    ef: nat,
    score: spec_fn(Seq<u32>) -> Seq<u32>,
    s: BatchBeam,
) -> BatchBeam
    decreases effort(s.beam) + s.pending.len(),
{
    if is_over(s.beam, ef) {
        s
    } else {
        let rest = BatchBeam {
            beam: Beam { frontier: s.beam.frontier.drop_first(), ..s.beam },
            pending: s.pending,
        };
        let ids = graph::neighbor_ids(b, s.beam.frontier[0].1, 0);
        proof {
            lemma_gather_effort(rest, ef, score, ids);
        }
        explore_batches(b, ef, score, gather(rest, ef, score, ids))
    }
}

/// The hits of a graph search that scores in batches. The points that still wait
/// when the search is over are scored, but not gone on from.
pub open spec fn batch_graph_hits(
    b: Seq<u8>,
    dist: spec_fn(u32) -> u32,
    score: spec_fn(Seq<u32>) -> Seq<u32>,
    ef: nat,
) -> Seq<DistId> {
    let s = explore_batches(
        b,
        ef,
        score,
        BatchBeam { beam: first_beam(descent(b, dist)), pending: Seq::empty() },
    );
    offer_all(s.beam, ef, s.pending, score(s.pending)).results
}

proof fn lemma_offer_all_frontier(beam: Beam, ef: nat, ids: Seq<u32>, dists: Seq<u32>)
    ensures
        offer_all(beam, ef, ids, dists).seen == beam.seen,
        offer_all(beam, ef, ids, dists).frontier.len() <= beam.frontier.len() + ids.len(),
    decreases ids.len(),
{
    if ids.len() > 0 {
        let h = DistId(dists[0], ids[0]);
        lemma_offer_frontier(beam, ef, h);
        lemma_offer_all_frontier(
            offer(beam, ef, h),
            ef,
            ids.drop_first(),
            dists.drop_first(),
        );
    }
}

pub proof fn lemma_gather_effort(
    s: BatchBeam,
    ef: nat,
    score: spec_fn(Seq<u32>) -> Seq<u32>,
    ids: Seq<u32>,
)
    ensures
        effort(gather(s, ef, score, ids).beam) + gather(s, ef, score, ids).pending.len() <= effort(
            s.beam,
        ) + s.pending.len(),
    decreases ids.len(),
{
    if ids.len() > 0 {
        if s.beam.seen.contains(ids[0]) {
            lemma_gather_effort(s, ef, score, ids.drop_first());
        } else {
            let marked = Beam { seen: s.beam.seen.insert(ids[0]), ..s.beam };
            let pending = s.pending.push(ids[0]);
            lemma_unseen(s.beam.seen, ids[0]);
            if pending.len() == FASTSCAN_N {
                lemma_offer_all_frontier(marked, ef, pending, score(pending));
                let next = BatchBeam {
                    beam: offer_all(marked, ef, pending, score(pending)),
                    pending: Seq::empty(),
                };
                lemma_gather_effort(next, ef, score, ids.drop_first());
            } else {
                let next = BatchBeam { beam: marked, pending };
                lemma_gather_effort(next, ef, score, ids.drop_first());
            }
        }
    }
}

// ---------------------------------------------------------------------------
// Searching
// ---------------------------------------------------------------------------

/// The larger of two widths.
pub open spec fn wider(ef: nat, k: nat) -> nat {
    if ef < k {
        k
    } else {
        ef
    }
}

/// The nearest of a hit and its neighbours on a layer.
fn nearest_neighbor<F: Fn(u32) -> u32>(
    graph: &CompactHnswGraph,
    layer: usize,
    row_distance: &F,
    at: DistId,
) -> (r: DistId)
    requires
        links_in_range(graph@),
        scores_points(*row_distance, graph::num_points_of(graph@)),
        at.1 < graph::num_points_of(graph@),
    ensures
        forall|dist: spec_fn(u32) -> u32| #[trigger]
            computes(*row_distance, dist) ==> r == nearest(
                dist,
                at,
                graph::neighbor_ids(graph@, at.1, layer as nat),
            ),
        r.1 < graph::num_points_of(graph@),
        r == at || floatbits::less(r.0, at.0),
{
    let ghost ids = graph::neighbor_ids(graph@, at.1, layer as nat);
    let mut best: DistId = at;
    let mut it: NeighborIter = graph.neighbors(at.1, layer);
    loop
        invariant
            scores_points(*row_distance, graph::num_points_of(graph@)),
            ids == graph::neighbor_ids(graph@, at.1, layer as nat),
            all_below(it@, graph::num_points_of(graph@)),
            best.1 < graph::num_points_of(graph@),
            best == at || floatbits::less(best.0, at.0),
            forall|dist: spec_fn(u32) -> u32| #[trigger]
                computes(*row_distance, dist) ==> nearest(dist, best, it@) == nearest(
                    dist,
                    at,
                    ids,
                ),
        decreases it@.len(),
    {
        let ghost rest = it@;
        match it.next() {
            None => {
                return best;
            },
            Some(id) => {
                assert(rest[0] == id);
                let d: u32 = row_distance(id);
                proof {
                    floatbits::less_is_strict_order(d, best.0, at.0);
                    assert forall|i: int| 0 <= i < it@.len() implies #[trigger] it@[i]
                        < graph::num_points_of(graph@) by {
                        assert(it@[i] == rest[i + 1]);
                    }
                }
                if lt(d, best.0) {
                    best = DistId(d, id);
                }
            },
        }
    }
}

/// Walks down to where the search enters the lowest layer.
fn descend<F: Fn(u32) -> u32>(graph: &CompactHnswGraph, row_distance: &F) -> (r: DistId)
    requires
        links_in_range(graph@),
        scores_points(*row_distance, graph::num_points_of(graph@)),
        graph::num_points_of(graph@) > 0,
    ensures
        forall|dist: spec_fn(u32) -> u32| #[trigger]
            computes(*row_distance, dist) ==> r == descent(graph@, dist),
        r.1 < graph::num_points_of(graph@),
{
    let entry: u32 = graph.entry_point();
    let mut at: DistId = DistId(row_distance(entry), entry);
    let mut layer: u8 = graph.entry_layer();
    while layer > 0
        invariant
            links_in_range(graph@),
            scores_points(*row_distance, graph::num_points_of(graph@)),
            at.1 < graph::num_points_of(graph@),
            forall|dist: spec_fn(u32) -> u32| #[trigger]
                computes(*row_distance, dist) ==> walk_down(graph@, dist, layer as nat, at)
                    == descent(graph@, dist),
        decreases layer,
    {
        let ghost from = at;
        let mut improved: bool = true;
        while improved
            invariant
                links_in_range(graph@),
                scores_points(*row_distance, graph::num_points_of(graph@)),
                at.1 < graph::num_points_of(graph@),
                improved ==> forall|dist: spec_fn(u32) -> u32| #[trigger]
                    computes(*row_distance, dist) ==> walk_layer(graph@, dist, layer as nat, at)
                        == walk_layer(graph@, dist, layer as nat, from),
                !improved ==> forall|dist: spec_fn(u32) -> u32| #[trigger]
                    computes(*row_distance, dist) ==> at == walk_layer(
                        graph@,
                        dist,
                        layer as nat,
                        from,
                    ),
            decreases floatbits::total_rank(at.0) + floatbits::SIGN_BIT, improved as int,
        {
            let next: DistId = nearest_neighbor(graph, layer as usize, row_distance, at);
            improved = lt(next.0, at.0);
            proof {
                floatbits::less_is_strict_order(at.0, at.0, at.0);
            }
            at = next;
        }
        layer = layer - 1;
    }
    at
}

/// Offers a scored point to a search.
fn offer_hit(frontier: &mut Frontier, results: &mut NearestHits, ef: usize, h: DistId)
    ensures
        forall|seen: Set<u32>|
            #[trigger] offer(
                Beam { frontier: old(frontier)@, results: old(results)@, seen },
                ef as nat,
                h,
            ) == (Beam { frontier: final(frontier)@, results: final(results)@, seen }),
{
    let farthest: u32 = match results.peek() {
        Some(f) => f.0,
        None => INFINITY_BITS,
    };
    if lt(h.0, farthest) || results.len() < ef {
        frontier.push(h);
        results.push(h);
        proof {
            hits::ranked_is_the_ascending_order(old(results)@.push(h), results@);
        }
        if results.len() > ef {
            results.pop();
        }
    }
}

/// Offers a batch of scored points to a search.
fn offer_batch(
    frontier: &mut Frontier,
    results: &mut NearestHits,
    ef: usize,
    ids: &Vec<u32>,
    dists: &Vec<u32>,
)
    requires
        ids@.len() == dists@.len(),
    ensures
        forall|seen: Set<u32>|
            #[trigger] offer_all(
                Beam { frontier: old(frontier)@, results: old(results)@, seen },
                ef as nat,
                ids@,
                dists@,
            ) == (Beam { frontier: final(frontier)@, results: final(results)@, seen }),
{
    let n: usize = ids.len();
    let ghost frontier0 = frontier@;
    let ghost results0 = results@;
    assert(ids@.skip(0) =~= ids@ && dists@.skip(0) =~= dists@);
    for i in 0..n
        invariant
            n == ids@.len(),
            n == dists@.len(),
            forall|seen: Set<u32>|
                offer_all(
                    Beam { frontier: frontier@, results: results@, seen },
                    ef as nat,
                    ids@.skip(i as int),
                    dists@.skip(i as int),
                ) == #[trigger] offer_all(
                    Beam { frontier: frontier0, results: results0, seen },
                    ef as nat,
                    ids@,
                    dists@,
                ),
    {
        let ghost f = frontier@;
        let ghost r = results@;
        let h = DistId(dists[i], ids[i]);
        offer_hit(frontier, results, ef, h);
        proof {
            assert(ids@.skip(i as int).drop_first() =~= ids@.skip(i + 1));
            assert(dists@.skip(i as int).drop_first() =~= dists@.skip(i + 1));
            assert forall|seen: Set<u32>|
                offer_all(
                    Beam { frontier: frontier@, results: results@, seen },
                    ef as nat,
                    ids@.skip(i + 1),
                    dists@.skip(i + 1),
                ) == #[trigger] offer_all(
                    Beam { frontier: frontier0, results: results0, seen },
                    ef as nat,
                    ids@,
                    dists@,
                ) by {
                assert(offer(Beam { frontier: f, results: r, seen }, ef as nat, h) == (Beam {
                    frontier: frontier@,
                    results: results@,
                    seen,
                }));
            }
        }
    }
    assert(ids@.skip(n as int).len() == 0);
}

/// Looks at the neighbours of a point.
fn visit_neighbors<F: Fn(u32) -> u32>(
    graph: &CompactHnswGraph,
    row_distance: &F,
    ef: usize,
    point: u32,
    frontier: &mut Frontier,
    results: &mut NearestHits,
    visited: &mut VisitedSet,
)
    requires
        links_in_range(graph@),
        scores_points(*row_distance, graph::num_points_of(graph@)),
        graph::num_points_of(graph@) <= old(visited).bound(),
    ensures
        forall|dist: spec_fn(u32) -> u32| #[trigger]
            computes(*row_distance, dist) ==> visit(
                Beam { frontier: old(frontier)@, results: old(results)@, seen: old(visited)@ },
                ef as nat,
                dist,
                graph::neighbor_ids(graph@, point, 0),
            ) == (Beam {
                frontier: final(frontier)@,
                results: final(results)@,
                seen: final(visited)@,
            }),
        effort(
            Beam {
                frontier: final(frontier)@,
                results: final(results)@,
                seen: final(visited)@,
            },
        ) <= effort(
            Beam { frontier: old(frontier)@, results: old(results)@, seen: old(visited)@ },
        ),
        final(visited).bound() == old(visited).bound(),
{
    let ghost ids = graph::neighbor_ids(graph@, point, 0);
    let ghost first = Beam { frontier: frontier@, results: results@, seen: visited@ };
    let ghost bound = visited.bound();
    let mut it: NeighborIter = graph.neighbors(point, 0);
    loop
        invariant
            scores_points(*row_distance, graph::num_points_of(graph@)),
            graph::num_points_of(graph@) <= bound,
            visited.bound() == bound,
            all_below(it@, graph::num_points_of(graph@)),
            effort(Beam { frontier: frontier@, results: results@, seen: visited@ }) <= effort(
                first,
            ),
            forall|dist: spec_fn(u32) -> u32| #[trigger]
                computes(*row_distance, dist) ==> visit(
                    Beam { frontier: frontier@, results: results@, seen: visited@ },
                    ef as nat,
                    dist,
                    it@,
                ) == visit(first, ef as nat, dist, ids),
        ensures
            it@.len() == 0,
        decreases it@.len(),
    {
        let ghost rest = it@;
        let ghost before = Beam { frontier: frontier@, results: results@, seen: visited@ };
        match it.next() {
            None => {
                break;
            },
            Some(id) => {
                assert(rest[0] == id);
                assert forall|i: int| 0 <= i < it@.len() implies #[trigger] it@[i]
                    < graph::num_points_of(graph@) by {
                    assert(it@[i] == rest[i + 1]);
                }
                if visited.mark(id) {
                    let d: u32 = row_distance(id);
                    let h = DistId(d, id);
                    offer_hit(frontier, results, ef, h);
                    proof {
                        let marked = Beam { seen: visited@, ..before };
                        lemma_unseen(before.seen, id);
                        lemma_offer_frontier(marked, ef as nat, h);
                        assert(offer(marked, ef as nat, h) == (Beam {
                            frontier: frontier@,
                            results: results@,
                            seen: visited@,
                        }));
                    }
                } else {
                    assert(before.seen.insert(id) =~= before.seen);
                }
            },
        }
    }
}

/// The first `k` hits as search results.
fn take_top(ranking: Vec<DistId>, k: usize) -> (r: Vec<SearchResult>)
    ensures
        r@ == top(ranking@, k as nat),
{
    let n: usize = if k < ranking.len() {
        k
    } else {
        ranking.len()
    };
    let mut out: Vec<SearchResult> = Vec::new();
    for i in 0..n
        invariant
            n <= ranking@.len(),
            out@.len() == i,
            forall|j: int|
                0 <= j < i ==> #[trigger] out@[j] == (SearchResult {
                    doc_id: ranking@[j].1,
                    distance: ranking@[j].0,
                }),
    {
        out.push(SearchResult { doc_id: ranking[i].1, distance: ranking[i].0 });
    }
    assert(out@ =~= top(ranking@, k as nat));
    out
}

/// Best-first search of the graph that scores point by point.
pub fn search_graph<F: Fn(u32) -> u32>(
    graph: &CompactHnswGraph,
    k: usize,
    ef: usize,
    row_distance: F,
) -> (r: Vec<SearchResult>)
    requires
        links_in_range(graph@),
        scores_points(row_distance, graph::num_points_of(graph@)),
        graph::num_points_of(graph@) > 0,
    ensures
        forall|dist: spec_fn(u32) -> u32| #[trigger]
            computes(row_distance, dist) ==> r@ == top(
                graph_hits(graph@, dist, wider(ef as nat, k as nat)),
                k as nat,
            ),
{
    let width: usize = if ef < k {
        k
    } else {
        ef
    };
    let at: DistId = descend(graph, &row_distance);
    let mut frontier = Frontier::new();
    let mut results = NearestHits::new();
    let mut visited = VisitedSet::new(graph.num_points());
    let _ = visited.mark(at.1);
    frontier.push(at);
    results.push(at);
    proof {
        lemma_ranked_single(at);
        assert(Seq::<DistId>::empty().push(at) =~= seq![at]);
    }
    loop
        invariant_except_break
            forall|dist: spec_fn(u32) -> u32| #[trigger]
                computes(row_distance, dist) ==> explore(
                    graph@,
                    width as nat,
                    dist,
                    Beam { frontier: frontier@, results: results@, seen: visited@ },
                ).results == graph_hits(graph@, dist, width as nat),
        invariant
            links_in_range(graph@),
            scores_points(row_distance, graph::num_points_of(graph@)),
            graph::num_points_of(graph@) <= visited.bound(),
        ensures
            forall|dist: spec_fn(u32) -> u32| #[trigger]
                computes(row_distance, dist) ==> results@ == graph_hits(
                    graph@,
                    dist,
                    width as nat,
                ),
        decreases effort(Beam { frontier: frontier@, results: results@, seen: visited@ }),
    {
        match frontier.pop() {
            None => {
                break;
            },
            Some(c) => {
                let farthest: u32 = match results.peek() {
                    Some(f) => f.0,
                    None => INFINITY_BITS,
                };
                if lt(farthest, c.0) && results.len() >= width {
                    break;
                }
                visit_neighbors(
                    graph,
                    &row_distance,
                    width,
                    c.1,
                    &mut frontier,
                    &mut results,
                    &mut visited,
                );
            },
        }
    }
    take_top(results.into_vec(), k)
}

proof fn lemma_ranked_single(h: DistId)
    ensures
        hits::ranked(Seq::empty().push(h)) == seq![h],
{
    hits::ranked_is_the_ascending_order(Seq::empty().push(h), seq![h]);
    assert(Seq::empty().push(h) =~= seq![h]);
}

/// Puts the neighbours of a point in the batch, scoring it whenever it is full.
fn gather_neighbors<B: Fn(&[u32]) -> Vec<u32>>(
    graph: &CompactHnswGraph,
    batch_distance: &B,
    ef: usize,
    point: u32,
    frontier: &mut Frontier,
    results: &mut NearestHits,
    visited: &mut VisitedSet,
    pending: &mut Vec<u32>,
)
    requires
        links_in_range(graph@),
        scores_batches(*batch_distance, graph::num_points_of(graph@)),
        graph::num_points_of(graph@) <= old(visited).bound(),
        old(pending)@.len() < FASTSCAN_N,
        all_below(old(pending)@, graph::num_points_of(graph@)),
    ensures
        forall|score: spec_fn(Seq<u32>) -> Seq<u32>| #[trigger]
            computes_batches(*batch_distance, score) ==> gather(
                BatchBeam {
                    beam: Beam {
                        frontier: old(frontier)@,
                        results: old(results)@,
                        seen: old(visited)@,
                    },
                    pending: old(pending)@,
                },
                ef as nat,
                score,
                graph::neighbor_ids(graph@, point, 0),
            ) == (BatchBeam {
                beam: Beam {
                    frontier: final(frontier)@,
                    results: final(results)@,
                    seen: final(visited)@,
                },
                pending: final(pending)@,
            }),
        effort(
            Beam {
                frontier: final(frontier)@,
                results: final(results)@,
                seen: final(visited)@,
            },
        ) + final(pending)@.len() <= effort(
            Beam { frontier: old(frontier)@, results: old(results)@, seen: old(visited)@ },
        ) + old(pending)@.len(),
        final(visited).bound() == old(visited).bound(),
        final(pending)@.len() < FASTSCAN_N,
        all_below(final(pending)@, graph::num_points_of(graph@)),
{
    let ghost ids = graph::neighbor_ids(graph@, point, 0);
    let ghost first = BatchBeam {
        beam: Beam { frontier: frontier@, results: results@, seen: visited@ },
        pending: pending@,
    };
    let ghost bound = visited.bound();
    let mut it: NeighborIter = graph.neighbors(point, 0);
    loop
        invariant
            scores_batches(*batch_distance, graph::num_points_of(graph@)),
            graph::num_points_of(graph@) <= bound,
            visited.bound() == bound,
            all_below(it@, graph::num_points_of(graph@)),
            pending@.len() < FASTSCAN_N,
            all_below(pending@, graph::num_points_of(graph@)),
            effort(Beam { frontier: frontier@, results: results@, seen: visited@ })
                + pending@.len() <= effort(first.beam) + first.pending.len(),
            forall|score: spec_fn(Seq<u32>) -> Seq<u32>| #[trigger]
                computes_batches(*batch_distance, score) ==> gather(
                    BatchBeam {
                        beam: Beam { frontier: frontier@, results: results@, seen: visited@ },
                        pending: pending@,
                    },
                    ef as nat,
                    score,
                    it@,
                ) == gather(first, ef as nat, score, ids),
        ensures
            it@.len() == 0,
        decreases it@.len(),
    {
        let ghost rest = it@;
        let ghost before = BatchBeam {
            beam: Beam { frontier: frontier@, results: results@, seen: visited@ },
            pending: pending@,
        };
        match it.next() {
            None => {
                break;
            },
            Some(id) => {
                assert(rest[0] == id);
                assert forall|i: int| 0 <= i < it@.len() implies #[trigger] it@[i]
                    < graph::num_points_of(graph@) by {
                    assert(it@[i] == rest[i + 1]);
                }
                if visited.mark(id) {
                    proof {
                        lemma_unseen(before.beam.seen, id);
                    }
                    pending.push(id);
                    if pending.len() == FASTSCAN_N {
                        let dists: Vec<u32> = batch_distance(pending.as_slice());
                        offer_batch(frontier, results, ef, pending, &dists);
                        proof {
                            let marked = Beam { seen: visited@, ..before.beam };
                            lemma_offer_all_frontier(marked, ef as nat, pending@, dists@);
                            assert(offer_all(marked, ef as nat, pending@, dists@) == (Beam {
                                frontier: frontier@,
                                results: results@,
                                seen: visited@,
                            }));
                        }
                        pending.clear();
                        assert(pending@ =~= Seq::<u32>::empty());
                    }
                } else {
                    assert(before.beam.seen.insert(id) =~= before.beam.seen);
                }
            },
        }
    }
}

/// Best-first search of the graph that scores new points in batches.
pub fn search_graph_dot<F: Fn(u32) -> u32, B: Fn(&[u32]) -> Vec<u32>>(
    graph: &CompactHnswGraph,
    k: usize,
    ef: usize,
    row_distance: F,
    batch_distance: B,
) -> (r: Vec<SearchResult>)
    requires
        links_in_range(graph@),
        scores_points(row_distance, graph::num_points_of(graph@)),
        scores_batches(batch_distance, graph::num_points_of(graph@)),
        graph::num_points_of(graph@) > 0,
    ensures
        forall|dist: spec_fn(u32) -> u32, score: spec_fn(Seq<u32>) -> Seq<u32>| #[trigger]
            computes(row_distance, dist) && #[trigger] computes_batches(batch_distance, score)
                ==> r@ == top(
                batch_graph_hits(graph@, dist, score, wider(ef as nat, k as nat)),
                k as nat,
            ),
{
    let width: usize = if ef < k {
        k
    } else {
        ef
    };
    let at: DistId = descend(graph, &row_distance);
    let mut frontier = Frontier::new();
    let mut results = NearestHits::new();
    let mut visited = VisitedSet::new(graph.num_points());
    let mut pending: Vec<u32> = Vec::new();
    let _ = visited.mark(at.1);
    frontier.push(at);
    results.push(at);
    proof {
        lemma_ranked_single(at);
        assert(Seq::<DistId>::empty().push(at) =~= seq![at]);
    }
    let ghost first = BatchBeam { beam: first_beam(at), pending: Seq::empty() };
    loop
        invariant_except_break
            forall|score: spec_fn(Seq<u32>) -> Seq<u32>| #[trigger]
                computes_batches(batch_distance, score) ==> explore_batches(
                    graph@,
                    width as nat,
                    score,
                    BatchBeam {
                        beam: Beam { frontier: frontier@, results: results@, seen: visited@ },
                        pending: pending@,
                    },
                ) == explore_batches(graph@, width as nat, score, first),
        invariant
            links_in_range(graph@),
            scores_batches(batch_distance, graph::num_points_of(graph@)),
            graph::num_points_of(graph@) <= visited.bound(),
            pending@.len() < FASTSCAN_N,
            all_below(pending@, graph::num_points_of(graph@)),
        ensures
            forall|score: spec_fn(Seq<u32>) -> Seq<u32>| #[trigger]
                computes_batches(batch_distance, score) ==> {
                    let last = explore_batches(graph@, width as nat, score, first);
                    results@ == last.beam.results && pending@ == last.pending
                },
        decreases
                effort(Beam { frontier: frontier@, results: results@, seen: visited@ })
                    + pending@.len(),
    {
        match frontier.pop() {
            None => {
                break;
            },
            Some(c) => {
                let farthest: u32 = match results.peek() {
                    Some(f) => f.0,
                    None => INFINITY_BITS,
                };
                if lt(farthest, c.0) && results.len() >= width {
                    break;
                }
                gather_neighbors(
                    graph,
                    &batch_distance,
                    width,
                    c.1,
                    &mut frontier,
                    &mut results,
                    &mut visited,
                    &mut pending,
                );
            },
        }
    }
    let ghost left = results@;
    if pending.len() > 0 {
        let dists: Vec<u32> = batch_distance(pending.as_slice());
        let ghost rest = frontier@;
        offer_batch(&mut frontier, &mut results, width, &pending, &dists);
        proof {
            assert forall|score: spec_fn(Seq<u32>) -> Seq<u32>| #[trigger]
                computes_batches(batch_distance, score) implies results@ == ({
                let last = explore_batches(graph@, width as nat, score, first);
                offer_all(last.beam, width as nat, last.pending, score(last.pending)).results
            }) by {
                let last = explore_batches(graph@, width as nat, score, first);
                lemma_offer_all_results(
                    Beam { frontier: rest, results: left, seen: last.beam.seen },
                    last.beam,
                    width as nat,
                    pending@,
                    dists@,
                );
            }
        }
    }
    take_top(results.into_vec(), k)
}

/// Which hits are kept does not depend on the frontier.
proof fn lemma_offer_all_results(a: Beam, b: Beam, ef: nat, ids: Seq<u32>, dists: Seq<u32>)
    requires
        a.results == b.results,
    ensures
        offer_all(a, ef, ids, dists).results == offer_all(b, ef, ids, dists).results,
    decreases ids.len(),
{
    if ids.len() > 0 {
        let h = DistId(dists[0], ids[0]);
        lemma_offer_all_results(
            offer(a, ef, h),
            offer(b, ef, h),
            ef,
            ids.drop_first(),
            dists.drop_first(),
        );
    }
}

/// Scores every point.
pub fn exhaustive_search<F: Fn(u32) -> u32>(
    graph: &CompactHnswGraph,
    k: usize,
    row_distance: F,
) -> (r: Vec<SearchResult>)
    requires
        scores_points(row_distance, graph::num_points_of(graph@)),
    ensures
        forall|dist: spec_fn(u32) -> u32| #[trigger]
            computes(row_distance, dist) ==> r@ == top(
                hits::ranked(all_hits(dist, graph::num_points_of(graph@) as nat)),
                k as nat,
            ),
{
    let n: u32 = graph.num_points();
    let mut out: Vec<DistId> = Vec::new();
    for id in 0..n
        invariant
            scores_points(row_distance, n),
            out@.len() == id,
            forall|dist: spec_fn(u32) -> u32| #[trigger]
                computes(row_distance, dist) ==> out@ == all_hits(dist, id as nat),
    {
        let d: u32 = row_distance(id);
        let ghost before = out@;
        out.push(DistId(d, id));
        assert forall|dist: spec_fn(u32) -> u32| #[trigger]
            computes(row_distance, dist) implies out@ == all_hits(dist, (id + 1) as nat) by {
            assert(before == all_hits(dist, id as nat));
            assert(out@ =~= all_hits(dist, (id + 1) as nat));
        }
    }
    take_top(sort_hits(out), k)
}

/// What a search finds: nothing where nothing is asked for or there are no
/// points, every point where as many are asked for as there are, and else what
/// the graph search for the metric finds.
pub open spec fn found(
    b: Seq<u8>,
    metric: Metric,
    dist: spec_fn(u32) -> u32,
    score: spec_fn(Seq<u32>) -> Seq<u32>,
    k: nat,
    ef: nat,
) -> Seq<SearchResult> {
    if graph::num_points_of(b) == 0 || k == 0 {
        Seq::empty()
    } else if graph::num_points_of(b) <= k {
        top(hits::ranked(all_hits(dist, graph::num_points_of(b) as nat)), k)
    } else if metric == Metric::L2 {
        top(graph_hits(b, dist, wider(ef, k)), k)
    } else {
        top(batch_graph_hits(b, dist, score, wider(ef, k)), k)
    }
}

/// The `k` points nearest to a query, nearest first, as far as the graph search
/// of width `ef` (at least `k`) finds them.
pub fn search<F: Fn(u32) -> u32, B: Fn(&[u32]) -> Vec<u32>>(
    graph: &CompactHnswGraph,
    dist: VectorDistance,
    k: usize,
    ef: usize,
    row_distance: F,
    batch_distance: B,
) -> (r: Vec<SearchResult>)
    requires
        graph::num_points_of(graph@) > k > 0 ==> links_in_range(graph@),
        scores_points(row_distance, graph::num_points_of(graph@)),
        scores_batches(batch_distance, graph::num_points_of(graph@)),
    ensures
        forall|
            distances: spec_fn(u32) -> u32,
            score: spec_fn(Seq<u32>) -> Seq<u32>,
        | #[trigger]
            computes(row_distance, distances) && #[trigger] computes_batches(batch_distance, score)
                ==> r@ == found(
                graph@,
                dist.spec_metric(),
                distances,
                score,
                k as nat,
                ef as nat,
            ),
{
    let n: u32 = graph.num_points();
    if n == 0 || k == 0 {
        return Vec::new();
    }
    if n as usize <= k {
        return exhaustive_search(graph, k, row_distance);
    }
    match dist.metric() {
        Metric::L2 => search_graph(graph, k, ef, row_distance),
        Metric::Dot => search_graph_dot(graph, k, ef, row_distance, batch_distance),
    }
}

/// Whether every link of the graph leads to a point of the graph.
pub fn check_links(graph: &CompactHnswGraph) -> (r: bool)
    ensures
        r == links_in_range(graph@),
{
    let n: u32 = graph.num_points();
    if n > 0 && graph.entry_point() >= n {
        return false;
    }
    let counts = graph.layer_counts();
    for point in 0..n
        invariant
            n == graph::num_points_of(graph@),
            counts@ == graph@.subrange(9, 9 + n),
            graph@.len() >= 9 + n,
            forall|p: u32, layer: nat|
                p < point ==> all_below(#[trigger] graph::neighbor_ids(graph@, p, layer), n),
    {
        let layers: u8 = counts[point as usize];
        for layer in 0..layers
            invariant
                n == graph::num_points_of(graph@),
                point < n,
                forall|l: nat|
                    l < layer ==> all_below(
                        #[trigger] graph::neighbor_ids(graph@, point, l),
                        n,
                    ),
        {
            let ids: Vec<u32> = graph.neighbors(point, layer as usize).collect();
            for i in 0..ids.len()
                invariant
                    n == graph::num_points_of(graph@),
                    ids@ == graph::neighbor_ids(graph@, point, layer as nat),
                    forall|j: int| 0 <= j < i ==> #[trigger] ids@[j] < n,
            {
                if ids[i] >= n {
                    return false;
                }
            }
        }
    }
    true
}

} // verus!
