//! What every search of the neighbour graph keeps.

use vstd::prelude::*;
use vstd::set_lib::*;

use crate::floatbits;
use crate::graph;
use crate::hits;
use crate::hits::DistId;
use crate::options::Metric;
use crate::search;
use crate::search::{BatchBeam, Beam, SearchResult};
use crate::turboquant::FASTSCAN_N;

verus! {

/// What every state of a search keeps: ordered hits of different points, all of
/// them seen, and at most as many as the search is wide.
spec fn tidy(beam: Beam, n: u32, ef: nat) -> bool {
    &&& hits::ascending(beam.results)
    &&& 1 <= beam.results.len() <= search::wider(ef, 1)
    &&& forall|i: int|
        0 <= i < beam.results.len() ==> beam.seen.contains((#[trigger] beam.results[i]).1)
    &&& forall|i: int, j: int|
        0 <= i < j < beam.results.len() ==> (#[trigger] beam.results[i]).1 != (
        #[trigger] beam.results[j]).1
    &&& forall|id: u32| #[trigger] beam.seen.contains(id) ==> id < n
}

proof fn lemma_offer_tidy(beam: Beam, n: u32, ef: nat, h: DistId)
    requires
        tidy(beam, n, ef),
        beam.seen.contains(h.1),
        forall|i: int| 0 <= i < beam.results.len() ==> (#[trigger] beam.results[i]).1 != h.1,
    ensures
        tidy(search::offer(beam, ef, h), n, ef),
        search::offer(beam, ef, h).seen == beam.seen,
        forall|g: DistId| #[trigger]
            search::offer(beam, ef, h).results.contains(g) ==> g == h || beam.results.contains(g),
{
    let next = search::offer(beam, ef, h);
    if floatbits::less(h.0, search::worst(beam.results)) || beam.results.len() < ef {
        let p = hits::lemma_ranked_push(beam.results, h);
        let grown = beam.results.insert(p, h);
        assert forall|i: int| 0 <= i < grown.len() implies #[trigger] grown[i] == if i < p {
            beam.results[i]
        } else if i == p {
            h
        } else {
            beam.results[i - 1]
        } by {}
        assert(next.results =~= if grown.len() > ef {
            grown.take(beam.results.len() as int)
        } else {
            grown
        });
        assert forall|i: int, j: int| 0 <= i < j < next.results.len() implies (
        #[trigger] next.results[i]).1 != (#[trigger] next.results[j]).1 by {
            assert(next.results[i] == grown[i] && next.results[j] == grown[j]);
        }
        assert forall|i: int| 0 <= i < next.results.len() implies next.seen.contains(
            (#[trigger] next.results[i]).1,
        ) by {
            assert(next.results[i] == grown[i]);
        }
    }
}

proof fn lemma_visit_tidy(
    beam: Beam,
    n: u32,
    ef: nat,
    dist: spec_fn(u32) -> u32,
    ids: Seq<u32>,
)
    requires
        tidy(beam, n, ef),
        search::all_below(ids, n),
    ensures
        tidy(search::visit(beam, ef, dist, ids), n, ef),
    decreases ids.len(),
{
    if ids.len() > 0 {
        let rest = ids.drop_first();
        assert(search::all_below(rest, n));
        if beam.seen.contains(ids[0]) {
            lemma_visit_tidy(beam, n, ef, dist, rest);
        } else {
            let marked = Beam { seen: beam.seen.insert(ids[0]), ..beam };
            let h = DistId(dist(ids[0]), ids[0]);
            assert(ids[0] < n);
            lemma_offer_tidy(marked, n, ef, h);
            lemma_visit_tidy(search::offer(marked, ef, h), n, ef, dist, rest);
        }
    }
}

proof fn lemma_explore_tidy(b: Seq<u8>, ef: nat, dist: spec_fn(u32) -> u32, beam: Beam)
    requires
        search::links_in_range(b),
        tidy(beam, graph::num_points_of(b), ef),
    ensures
        tidy(search::explore(b, ef, dist, beam), graph::num_points_of(b), ef),
    decreases search::effort(beam),
{
    if !search::is_over(beam, ef) {
        let rest = Beam { frontier: beam.frontier.drop_first(), ..beam };
        let ids = graph::neighbor_ids(b, beam.frontier[0].1, 0);
        search::lemma_visit_effort(rest, ef, dist, ids);
        lemma_visit_tidy(rest, graph::num_points_of(b), ef, dist, ids);
        lemma_explore_tidy(b, ef, dist, search::visit(rest, ef, dist, ids));
    }
}

/// What a batched search keeps besides: the waiting points were seen, each once,
/// and none of them is a hit yet.
spec fn waiting(s: BatchBeam) -> bool {
    &&& forall|i: int|
        0 <= i < s.pending.len() ==> s.beam.seen.contains(#[trigger] s.pending[i])
    &&& s.pending.no_duplicates()
    &&& forall|i: int|
        0 <= i < s.beam.results.len() ==> !s.pending.contains((#[trigger] s.beam.results[i]).1)
}

proof fn lemma_offer_waiting(beam: Beam, n: u32, ef: nat, ids: Seq<u32>, h: DistId)
    requires
        tidy(beam, n, ef),
        waiting(BatchBeam { beam, pending: ids }),
        ids.len() > 0,
        h.1 == ids[0],
    ensures
        tidy(search::offer(beam, ef, h), n, ef),
        waiting(BatchBeam { beam: search::offer(beam, ef, h), pending: ids.drop_first() }),
{
    let rest = ids.drop_first();
    let next = search::offer(beam, ef, h);
    assert forall|i: int| 0 <= i < beam.results.len() implies (#[trigger] beam.results[i]).1
        != h.1 by {
        assert(ids.contains(ids[0]));
    }
    lemma_offer_tidy(beam, n, ef, h);
    assert forall|i: int| 0 <= i < rest.len() implies next.seen.contains(#[trigger] rest[i]) by {
        assert(rest[i] == ids[i + 1]);
    }
    assert forall|i: int| 0 <= i < next.results.len() implies !rest.contains(
        (#[trigger] next.results[i]).1,
    ) by {
        let g = next.results[i];
        assert(next.results.contains(g));
        if rest.contains(g.1) {
            let j = choose|j: int| 0 <= j < rest.len() && rest[j] == g.1;
            assert(ids[j + 1] == g.1);
            assert(ids[0] != ids[j + 1]);
            assert(beam.results.contains(g));
            let m = choose|m: int| 0 <= m < beam.results.len() && beam.results[m] == g;
            assert(!ids.contains(beam.results[m].1));
        }
    }
}

proof fn lemma_offer_all_tidy(beam: Beam, n: u32, ef: nat, ids: Seq<u32>, dists: Seq<u32>)
    requires
        tidy(beam, n, ef),
        waiting(BatchBeam { beam, pending: ids }),
    ensures
        tidy(search::offer_all(beam, ef, ids, dists), n, ef),
    decreases ids.len(),
{
    if ids.len() > 0 {
        let h = DistId(dists[0], ids[0]);
        lemma_offer_waiting(beam, n, ef, ids, h);
        lemma_offer_all_tidy(
            search::offer(beam, ef, h),
            n,
            ef,
            ids.drop_first(),
            dists.drop_first(),
        );
    }
}

proof fn lemma_mark_waiting(s: BatchBeam, n: u32, ef: nat, id: u32)
    requires
        tidy(s.beam, n, ef),
        waiting(s),
        id < n,
        !s.beam.seen.contains(id),
    ensures
        tidy(Beam { seen: s.beam.seen.insert(id), ..s.beam }, n, ef),
        waiting(
            BatchBeam {
                beam: Beam { seen: s.beam.seen.insert(id), ..s.beam },
                pending: s.pending.push(id),
            },
        ),
{
    let marked = Beam { seen: s.beam.seen.insert(id), ..s.beam };
    let pending = s.pending.push(id);
    assert forall|i: int| 0 <= i < marked.results.len() implies !pending.contains(
        (#[trigger] marked.results[i]).1,
    ) by {
        assert(s.beam.seen.contains(s.beam.results[i].1));
        if pending.contains(marked.results[i].1) {
            let j = choose|j: int| 0 <= j < pending.len() && pending[j] == marked.results[i].1;
            assert(j < s.pending.len());
            assert(s.pending[j] == marked.results[i].1);
        }
    }
}

proof fn lemma_gather_tidy(
    s: BatchBeam,
    n: u32,
    ef: nat,
    score: spec_fn(Seq<u32>) -> Seq<u32>,
    ids: Seq<u32>,
)
    requires
        tidy(s.beam, n, ef),
        waiting(s),
        search::all_below(ids, n),
    ensures
        tidy(search::gather(s, ef, score, ids).beam, n, ef),
        waiting(search::gather(s, ef, score, ids)),
    decreases ids.len(),
{
    if ids.len() > 0 {
        let rest = ids.drop_first();
        assert(search::all_below(rest, n));
        if s.beam.seen.contains(ids[0]) {
            lemma_gather_tidy(s, n, ef, score, rest);
        } else {
            assert(ids[0] < n);
            let marked = Beam { seen: s.beam.seen.insert(ids[0]), ..s.beam };
            let pending = s.pending.push(ids[0]);
            lemma_mark_waiting(s, n, ef, ids[0]);
            if pending.len() == FASTSCAN_N {
                lemma_offer_all_tidy(marked, n, ef, pending, score(pending));
                let next = BatchBeam {
                    beam: search::offer_all(marked, ef, pending, score(pending)),
                    pending: Seq::empty(),
                };
                lemma_gather_tidy(next, n, ef, score, rest);
            } else {
                lemma_gather_tidy(BatchBeam { beam: marked, pending }, n, ef, score, rest);
            }
        }
    }
}

proof fn lemma_explore_batches_tidy(
    b: Seq<u8>,
    ef: nat,
    score: spec_fn(Seq<u32>) -> Seq<u32>,
    s: BatchBeam,
)
    requires
        search::links_in_range(b),
        tidy(s.beam, graph::num_points_of(b), ef),
        waiting(s),
    ensures
        tidy(search::explore_batches(b, ef, score, s).beam, graph::num_points_of(b), ef),
        waiting(search::explore_batches(b, ef, score, s)),
    decreases search::effort(s.beam) + s.pending.len(),
{
    if !search::is_over(s.beam, ef) {
        let rest = BatchBeam {
            beam: Beam { frontier: s.beam.frontier.drop_first(), ..s.beam },
            pending: s.pending,
        };
        let ids = graph::neighbor_ids(b, s.beam.frontier[0].1, 0);
        search::lemma_gather_effort(rest, ef, score, ids);
        lemma_gather_tidy(rest, graph::num_points_of(b), ef, score, ids);
        lemma_explore_batches_tidy(b, ef, score, search::gather(rest, ef, score, ids));
    }
}

/// A point that was scored is a hit, or there are enough hits without it and it is
/// not nearer than the farthest of them.
pub open spec fn settled(
    results: Seq<DistId>,
    ef: nat,
    dist: spec_fn(u32) -> u32,
    id: u32,
) -> bool {
    ||| results.contains(DistId(dist(id), id))
    ||| results.len() >= ef && !floatbits::less(dist(id), search::worst(results))
}

/// Whether the hits carry the distances of their points.
pub open spec fn rightly_scored(results: Seq<DistId>, dist: spec_fn(u32) -> u32) -> bool {
    forall|i: int| 0 <= i < results.len() ==> (#[trigger] results[i]).0 == dist(results[i].1)
}

proof fn lemma_offer_settled(beam: Beam, n: u32, ef: nat, dist: spec_fn(u32) -> u32, id: u32)
    requires
        tidy(beam, n, ef),
        rightly_scored(beam.results, dist),
    ensures
        rightly_scored(search::offer(beam, ef, DistId(dist(id), id)).results, dist),
        settled(search::offer(beam, ef, DistId(dist(id), id)).results, ef, dist, id),
        forall|x: u32|
            settled(beam.results, ef, dist, x) ==> #[trigger] settled(
                search::offer(beam, ef, DistId(dist(id), id)).results,
                ef,
                dist,
                x,
            ),
{
    let h = DistId(dist(id), id);
    let old_hits = beam.results;
    let new_hits = search::offer(beam, ef, h).results;
    if floatbits::less(h.0, search::worst(old_hits)) || old_hits.len() < ef {
        let p = hits::lemma_ranked_push(old_hits, h);
        let grown = old_hits.insert(p, h);
        let len = old_hits.len() as int;
        assert forall|i: int| 0 <= i < grown.len() implies #[trigger] grown[i] == if i < p {
            old_hits[i]
        } else if i == p {
            h
        } else {
            old_hits[i - 1]
        } by {}
        if grown.len() > ef {
            assert(new_hits == grown.drop_last());
            floatbits::less_is_earlier(h.0, search::worst(old_hits));
            assert(hits::hit_rank(h) < hits::hit_rank(old_hits[len - 1]));
            assert(p < len);
            assert(grown[len] == old_hits[len - 1]);
            assert(new_hits[p] == h);
            assert(hits::hit_rank(grown[len - 1]) <= hits::hit_rank(grown[len]));
            assert(search::worst(new_hits) == grown[len - 1].0);
            assert(floatbits::total_rank(search::worst(new_hits)) <= floatbits::total_rank(
                search::worst(old_hits),
            ));
            assert forall|x: u32| settled(old_hits, ef, dist, x) implies #[trigger] settled(
                new_hits,
                ef,
                dist,
                x,
            ) by {
                let g = DistId(dist(x), x);
                if old_hits.contains(g) {
                    let i = choose|i: int| 0 <= i < old_hits.len() && old_hits[i] == g;
                    if i < p {
                        assert(new_hits[i] == g);
                    } else if i < len - 1 {
                        assert(new_hits[i + 1] == g);
                    } else {
                        floatbits::later_is_not_less(dist(x), search::worst(new_hits));
                    }
                }
            }
        } else {
            assert(new_hits == grown);
            assert(new_hits[p] == h);
            assert forall|x: u32| settled(old_hits, ef, dist, x) implies #[trigger] settled(
                new_hits,
                ef,
                dist,
                x,
            ) by {
                let g = DistId(dist(x), x);
                let i = choose|i: int| 0 <= i < old_hits.len() && old_hits[i] == g;
                assert(new_hits[if i < p {
                    i
                } else {
                    i + 1
                }] == g);
            }
        }
    }
}

/// What every state of a search keeps where each point has one distance: every
/// point that was seen is settled or waits for its score.
spec fn sifted(s: BatchBeam, ef: nat, dist: spec_fn(u32) -> u32) -> bool {
    &&& rightly_scored(s.beam.results, dist)
    &&& forall|id: u32| #[trigger]
        s.beam.seen.contains(id) ==> s.pending.contains(id) || settled(
            s.beam.results,
            ef,
            dist,
            id,
        )
}

proof fn lemma_visit_sifted(
    beam: Beam,
    n: u32,
    ef: nat,
    dist: spec_fn(u32) -> u32,
    ids: Seq<u32>,
)
    requires
        tidy(beam, n, ef),
        search::all_below(ids, n),
        sifted(BatchBeam { beam, pending: Seq::empty() }, ef, dist),
    ensures
        sifted(
            BatchBeam { beam: search::visit(beam, ef, dist, ids), pending: Seq::empty() },
            ef,
            dist,
        ),
    decreases ids.len(),
{
    if ids.len() > 0 {
        let rest = ids.drop_first();
        assert(search::all_below(rest, n));
        if beam.seen.contains(ids[0]) {
            lemma_visit_sifted(beam, n, ef, dist, rest);
        } else {
            let marked = Beam { seen: beam.seen.insert(ids[0]), ..beam };
            let h = DistId(dist(ids[0]), ids[0]);
            assert(ids[0] < n);
            lemma_offer_tidy(marked, n, ef, h);
            lemma_offer_settled(marked, n, ef, dist, ids[0]);
            let next = search::offer(marked, ef, h);
            assert forall|id: u32| #[trigger] next.seen.contains(id) implies settled(
                next.results,
                ef,
                dist,
                id,
            ) by {
                if id != ids[0] {
                    assert(beam.seen.contains(id));
                    assert(!Seq::<u32>::empty().contains(id));
                }
            }
            lemma_visit_sifted(next, n, ef, dist, rest);
        }
    }
}

proof fn lemma_explore_sifted(b: Seq<u8>, ef: nat, dist: spec_fn(u32) -> u32, beam: Beam)
    requires
        search::links_in_range(b),
        tidy(beam, graph::num_points_of(b), ef),
        sifted(BatchBeam { beam, pending: Seq::empty() }, ef, dist),
    ensures
        sifted(
            BatchBeam { beam: search::explore(b, ef, dist, beam), pending: Seq::empty() },
            ef,
            dist,
        ),
    decreases search::effort(beam),
{
    if !search::is_over(beam, ef) {
        let rest = Beam { frontier: beam.frontier.drop_first(), ..beam };
        let ids = graph::neighbor_ids(b, beam.frontier[0].1, 0);
        let n = graph::num_points_of(b);
        assert(sifted(BatchBeam { beam: rest, pending: Seq::empty() }, ef, dist));
        search::lemma_visit_effort(rest, ef, dist, ids);
        lemma_visit_tidy(rest, n, ef, dist, ids);
        lemma_visit_sifted(rest, n, ef, dist, ids);
        lemma_explore_sifted(b, ef, dist, search::visit(rest, ef, dist, ids));
    }
}

/// Whether a batch distance gives each point its row distance.
pub open spec fn agree(score: spec_fn(Seq<u32>) -> Seq<u32>, dist: spec_fn(u32) -> u32) -> bool {
    forall|ids: Seq<u32>| #[trigger] score(ids) == ids.map_values(dist)
}

proof fn lemma_offer_all_sifted(
    beam: Beam,
    n: u32,
    ef: nat,
    dist: spec_fn(u32) -> u32,
    ids: Seq<u32>,
    dists: Seq<u32>,
)
    requires
        tidy(beam, n, ef),
        waiting(BatchBeam { beam, pending: ids }),
        sifted(BatchBeam { beam, pending: ids }, ef, dist),
        forall|i: int| 0 <= i < ids.len() ==> #[trigger] dists[i] == dist(ids[i]),
        ids.len() <= dists.len(),
    ensures
        sifted(
            BatchBeam { beam: search::offer_all(beam, ef, ids, dists), pending: Seq::empty() },
            ef,
            dist,
        ),
    decreases ids.len(),
{
    if ids.len() == 0 {
        assert(ids =~= Seq::empty());
    } else {
        let h = DistId(dists[0], ids[0]);
        let rest = ids.drop_first();
        let next = search::offer(beam, ef, h);
        assert(h == DistId(dist(ids[0]), ids[0]));
        lemma_offer_settled(beam, n, ef, dist, ids[0]);
        lemma_offer_waiting(beam, n, ef, ids, h);
        assert(sifted(BatchBeam { beam: next, pending: rest }, ef, dist)) by {
            assert forall|id: u32| #[trigger] next.seen.contains(id) implies rest.contains(id)
                || settled(next.results, ef, dist, id) by {
                assert(beam.seen.contains(id));
                if ids.contains(id) && id != ids[0] {
                    let j = choose|j: int| 0 <= j < ids.len() && ids[j] == id;
                    assert(rest[j - 1] == id);
                }
            }
        }
        let later = dists.drop_first();
        assert forall|i: int| 0 <= i < rest.len() implies #[trigger] later[i] == dist(
            rest[i],
        ) by {
            assert(later[i] == dists[i + 1] && rest[i] == ids[i + 1]);
        }
        lemma_offer_all_sifted(next, n, ef, dist, rest, later);
    }
}


proof fn lemma_gather_sifted(
    s: BatchBeam,
    n: u32,
    ef: nat,
    dist: spec_fn(u32) -> u32,
    score: spec_fn(Seq<u32>) -> Seq<u32>,
    ids: Seq<u32>,
)
    requires
        tidy(s.beam, n, ef),
        waiting(s),
        sifted(s, ef, dist),
        agree(score, dist),
        search::all_below(ids, n),
    ensures
        sifted(search::gather(s, ef, score, ids), ef, dist),
    decreases ids.len(),
{
    if ids.len() > 0 {
        let rest = ids.drop_first();
        assert(search::all_below(rest, n));
        if s.beam.seen.contains(ids[0]) {
            lemma_gather_sifted(s, n, ef, dist, score, rest);
        } else {
            assert(ids[0] < n);
            let marked = Beam { seen: s.beam.seen.insert(ids[0]), ..s.beam };
            let pending = s.pending.push(ids[0]);
            let grown = BatchBeam { beam: marked, pending };
            lemma_mark_waiting(s, n, ef, ids[0]);
            assert(sifted(grown, ef, dist)) by {
                assert forall|id: u32| #[trigger] marked.seen.contains(id) implies pending.contains(
                    id,
                ) || settled(marked.results, ef, dist, id) by {
                    if id == ids[0] {
                        assert(pending[s.pending.len() as int] == id);
                    } else {
                        assert(s.beam.seen.contains(id));
                        if s.pending.contains(id) {
                            let j = choose|j: int| 0 <= j < s.pending.len() && s.pending[j] == id;
                            assert(pending[j] == id);
                        }
                    }
                }
            }
            if pending.len() == FASTSCAN_N {
                let dists = score(pending);
                assert(dists == pending.map_values(dist));
                lemma_offer_all_tidy(marked, n, ef, pending, dists);
                lemma_offer_all_sifted(marked, n, ef, dist, pending, dists);
                let next = BatchBeam {
                    beam: search::offer_all(marked, ef, pending, dists),
                    pending: Seq::empty(),
                };
                lemma_gather_sifted(next, n, ef, dist, score, rest);
            } else {
                lemma_gather_sifted(grown, n, ef, dist, score, rest);
            }
        }
    }
}

proof fn lemma_explore_batches_sifted(
    b: Seq<u8>,
    ef: nat,
    dist: spec_fn(u32) -> u32,
    score: spec_fn(Seq<u32>) -> Seq<u32>,
    s: BatchBeam,
)
    requires
        search::links_in_range(b),
        tidy(s.beam, graph::num_points_of(b), ef),
        waiting(s),
        sifted(s, ef, dist),
        agree(score, dist),
    ensures
        sifted(search::explore_batches(b, ef, score, s), ef, dist),
    decreases search::effort(s.beam) + s.pending.len(),
{
    if !search::is_over(s.beam, ef) {
        let rest = BatchBeam {
            beam: Beam { frontier: s.beam.frontier.drop_first(), ..s.beam },
            pending: s.pending,
        };
        let ids = graph::neighbor_ids(b, s.beam.frontier[0].1, 0);
        let n = graph::num_points_of(b);
        assert(sifted(rest, ef, dist));
        search::lemma_gather_effort(rest, ef, score, ids);
        lemma_gather_tidy(rest, n, ef, score, ids);
        lemma_gather_sifted(rest, n, ef, dist, score, ids);
        lemma_explore_batches_sifted(b, ef, dist, score, search::gather(rest, ef, score, ids));
    }
}

proof fn lemma_nearest(n: u32, dist: spec_fn(u32) -> u32, best: DistId, ids: Seq<u32>)
    requires
        search::all_below(ids, n),
        best.1 < n,
        best.0 == dist(best.1),
    ensures
        search::nearest(dist, best, ids).1 < n,
        search::nearest(dist, best, ids).0 == dist(search::nearest(dist, best, ids).1),
        search::nearest(dist, best, ids) == best || floatbits::less(
            search::nearest(dist, best, ids).0,
            best.0,
        ),
        search::nearest(dist, best, ids) == best ==> forall|i: int|
            0 <= i < ids.len() ==> !floatbits::less(dist(#[trigger] ids[i]), best.0),
    decreases ids.len(),
{
    if ids.len() > 0 {
        let rest = ids.drop_first();
        let next = search::nearer(dist, best, ids[0]);
        assert(ids[0] < n);
        assert forall|i: int| 0 <= i < rest.len() implies #[trigger] rest[i] < n by {
            assert(rest[i] == ids[i + 1]);
        }
        lemma_nearest(n, dist, next, rest);
        let end = search::nearest(dist, next, rest);
        floatbits::less_is_strict_order(end.0, next.0, best.0);
        floatbits::less_is_strict_order(best.0, best.0, best.0);
        if end == best {
            assert forall|i: int| 0 <= i < ids.len() implies !floatbits::less(
                dist(#[trigger] ids[i]),
                best.0,
            ) by {
                if i > 0 {
                    assert(rest[i - 1] == ids[i]);
                }
            }
        }
    }
}

/// A walk on a layer ends at a point of the graph, no farther than it started,
/// and none of that point's neighbours is nearer.
pub proof fn walk_ends_at_a_local_minimum(
    b: Seq<u8>,
    dist: spec_fn(u32) -> u32,
    layer: nat,
    at: DistId,
)
    requires
        search::links_in_range(b),
        at.1 < graph::num_points_of(b),
        at.0 == dist(at.1),
    ensures
        ({
            let end = search::walk_layer(b, dist, layer, at);
            let ids = graph::neighbor_ids(b, end.1, layer);
            &&& end.1 < graph::num_points_of(b)
            &&& end.0 == dist(end.1)
            &&& end == at || floatbits::less(end.0, at.0)
            &&& forall|i: int|
                0 <= i < ids.len() ==> !floatbits::less(dist(#[trigger] ids[i]), end.0)
        }),
    decreases floatbits::total_rank(at.0) + floatbits::SIGN_BIT,
{
    let ids = graph::neighbor_ids(b, at.1, layer);
    let next = search::nearest(dist, at, ids);
    lemma_nearest(graph::num_points_of(b), dist, at, ids);
    floatbits::less_is_strict_order(at.0, at.0, at.0);
    if floatbits::less(next.0, at.0) {
        floatbits::less_is_earlier(next.0, at.0);
        walk_ends_at_a_local_minimum(b, dist, layer, next);
        let end = search::walk_layer(b, dist, layer, next);
        floatbits::less_is_strict_order(end.0, next.0, at.0);
    }
}

proof fn lemma_walk_down(b: Seq<u8>, dist: spec_fn(u32) -> u32, layers: nat, at: DistId)
    requires
        search::links_in_range(b),
        at.1 < graph::num_points_of(b),
        at.0 == dist(at.1),
    ensures
        search::walk_down(b, dist, layers, at).1 < graph::num_points_of(b),
        search::walk_down(b, dist, layers, at).0 == dist(
            search::walk_down(b, dist, layers, at).1,
        ),
        search::walk_down(b, dist, layers, at) == at || floatbits::less(
            search::walk_down(b, dist, layers, at).0,
            at.0,
        ),
    decreases layers,
{
    if layers > 0 {
        let next = search::walk_layer(b, dist, layers, at);
        walk_ends_at_a_local_minimum(b, dist, layers, at);
        lemma_walk_down(b, dist, (layers - 1) as nat, next);
        let end = search::walk_down(b, dist, (layers - 1) as nat, next);
        floatbits::less_is_strict_order(end.0, next.0, at.0);
    }
}

/// The descent ends at a point of the graph that is the entry point or nearer.
pub proof fn descent_never_leads_away(b: Seq<u8>, dist: spec_fn(u32) -> u32)
    requires
        search::links_in_range(b),
        graph::num_points_of(b) > 0,
    ensures
        search::descent(b, dist).1 < graph::num_points_of(b),
        search::descent(b, dist).0 == dist(search::descent(b, dist).1),
        search::descent(b, dist).1 == graph::entry_point_of(b) || floatbits::less(
            search::descent(b, dist).0,
            dist(graph::entry_point_of(b)),
        ),
{
    let entry = graph::entry_point_of(b);
    lemma_walk_down(b, dist, graph::entry_layer_of(b) as nat, DistId(dist(entry), entry));
}

proof fn lemma_first_beam(b: Seq<u8>, dist: spec_fn(u32) -> u32, ef: nat)
    requires
        search::links_in_range(b),
        graph::num_points_of(b) > 0,
    ensures
        ({
            let beam = search::first_beam(search::descent(b, dist));
            let s = BatchBeam { beam, pending: Seq::empty() };
            &&& tidy(beam, graph::num_points_of(b), ef)
            &&& waiting(s)
            &&& sifted(s, ef, dist)
        }),
{
    descent_never_leads_away(b, dist);
    let at = search::descent(b, dist);
    let beam = search::first_beam(at);
    assert(beam.results[0] == at);
    assert(beam.results.contains(DistId(dist(at.1), at.1)));
}

/// The state in which a search that scores point by point ends.
pub open spec fn last_beam(b: Seq<u8>, dist: spec_fn(u32) -> u32, ef: nat) -> Beam {
    search::explore(b, ef, dist, search::first_beam(search::descent(b, dist)))
}

/// The state in which a search that scores in batches ends, the waiting points
/// scored.
pub open spec fn last_batch_beam(
    b: Seq<u8>,
    dist: spec_fn(u32) -> u32,
    score: spec_fn(Seq<u32>) -> Seq<u32>,
    ef: nat,
) -> Beam {
    let s = search::explore_batches(
        b,
        ef,
        score,
        BatchBeam {
            beam: search::first_beam(search::descent(b, dist)),
            pending: Seq::empty(),
        },
    );
    search::offer_all(s.beam, ef, s.pending, score(s.pending))
}

proof fn lemma_last_beam(b: Seq<u8>, dist: spec_fn(u32) -> u32, ef: nat)
    requires
        search::links_in_range(b),
        graph::num_points_of(b) > 0,
    ensures
        tidy(last_beam(b, dist, ef), graph::num_points_of(b), ef),
        sifted(BatchBeam { beam: last_beam(b, dist, ef), pending: Seq::empty() }, ef, dist),
{
    lemma_first_beam(b, dist, ef);
    let beam = search::first_beam(search::descent(b, dist));
    lemma_explore_tidy(b, ef, dist, beam);
    lemma_explore_sifted(b, ef, dist, beam);
}

proof fn lemma_last_batch_beam(
    b: Seq<u8>,
    dist: spec_fn(u32) -> u32,
    score: spec_fn(Seq<u32>) -> Seq<u32>,
    ef: nat,
)
    requires
        search::links_in_range(b),
        graph::num_points_of(b) > 0,
    ensures
        tidy(last_batch_beam(b, dist, score, ef), graph::num_points_of(b), ef),
        agree(score, dist) ==> sifted(
            BatchBeam { beam: last_batch_beam(b, dist, score, ef), pending: Seq::empty() },
            ef,
            dist,
        ),
{
    lemma_first_beam(b, dist, ef);
    let n = graph::num_points_of(b);
    let first = BatchBeam {
        beam: search::first_beam(search::descent(b, dist)),
        pending: Seq::empty(),
    };
    let s = search::explore_batches(b, ef, score, first);
    lemma_explore_batches_tidy(b, ef, score, first);
    lemma_offer_all_tidy(s.beam, n, ef, s.pending, score(s.pending));
    if agree(score, dist) {
        lemma_explore_batches_sifted(b, ef, dist, score, first);
        assert(score(s.pending) == s.pending.map_values(dist));
        lemma_offer_all_sifted(s.beam, n, ef, dist, s.pending, score(s.pending));
    }
}

/// Of the points that a graph search has seen it keeps the nearest: one that is
/// not among its hits is not nearer than the farthest hit, and stays out only
/// where there are as many hits as the search is wide. (In batches this takes a
/// batch distance that gives each point its row distance.)
pub proof fn search_keeps_the_nearest_it_saw(
    b: Seq<u8>,
    dist: spec_fn(u32) -> u32,
    score: spec_fn(Seq<u32>) -> Seq<u32>,
    ef: nat,
    id: u32,
)
    requires
        search::links_in_range(b),
        graph::num_points_of(b) > 0,
    ensures
        last_beam(b, dist, ef).seen.contains(id) ==> settled(
            search::graph_hits(b, dist, ef),
            ef,
            dist,
            id,
        ),
        agree(score, dist) && last_batch_beam(b, dist, score, ef).seen.contains(id) ==> settled(
            search::batch_graph_hits(b, dist, score, ef),
            ef,
            dist,
            id,
        ),
{
    lemma_last_beam(b, dist, ef);
    lemma_last_batch_beam(b, dist, score, ef);
    assert(!Seq::<u32>::empty().contains(id));
}

proof fn lemma_top_sound(ranking: Seq<DistId>, n: u32, k: nat)
    requires
        hits::ascending(ranking),
        forall|i: int| 0 <= i < ranking.len() ==> (#[trigger] ranking[i]).1 < n,
        forall|i: int, j: int|
            0 <= i < j < ranking.len() ==> (#[trigger] ranking[i]).1 != (#[trigger] ranking[j]).1,
    ensures
        search::top(ranking, k).len() <= k,
        in_order(search::top(ranking, k)),
        forall|i: int|
            0 <= i < search::top(ranking, k).len() ==> (#[trigger] search::top(
                ranking,
                k,
            )[i]).doc_id < n,
        forall|i: int, j: int|
            0 <= i < j < search::top(ranking, k).len() ==> (#[trigger] search::top(
                ranking,
                k,
            )[i]).doc_id != (#[trigger] search::top(ranking, k)[j]).doc_id,
{
    let r = search::top(ranking, k);
    assert forall|i: int, j: int| 0 <= i <= j < r.len() implies floatbits::total_rank(
        (#[trigger] r[i]).distance,
    ) <= floatbits::total_rank((#[trigger] r[j]).distance) by {
        assert(hits::hit_rank(ranking[i]) <= hits::hit_rank(ranking[j]));
    }
}

/// Whether results stand in the order of their distances, nearest first.
pub open spec fn in_order(r: Seq<SearchResult>) -> bool {
    forall|i: int, j: int|
        0 <= i <= j < r.len() ==> floatbits::total_rank((#[trigger] r[i]).distance)
            <= floatbits::total_rank((#[trigger] r[j]).distance)
}

proof fn lemma_all_hits_ranked(dist: spec_fn(u32) -> u32, n: u32)
    ensures
        ({
            let r = hits::ranked(search::all_hits(dist, n as nat));
            &&& r.len() == n
            &&& hits::ascending(r)
            &&& rightly_scored(r, dist)
            &&& forall|i: int| 0 <= i < r.len() ==> (#[trigger] r[i]).1 < n
            &&& forall|i: int, j: int|
                0 <= i < j < r.len() ==> (#[trigger] r[i]).1 != (#[trigger] r[j]).1
            &&& forall|id: u32| id < n ==> #[trigger] r.contains(DistId(dist(id), id))
        }),
{
    let all = search::all_hits(dist, n as nat);
    let r = hits::ranked(all);
    hits::ranked_is_the_ascending_order(all, all);
    assert(all.no_duplicates());
    all.lemma_multiset_has_no_duplicates();
    r.lemma_multiset_has_no_duplicates_conv();
    assert forall|i: int| 0 <= i < r.len() implies (#[trigger] r[i]).1 < n && r[i].0 == dist(
        r[i].1,
    ) by {
        assert(r.contains(r[i]));
        hits::lemma_ranked_contains(all, r[i]);
    }
    assert forall|i: int, j: int| 0 <= i < j < r.len() implies (#[trigger] r[i]).1 != (
    #[trigger] r[j]).1 by {
        assert(r[i] != r[j]);
    }
    assert forall|id: u32| id < n implies #[trigger] r.contains(DistId(dist(id), id)) by {
        assert(all[id as int] == DistId(dist(id), id));
        hits::lemma_ranked_contains(all, DistId(dist(id), id));
    }
}

/// A search for at least as many points as there are finds every point, each with
/// its distance, nearest first.
pub proof fn covering_search_finds_every_point(
    b: Seq<u8>,
    metric: Metric,
    dist: spec_fn(u32) -> u32,
    score: spec_fn(Seq<u32>) -> Seq<u32>,
    k: nat,
    ef: nat,
)
    requires
        k > 0,
        graph::num_points_of(b) <= k,
    ensures
        search::found(b, metric, dist, score, k, ef).len() == graph::num_points_of(b),
        forall|id: u32|
            id < graph::num_points_of(b) ==> #[trigger] search::found(
                b,
                metric,
                dist,
                score,
                k,
                ef,
            ).contains(SearchResult { doc_id: id, distance: dist(id) }),
        in_order(search::found(b, metric, dist, score, k, ef)),
{
    let n = graph::num_points_of(b);
    if n > 0 {
        let ranking = hits::ranked(search::all_hits(dist, n as nat));
        lemma_all_hits_ranked(dist, n);
        lemma_top_sound(ranking, n, k);
        let r = search::found(b, metric, dist, score, k, ef);
        assert forall|id: u32| id < n implies #[trigger] r.contains(
            SearchResult { doc_id: id, distance: dist(id) },
        ) by {
            let h = DistId(dist(id), id);
            assert(ranking.contains(h));
            let i = choose|i: int| 0 <= i < ranking.len() && ranking[i] == h;
            assert(r[i] == (SearchResult { doc_id: id, distance: dist(id) }));
        }
    }
}

/// A search finds at most `k` points, all of them points of the graph and no point
/// twice, nearest first, and at least one where there is one and one is asked for.
/// Each carries its row distance, wherever the batch distance gives points that.
pub proof fn search_results_are_sound(
    b: Seq<u8>,
    metric: Metric,
    dist: spec_fn(u32) -> u32,
    score: spec_fn(Seq<u32>) -> Seq<u32>,
    k: nat,
    ef: nat,
)
    requires
        search::links_in_range(b),
    ensures
        ({
            let r = search::found(b, metric, dist, score, k, ef);
            &&& r.len() <= k
            &&& in_order(r)
            &&& forall|i: int|
                0 <= i < r.len() ==> (#[trigger] r[i]).doc_id < graph::num_points_of(b)
            &&& forall|i: int, j: int|
                0 <= i < j < r.len() ==> (#[trigger] r[i]).doc_id != (#[trigger] r[j]).doc_id
            &&& k > 0 && graph::num_points_of(b) > 0 ==> r.len() > 0
            &&& metric == Metric::L2 || agree(score, dist) ==> forall|i: int|
                0 <= i < r.len() ==> (#[trigger] r[i]).distance == dist(r[i].doc_id)
        }),
{
    let n = graph::num_points_of(b);
    if n == 0 || k == 0 {
    } else if n <= k {
        lemma_all_hits_ranked(dist, n);
        lemma_top_sound(hits::ranked(search::all_hits(dist, n as nat)), n, k);
    } else {
        let width = search::wider(ef, k);
        lemma_last_beam(b, dist, width);
        lemma_last_batch_beam(b, dist, score, width);
        let end = if metric == Metric::L2 {
            last_beam(b, dist, width)
        } else {
            last_batch_beam(b, dist, score, width)
        };
        assert forall|i: int| 0 <= i < end.results.len() implies (#[trigger] end.results[i]).1
            < n by {
            assert(end.seen.contains(end.results[i].1));
        }
        lemma_top_sound(end.results, n, k);
    }
}

// ---------------------------------------------------------------------------
// The first hit
// ---------------------------------------------------------------------------

/// Whether there are ordered hits whose first does not rank behind a bound.
spec fn led(beam: Beam, bound: int) -> bool {
    &&& hits::ascending(beam.results)
    &&& beam.results.len() > 0
    &&& hits::hit_rank(beam.results[0]) <= bound
}

proof fn lemma_offer_led(beam: Beam, ef: nat, h: DistId, bound: int)
    requires
        led(beam, bound),
        ef > 0,
    ensures
        led(search::offer(beam, ef, h), bound),
{
    if floatbits::less(h.0, search::worst(beam.results)) || beam.results.len() < ef {
        let p = hits::lemma_ranked_push(beam.results, h);
        let grown = beam.results.insert(p, h);
        if p == 0 {
            assert(grown[0] == h && grown[1] == beam.results[0]);
            assert(hits::hit_rank(grown[0]) <= hits::hit_rank(grown[1]));
        } else {
            assert(grown[0] == beam.results[0]);
        }
    }
}

proof fn lemma_visit_led(
    beam: Beam,
    ef: nat,
    dist: spec_fn(u32) -> u32,
    ids: Seq<u32>,
    bound: int,
)
    requires
        led(beam, bound),
        ef > 0,
    ensures
        led(search::visit(beam, ef, dist, ids), bound),
    decreases ids.len(),
{
    if ids.len() > 0 {
        if beam.seen.contains(ids[0]) {
            lemma_visit_led(beam, ef, dist, ids.drop_first(), bound);
        } else {
            let marked = Beam { seen: beam.seen.insert(ids[0]), ..beam };
            let h = DistId(dist(ids[0]), ids[0]);
            lemma_offer_led(marked, ef, h, bound);
            lemma_visit_led(search::offer(marked, ef, h), ef, dist, ids.drop_first(), bound);
        }
    }
}

proof fn lemma_explore_led(
    b: Seq<u8>,
    ef: nat,
    dist: spec_fn(u32) -> u32,
    beam: Beam,
    bound: int,
)
    requires
        led(beam, bound),
        ef > 0,
    ensures
        led(search::explore(b, ef, dist, beam), bound),
    decreases search::effort(beam),
{
    if !search::is_over(beam, ef) {
        let rest = Beam { frontier: beam.frontier.drop_first(), ..beam };
        let ids = graph::neighbor_ids(b, beam.frontier[0].1, 0);
        search::lemma_visit_effort(rest, ef, dist, ids);
        lemma_visit_led(rest, ef, dist, ids, bound);
        lemma_explore_led(b, ef, dist, search::visit(rest, ef, dist, ids), bound);
    }
}

proof fn lemma_offer_all_led(beam: Beam, ef: nat, ids: Seq<u32>, dists: Seq<u32>, bound: int)
    requires
        led(beam, bound),
        ef > 0,
    ensures
        led(search::offer_all(beam, ef, ids, dists), bound),
    decreases ids.len(),
{
    if ids.len() > 0 {
        let h = DistId(dists[0], ids[0]);
        lemma_offer_led(beam, ef, h, bound);
        lemma_offer_all_led(
            search::offer(beam, ef, h),
            ef,
            ids.drop_first(),
            dists.drop_first(),
            bound,
        );
    }
}

proof fn lemma_gather_led(
    s: BatchBeam,
    ef: nat,
    score: spec_fn(Seq<u32>) -> Seq<u32>,
    ids: Seq<u32>,
    bound: int,
)
    requires
        led(s.beam, bound),
        ef > 0,
    ensures
        led(search::gather(s, ef, score, ids).beam, bound),
    decreases ids.len(),
{
    if ids.len() > 0 {
        let rest = ids.drop_first();
        if s.beam.seen.contains(ids[0]) {
            lemma_gather_led(s, ef, score, rest, bound);
        } else {
            let marked = Beam { seen: s.beam.seen.insert(ids[0]), ..s.beam };
            let pending = s.pending.push(ids[0]);
            if pending.len() == FASTSCAN_N {
                lemma_offer_all_led(marked, ef, pending, score(pending), bound);
                let next = BatchBeam {
                    beam: search::offer_all(marked, ef, pending, score(pending)),
                    pending: Seq::empty(),
                };
                lemma_gather_led(next, ef, score, rest, bound);
            } else {
                lemma_gather_led(BatchBeam { beam: marked, pending }, ef, score, rest, bound);
            }
        }
    }
}

proof fn lemma_explore_batches_led(
    b: Seq<u8>,
    ef: nat,
    score: spec_fn(Seq<u32>) -> Seq<u32>,
    s: BatchBeam,
    bound: int,
)
    requires
        led(s.beam, bound),
        ef > 0,
    ensures
        led(search::explore_batches(b, ef, score, s).beam, bound),
    decreases search::effort(s.beam) + s.pending.len(),
{
    if !search::is_over(s.beam, ef) {
        let rest = BatchBeam {
            beam: Beam { frontier: s.beam.frontier.drop_first(), ..s.beam },
            pending: s.pending,
        };
        let ids = graph::neighbor_ids(b, s.beam.frontier[0].1, 0);
        search::lemma_gather_effort(rest, ef, score, ids);
        lemma_gather_led(rest, ef, score, ids, bound);
        lemma_explore_batches_led(b, ef, score, search::gather(rest, ef, score, ids), bound);
    }
}

/// Whether results are at least one and at most `k` of `n` points, no point twice, nearest
/// first, and whether the first is not farther than `entry`.
pub open spec fn sound(r: Seq<SearchResult>, n: u32, k: nat, entry: u32) -> bool {
    &&& 1 <= r.len() <= k
    &&& in_order(r)
    &&& forall|i: int| 0 <= i < r.len() ==> (#[trigger] r[i]).doc_id < n
    &&& forall|i: int, j: int|
        0 <= i < j < r.len() ==> (#[trigger] r[i]).doc_id != (#[trigger] r[j]).doc_id
    &&& floatbits::total_rank(r[0].distance) <= floatbits::total_rank(entry)
    &&& !floatbits::less(entry, r[0].distance)
}

proof fn lemma_beam_sound(beam: Beam, n: u32, ef: nat, k: nat, at: DistId, entry: u32)
    requires
        tidy(beam, n, ef),
        led(beam, hits::hit_rank(at)),
        at.0 == entry || floatbits::less(at.0, entry),
        k > 0,
    ensures
        sound(search::top(beam.results, k), n, k, entry),
{
    assert forall|i: int| 0 <= i < beam.results.len() implies (#[trigger] beam.results[i]).1
        < n by {
        assert(beam.seen.contains(beam.results[i].1));
    }
    lemma_top_sound(beam.results, n, k);
    let first = search::top(beam.results, k)[0].distance;
    assert(first == beam.results[0].0);
    assert(floatbits::total_rank(first) <= floatbits::total_rank(at.0));
    if at.0 != entry {
        floatbits::less_is_earlier(at.0, entry);
    }
    floatbits::later_is_not_less(entry, first);
}

/// A graph search for some points finds at least one and at most `k`, all of them points of
/// the graph and no point twice, nearest first; and the first is not farther than the
/// entry point. This holds where points are scored one by one and where they are scored in
/// batches. Each result carries its row distance, in batches wherever the batch distance
/// gives points that.
pub proof fn graph_search_results_are_sound(
    b: Seq<u8>,
    dist: spec_fn(u32) -> u32,
    score: spec_fn(Seq<u32>) -> Seq<u32>,
    k: nat,
    ef: nat,
)
    requires
        search::links_in_range(b),
        graph::num_points_of(b) > 0,
        k > 0,
    ensures
        ({
            let entry = dist(graph::entry_point_of(b));
            let width = search::wider(ef, k);
            let one_by_one = search::top(search::graph_hits(b, dist, width), k);
            let batched = search::top(search::batch_graph_hits(b, dist, score, width), k);
            &&& sound(one_by_one, graph::num_points_of(b), k, entry)
            &&& forall|i: int|
                0 <= i < one_by_one.len() ==> (#[trigger] one_by_one[i]).distance == dist(
                    one_by_one[i].doc_id,
                )
            &&& sound(batched, graph::num_points_of(b), k, entry)
            &&& agree(score, dist) ==> forall|i: int|
                0 <= i < batched.len() ==> (#[trigger] batched[i]).distance == dist(
                    batched[i].doc_id,
                )
        }),
{
    let n = graph::num_points_of(b);
    let entry = dist(graph::entry_point_of(b));
    let width = search::wider(ef, k);
    let at = search::descent(b, dist);
    let first = search::first_beam(at);
    let bound = hits::hit_rank(at);
    descent_never_leads_away(b, dist);
    lemma_last_beam(b, dist, width);
    lemma_explore_led(b, width, dist, first, bound);
    lemma_beam_sound(last_beam(b, dist, width), n, width, k, at, entry);
    lemma_last_batch_beam(b, dist, score, width);
    let start = BatchBeam { beam: first, pending: Seq::empty() };
    lemma_explore_batches_led(b, width, score, start, bound);
    let s = search::explore_batches(b, width, score, start);
    lemma_offer_all_led(s.beam, width, s.pending, score(s.pending), bound);
    lemma_beam_sound(last_batch_beam(b, dist, score, width), n, width, k, at, entry);
}

// ---------------------------------------------------------------------------
// Wide searches
// ---------------------------------------------------------------------------

/// The ids of hits, as integers.
spec fn hit_ids(results: Seq<DistId>) -> Seq<int> {
    results.map_values(|h: DistId| h.1 as int)
}

proof fn lemma_hit_count(beam: Beam, n: u32, ef: nat)
    requires
        tidy(beam, n, ef),
    ensures
        beam.results.len() <= n,
        forall|id: u32|
            id < n && beam.results.len() >= n ==> #[trigger] hit_ids(beam.results).contains(
                id as int,
            ),
        forall|id: u32|
            id < n && !#[trigger] hit_ids(beam.results).contains(id as int)
                ==> beam.results.len() < n,
{
    let ids = hit_ids(beam.results);
    let points = set_int_range(0, n as int);
    lemma_int_range(0, n as int);
    assert(ids.no_duplicates());
    ids.unique_seq_to_set();
    assert forall|x: int| ids.to_set().contains(x) implies points.contains(x) by {
        let i = choose|i: int| 0 <= i < ids.len() && ids[i] == x;
        assert(beam.seen.contains(beam.results[i].1));
    }
    lemma_len_subset(ids.to_set(), points);
    assert forall|id: u32| id < n && beam.results.len() >= n implies #[trigger] ids.contains(
        id as int,
    ) by {
        if !ids.contains(id as int) {
            assert(ids.to_set().subset_of(points.remove(id as int)));
            lemma_len_subset(ids.to_set(), points.remove(id as int));
        }
    }
}

/// A search that is as wide as the graph has points passes no new point over.
proof fn lemma_visit_reaches(
    beam: Beam,
    n: u32,
    ef: nat,
    dist: spec_fn(u32) -> u32,
    ids: Seq<u32>,
)
    requires
        tidy(beam, n, ef),
        search::all_below(ids, n),
        n <= ef,
    ensures
        ({
            let next = search::visit(beam, ef, dist, ids);
            &&& forall|i: int|
                0 <= i < ids.len() ==> next.seen.contains(#[trigger] ids[i])
            &&& forall|id: u32| #[trigger]
                next.seen.contains(id) ==> beam.seen.contains(id) || next.frontier.contains(
                    DistId(dist(id), id),
                )
            &&& forall|id: u32| #[trigger] beam.seen.contains(id) ==> next.seen.contains(id)
            &&& forall|h: DistId| #[trigger]
                beam.frontier.contains(h) ==> next.frontier.contains(h)
        }),
    decreases ids.len(),
{
    if ids.len() > 0 {
        let rest = ids.drop_first();
        let id = ids[0];
        let end = search::visit(beam, ef, dist, ids);
        assert forall|i: int| 0 <= i < rest.len() implies #[trigger] rest[i] < n by {
            assert(rest[i] == ids[i + 1]);
        }
        if beam.seen.contains(id) {
            lemma_visit_reaches(beam, n, ef, dist, rest);
        } else {
            let marked = Beam { seen: beam.seen.insert(id), ..beam };
            let h = DistId(dist(id), id);
            let next = search::offer(marked, ef, h);
            assert(id < n);
            assert(!hit_ids(beam.results).contains(id as int)) by {
                if hit_ids(beam.results).contains(id as int) {
                    let i = choose|i: int|
                        0 <= i < beam.results.len() && hit_ids(beam.results)[i] == id as int;
                    assert(beam.seen.contains(beam.results[i].1));
                }
            }
            lemma_hit_count(beam, n, ef);
            lemma_offer_tidy(marked, n, ef, h);
            assert(next.frontier == hits::ranked(beam.frontier.push(h)));
            assert forall|g: DistId| beam.frontier.contains(g) || g == h implies
                #[trigger] next.frontier.contains(g) by {
                hits::lemma_ranked_contains(beam.frontier.push(h), g);
                if g == h {
                    assert(beam.frontier.push(h)[beam.frontier.len() as int] == h);
                } else {
                    let i = choose|i: int| 0 <= i < beam.frontier.len() && beam.frontier[i] == g;
                    assert(beam.frontier.push(h)[i] == g);
                }
            }
            lemma_visit_reaches(next, n, ef, dist, rest);
            assert(next.seen.contains(id));
            assert forall|x: u32| #[trigger] end.seen.contains(x) implies beam.seen.contains(x)
                || end.frontier.contains(DistId(dist(x), x)) by {
                if next.seen.contains(x) && !beam.seen.contains(x) {
                    assert(x == id);
                    assert(next.frontier.contains(h));
                }
            }
            assert forall|x: u32| #[trigger] beam.seen.contains(x) implies end.seen.contains(
                x,
            ) by {
                assert(next.seen.contains(x));
            }
            assert forall|g: DistId| #[trigger] beam.frontier.contains(g) implies
                end.frontier.contains(g) by {
                assert(next.frontier.contains(g));
            }
        }
        assert forall|i: int| 0 <= i < ids.len() implies end.seen.contains(#[trigger] ids[i]) by {
            if i > 0 {
                assert(ids[i] == rest[i - 1]);
            } else {
                if beam.seen.contains(id) {
                    assert(end.seen.contains(id));
                }
            }
        }
    }
}

/// Whether every neighbour on the lowest layer of a point that was seen, and is not
/// still to be gone on from, was seen too.
spec fn followed(b: Seq<u8>, dist: spec_fn(u32) -> u32, beam: Beam) -> bool {
    forall|id: u32, i: int|
        beam.seen.contains(id) && !beam.frontier.contains(DistId(dist(id), id)) && 0 <= i
            < graph::neighbor_ids(b, id, 0).len() ==> beam.seen.contains(
            #[trigger] graph::neighbor_ids(b, id, 0)[i],
        )
}

proof fn lemma_explore_follows(b: Seq<u8>, ef: nat, dist: spec_fn(u32) -> u32, beam: Beam)
    requires
        search::links_in_range(b),
        tidy(beam, graph::num_points_of(b), ef),
        graph::num_points_of(b) <= ef,
        followed(b, dist, beam),
    ensures
        followed(b, dist, search::explore(b, ef, dist, beam)),
        forall|id: u32| #[trigger]
            beam.seen.contains(id) ==> search::explore(b, ef, dist, beam).seen.contains(id),
        search::is_over(search::explore(b, ef, dist, beam), ef),
    decreases search::effort(beam),
{
    if !search::is_over(beam, ef) {
        let n = graph::num_points_of(b);
        let c = beam.frontier[0];
        let rest = Beam { frontier: beam.frontier.drop_first(), ..beam };
        let ids = graph::neighbor_ids(b, c.1, 0);
        let next = search::visit(rest, ef, dist, ids);
        search::lemma_visit_effort(rest, ef, dist, ids);
        lemma_visit_tidy(rest, n, ef, dist, ids);
        lemma_visit_reaches(rest, n, ef, dist, ids);
        assert forall|id: u32, i: int|
            next.seen.contains(id) && !next.frontier.contains(DistId(dist(id), id)) && 0 <= i
                < graph::neighbor_ids(b, id, 0).len() implies next.seen.contains(
            #[trigger] graph::neighbor_ids(b, id, 0)[i],
        ) by {
            let g = DistId(dist(id), id);
            assert(rest.seen.contains(id));
            if id != c.1 {
                assert(!rest.frontier.contains(g));
                assert(!beam.frontier.contains(g)) by {
                    if beam.frontier.contains(g) {
                        let j = choose|j: int|
                            0 <= j < beam.frontier.len() && beam.frontier[j] == g;
                        assert(rest.frontier[j - 1] == g);
                    }
                }
                assert(beam.seen.contains(graph::neighbor_ids(b, id, 0)[i]));
            }
        }
        lemma_explore_follows(b, ef, dist, next);
        assert forall|id: u32| #[trigger] beam.seen.contains(id) implies search::explore(
            b,
            ef,
            dist,
            beam,
        ).seen.contains(id) by {
            assert(next.seen.contains(id));
        }
    }
}

/// A search by row distance that is at least as wide as the graph has points finds
/// the point it enters the lowest layer at, and with each point all its neighbours
/// on that layer: every point that can be reached.
pub proof fn wide_search_finds_all_it_can_reach(b: Seq<u8>, dist: spec_fn(u32) -> u32, ef: nat)
    requires
        search::links_in_range(b),
        0 < graph::num_points_of(b) <= ef,
    ensures
        search::graph_hits(b, dist, ef).contains(search::descent(b, dist)),
        forall|id: u32, i: int|
            search::graph_hits(b, dist, ef).contains(DistId(dist(id), id)) && 0 <= i
                < graph::neighbor_ids(b, id, 0).len() ==> search::graph_hits(
                b,
                dist,
                ef,
            ).contains(
                DistId(
                    dist(#[trigger] graph::neighbor_ids(b, id, 0)[i]),
                    graph::neighbor_ids(b, id, 0)[i],
                ),
            ),
{
    let n = graph::num_points_of(b);
    let at = search::descent(b, dist);
    let first = search::first_beam(at);
    let end = last_beam(b, dist, ef);
    lemma_first_beam(b, dist, ef);
    lemma_last_beam(b, dist, ef);
    descent_never_leads_away(b, dist);
    assert(followed(b, dist, first)) by {
        assert forall|id: u32| first.seen.contains(id) implies first.frontier.contains(
            DistId(dist(id), id),
        ) by {
            assert(first.frontier[0] == at);
        }
    }
    lemma_explore_follows(b, ef, dist, first);
    assert(first.seen.contains(at.1));
    assert forall|id: u32| #[trigger] end.seen.contains(id) implies end.results.contains(
        DistId(dist(id), id),
    ) by {
        assert(!Seq::<u32>::empty().contains(id));
        if !end.results.contains(DistId(dist(id), id)) {
            lemma_hit_count(end, n, ef);
            assert(hit_ids(end.results).contains(id as int));
            let i = choose|i: int|
                0 <= i < end.results.len() && hit_ids(end.results)[i] == id as int;
            assert(end.results[i] == DistId(dist(id), id));
        }
    }
    assert forall|id: u32, i: int|
        end.results.contains(DistId(dist(id), id)) && 0 <= i < graph::neighbor_ids(
            b,
            id,
            0,
        ).len() implies end.results.contains(
        DistId(
            dist(#[trigger] graph::neighbor_ids(b, id, 0)[i]),
            graph::neighbor_ids(b, id, 0)[i],
        ),
    ) by {
        let to = graph::neighbor_ids(b, id, 0)[i];
        let m = choose|m: int|
            0 <= m < end.results.len() && end.results[m] == DistId(dist(id), id);
        assert(end.seen.contains(end.results[m].1));
        assert(search::all_below(graph::neighbor_ids(b, id, 0), n));
        if end.results.len() >= n {
            lemma_hit_count(end, n, ef);
            assert(hit_ids(end.results).contains(to as int));
            let j = choose|j: int|
                0 <= j < end.results.len() && hit_ids(end.results)[j] == to as int;
            assert(end.results[j] == DistId(dist(to), to));
        } else {
            assert(end.frontier.len() == 0);
            assert(end.seen.contains(to));
        }
    }
}

// ---------------------------------------------------------------------------
// Going on while it gets nearer
// ---------------------------------------------------------------------------

/// What every state of a search keeps: each hit is still to be gone on from, or all its
/// neighbours on the lowest layer were seen. (Those in `late` are being gone on from.)
spec fn pursued(b: Seq<u8>, beam: Beam, late: Set<DistId>) -> bool {
    &&& hits::ascending(beam.frontier)
    &&& forall|h: DistId, i: int|
        beam.results.contains(h) && !beam.frontier.contains(h) && !late.contains(h) && 0 <= i
            < graph::neighbor_ids(
            b,
            h.1,
            0,
        ).len() ==> beam.seen.contains(#[trigger] graph::neighbor_ids(b, h.1, 0)[i])
}

proof fn lemma_offer_pursued(b: Seq<u8>, beam: Beam, ef: nat, h: DistId, late: Set<DistId>)
    requires
        pursued(b, beam, late),
    ensures
        pursued(b, search::offer(beam, ef, h), late),
        search::offer(beam, ef, h).seen == beam.seen,
        forall|g: DistId| #[trigger]
            search::offer(beam, ef, h).results.contains(g) ==> g == h || beam.results.contains(g),
        forall|g: DistId| #[trigger]
            beam.frontier.contains(g) ==> search::offer(beam, ef, h).frontier.contains(g),
        forall|g: DistId| #[trigger]
            search::offer(beam, ef, h).results.contains(g) ==> beam.results.contains(g)
                || search::offer(beam, ef, h).frontier.contains(g),
{
    let next = search::offer(beam, ef, h);
    if floatbits::less(h.0, search::worst(beam.results)) || beam.results.len() < ef {
        let (more, wider) = (beam.results.push(h), beam.frontier.push(h));
        hits::ranked_is_the_ascending_order(wider, wider);
        let grown = hits::ranked(more);
        assert forall|g: DistId| #[trigger] next.results.contains(g) implies g == h
            || beam.results.contains(g) by {
            let j = choose|j: int| 0 <= j < next.results.len() && next.results[j] == g;
            assert(grown[j] == g);
            hits::lemma_ranked_contains(more, g);
            let i = choose|i: int| 0 <= i < more.len() && more[i] == g;
            if i < beam.results.len() {
                assert(beam.results[i] == g);
            }
        }
        assert forall|g: DistId| beam.frontier.contains(g) || g == h implies
            #[trigger] next.frontier.contains(g) by {
            hits::lemma_ranked_contains(wider, g);
            if g == h {
                assert(wider[beam.frontier.len() as int] == h);
            } else {
                let i = choose|i: int| 0 <= i < beam.frontier.len() && beam.frontier[i] == g;
                assert(wider[i] == g);
            }
        }
    }
}

proof fn lemma_visit_pursued(
    b: Seq<u8>,
    beam: Beam,
    ef: nat,
    dist: spec_fn(u32) -> u32,
    ids: Seq<u32>,
    late: Set<DistId>,
)
    requires
        pursued(b, beam, late),
    ensures
        ({
            let next = search::visit(beam, ef, dist, ids);
            &&& pursued(b, next, late)
            &&& beam.seen.subset_of(next.seen)
            &&& forall|i: int| 0 <= i < ids.len() ==> next.seen.contains(#[trigger] ids[i])
        }),
    decreases ids.len(),
{
    if ids.len() > 0 {
        let rest = ids.drop_first();
        let end = search::visit(beam, ef, dist, ids);
        if beam.seen.contains(ids[0]) {
            lemma_visit_pursued(b, beam, ef, dist, rest, late);
        } else {
            let marked = Beam { seen: beam.seen.insert(ids[0]), ..beam };
            let h = DistId(dist(ids[0]), ids[0]);
            assert(pursued(b, marked, late));
            lemma_offer_pursued(b, marked, ef, h, late);
            lemma_visit_pursued(b, search::offer(marked, ef, h), ef, dist, rest, late);
            assert(search::offer(marked, ef, h).seen.contains(ids[0]));
        }
        assert forall|i: int| 0 <= i < ids.len() implies end.seen.contains(#[trigger] ids[i]) by {
            if i > 0 {
                assert(ids[i] == rest[i - 1]);
            }
        }
    }
}

/// The nearest point to be gone on from is taken off.
proof fn lemma_taken_pursued(b: Seq<u8>, beam: Beam)
    requires
        pursued(b, beam, Set::empty()),
        beam.frontier.len() > 0,
    ensures
        pursued(
            b,
            Beam { frontier: beam.frontier.drop_first(), ..beam },
            Set::empty().insert(beam.frontier[0]),
        ),
{
    let rest = beam.frontier.drop_first();
    assert forall|i: int, j: int| 0 <= i <= j < rest.len() implies hits::hit_rank(rest[i])
        <= hits::hit_rank(rest[j]) by {
        assert(hits::hit_rank(beam.frontier[i + 1]) <= hits::hit_rank(beam.frontier[j + 1]));
    }
    assert forall|h: DistId| beam.frontier.contains(h) && h != beam.frontier[0] implies
        rest.contains(h) by {
        let j = choose|j: int| 0 <= j < beam.frontier.len() && beam.frontier[j] == h;
        assert(rest[j - 1] == h);
    }
}

proof fn lemma_explore_pursued(b: Seq<u8>, ef: nat, dist: spec_fn(u32) -> u32, beam: Beam)
    requires
        pursued(b, beam, Set::empty()),
    ensures
        ({
            let end = search::explore(b, ef, dist, beam);
            &&& pursued(b, end, Set::empty())
            &&& beam.seen.subset_of(end.seen)
            &&& end.frontier.len() == 0 || floatbits::less(
                search::worst(end.results),
                end.frontier[0].0,
            )
        }),
    decreases search::effort(beam),
{
    if !search::is_over(beam, ef) {
        let c = beam.frontier[0];
        let rest = Beam { frontier: beam.frontier.drop_first(), ..beam };
        let ids = graph::neighbor_ids(b, c.1, 0);
        let next = search::visit(rest, ef, dist, ids);
        search::lemma_visit_effort(rest, ef, dist, ids);
        lemma_taken_pursued(b, beam);
        lemma_visit_pursued(b, rest, ef, dist, ids, Set::empty().insert(c));
        assert(pursued(b, next, Set::empty()));
        lemma_explore_pursued(b, ef, dist, next);
    }
}

proof fn lemma_offer_all_pursued(
    b: Seq<u8>,
    beam: Beam,
    ef: nat,
    ids: Seq<u32>,
    dists: Seq<u32>,
    late: Set<DistId>,
)
    requires
        pursued(b, beam, late),
    ensures
        ({
            let next = search::offer_all(beam, ef, ids, dists);
            &&& pursued(b, next, late)
            &&& next.seen == beam.seen
            &&& forall|h: DistId| #[trigger]
                next.results.contains(h) ==> beam.results.contains(h) || ids.contains(h.1)
        }),
    decreases ids.len(),
{
    if ids.len() > 0 {
        let h = DistId(dists[0], ids[0]);
        let rest = ids.drop_first();
        let next = search::offer(beam, ef, h);
        lemma_offer_pursued(b, beam, ef, h, late);
        lemma_offer_all_pursued(b, next, ef, rest, dists.drop_first(), late);
        let end = search::offer_all(beam, ef, ids, dists);
        assert forall|g: DistId| #[trigger] end.results.contains(g) implies beam.results.contains(g)
            || ids.contains(g.1) by {
            if rest.contains(g.1) {
                let j = choose|j: int| 0 <= j < rest.len() && rest[j] == g.1;
                assert(ids[j + 1] == g.1);
            } else {
                assert(next.results.contains(g));
                if g == h {
                    assert(ids[0] == g.1);
                }
            }
        }
    }
}

proof fn lemma_gather_pursued(
    b: Seq<u8>,
    s: BatchBeam,
    ef: nat,
    score: spec_fn(Seq<u32>) -> Seq<u32>,
    ids: Seq<u32>,
    late: Set<DistId>,
)
    requires
        pursued(b, s.beam, late),
        s.pending.len() < FASTSCAN_N,
    ensures
        ({
            let next = search::gather(s, ef, score, ids);
            &&& pursued(b, next.beam, late)
            &&& next.pending.len() < FASTSCAN_N
            &&& s.beam.seen.subset_of(next.beam.seen)
            &&& forall|i: int| 0 <= i < ids.len() ==> next.beam.seen.contains(#[trigger] ids[i])
        }),
    decreases ids.len(),
{
    if ids.len() > 0 {
        let rest = ids.drop_first();
        let end = search::gather(s, ef, score, ids);
        if s.beam.seen.contains(ids[0]) {
            lemma_gather_pursued(b, s, ef, score, rest, late);
        } else {
            let marked = Beam { seen: s.beam.seen.insert(ids[0]), ..s.beam };
            let pending = s.pending.push(ids[0]);
            assert(pursued(b, marked, late));
            assert(marked.seen.contains(ids[0]));
            if pending.len() == FASTSCAN_N {
                lemma_offer_all_pursued(b, marked, ef, pending, score(pending), late);
                let next = BatchBeam {
                    beam: search::offer_all(marked, ef, pending, score(pending)),
                    pending: Seq::empty(),
                };
                lemma_gather_pursued(b, next, ef, score, rest, late);
            } else {
                lemma_gather_pursued(
                    b,
                    BatchBeam { beam: marked, pending },
                    ef,
                    score,
                    rest,
                    late,
                );
            }
        }
        assert forall|i: int| 0 <= i < ids.len() implies end.beam.seen.contains(
            #[trigger] ids[i],
        ) by {
            if i > 0 {
                assert(ids[i] == rest[i - 1]);
            }
        }
    }
}

proof fn lemma_explore_batches_pursued(
    b: Seq<u8>,
    ef: nat,
    score: spec_fn(Seq<u32>) -> Seq<u32>,
    s: BatchBeam,
)
    requires
        pursued(b, s.beam, Set::empty()),
        s.pending.len() < FASTSCAN_N,
    ensures
        ({
            let end = search::explore_batches(b, ef, score, s);
            &&& pursued(b, end.beam, Set::empty())
            &&& end.pending.len() < FASTSCAN_N
            &&& s.beam.seen.subset_of(end.beam.seen)
            &&& end.beam.frontier.len() == 0 || floatbits::less(
                search::worst(end.beam.results),
                end.beam.frontier[0].0,
            )
        }),
    decreases search::effort(s.beam) + s.pending.len(),
{
    if !search::is_over(s.beam, ef) {
        let c = s.beam.frontier[0];
        let rest = BatchBeam {
            beam: Beam { frontier: s.beam.frontier.drop_first(), ..s.beam },
            pending: s.pending,
        };
        let ids = graph::neighbor_ids(b, c.1, 0);
        let next = search::gather(rest, ef, score, ids);
        search::lemma_gather_effort(rest, ef, score, ids);
        lemma_taken_pursued(b, s.beam);
        lemma_gather_pursued(b, rest, ef, score, ids, Set::empty().insert(c));
        assert(pursued(b, next.beam, Set::empty()));
        lemma_explore_batches_pursued(b, ef, score, next);
    }
}

/// Where no point is left that is as near as the farthest hit, no hit is left to be gone on
/// from.
proof fn lemma_no_hit_left(beam: Beam, h: DistId)
    requires
        hits::ascending(beam.frontier),
        hits::ascending(beam.results),
        beam.frontier.len() == 0 || floatbits::less(
            search::worst(beam.results),
            beam.frontier[0].0,
        ),
        beam.results.contains(h),
    ensures
        !beam.frontier.contains(h),
{
    if beam.frontier.contains(h) {
        let i = choose|i: int| 0 <= i < beam.results.len() && beam.results[i] == h;
        let j = choose|j: int| 0 <= j < beam.frontier.len() && beam.frontier[j] == h;
        let last = beam.results.len() - 1;
        assert(hits::hit_rank(beam.results[i]) <= hits::hit_rank(beam.results[last]));
        assert(hits::hit_rank(beam.frontier[0]) <= hits::hit_rank(beam.frontier[j]));
        floatbits::less_is_earlier(search::worst(beam.results), beam.frontier[0].0);
    }
}

/// Whether a point is among the hits, or else there are as many hits as the search is wide
/// and the point is not nearer than the farthest of them.
pub open spec fn hit_or_farther(
    found: Seq<DistId>,
    width: nat,
    dist: spec_fn(u32) -> u32,
    id: u32,
) -> bool {
    ||| found.contains(DistId(dist(id), id))
    ||| found.len() >= width && found.len() > 0 && !floatbits::less(dist(id), found.last().0)
}

/// Whether a search went on from its hits: each neighbour on the lowest layer of a hit that
/// is not among the `loose` points is a hit too, or not nearer than the farthest hit.
pub open spec fn went_on_from_hits(
    b: Seq<u8>,
    dist: spec_fn(u32) -> u32,
    width: nat,
    found: Seq<DistId>,
    loose: Seq<u32>,
) -> bool {
    forall|i: int, j: int|
        #![trigger found[i], graph::neighbor_ids(b, found[i].1, 0)[j]]
        0 <= i < found.len() && !loose.contains(found[i].1) && 0 <= j < graph::neighbor_ids(
            b,
            found[i].1,
            0,
        ).len() ==> hit_or_farther(
            found,
            width,
            dist,
            graph::neighbor_ids(b, found[i].1, 0)[j],
        )
}

/// A graph search of any width goes on from each of its hits: when it ends, all neighbours of
/// a hit on the lowest layer are hits too, or there are as many hits as the search is wide
/// and the neighbour is not nearer than the farthest. So does a search in batches, but for
/// fewer points than make up a batch, provided that the batch distance gives points their
/// row distance.
pub proof fn search_goes_on_from_its_hits(
    b: Seq<u8>,
    dist: spec_fn(u32) -> u32,
    score: spec_fn(Seq<u32>) -> Seq<u32>,
    ef: nat,
)
    requires
        search::links_in_range(b),
        graph::num_points_of(b) > 0,
    ensures
        went_on_from_hits(b, dist, ef, search::graph_hits(b, dist, ef), Seq::empty()),
        agree(score, dist) ==> exists|loose: Seq<u32>|
            loose.len() < FASTSCAN_N && #[trigger] went_on_from_hits(
                b,
                dist,
                ef,
                search::batch_graph_hits(b, dist, score, ef),
                loose,
            ),
        hit_or_farther(search::graph_hits(b, dist, ef), ef, dist, search::descent(b, dist).1),
        agree(score, dist) ==> hit_or_farther(
            search::batch_graph_hits(b, dist, score, ef),
            ef,
            dist,
            search::descent(b, dist).1,
        ),
{
    let at = search::descent(b, dist);
    let first = search::first_beam(at);
    lemma_first_beam(b, dist, ef);
    lemma_last_beam(b, dist, ef);
    lemma_last_batch_beam(b, dist, score, ef);
    assert(first.frontier[0] == at && first.results[0] == at);
    assert(pursued(b, first, Set::empty())) by {
        assert forall|h: DistId| first.results.contains(h) implies first.frontier.contains(h) by {
        }
    }
    assert(first.seen.contains(at.1));
    // Point by point.
    lemma_explore_pursued(b, ef, dist, first);
    let end = last_beam(b, dist, ef);
    assert forall|i: int, j: int|
        #![trigger end.results[i], graph::neighbor_ids(b, end.results[i].1, 0)[j]]
        0 <= i < end.results.len() && 0 <= j < graph::neighbor_ids(
            b,
            end.results[i].1,
            0,
        ).len() implies hit_or_farther(
        end.results,
        ef,
        dist,
        graph::neighbor_ids(b, end.results[i].1, 0)[j],
    ) by {
        let to = graph::neighbor_ids(b, end.results[i].1, 0)[j];
        lemma_no_hit_left(end, end.results[i]);
        assert(end.results.contains(end.results[i]));
        assert(end.seen.contains(to));
        assert(!Seq::<u32>::empty().contains(to));
        assert(settled(end.results, ef, dist, to));
    }
    assert(end.seen.contains(at.1));
    assert(!Seq::<u32>::empty().contains(at.1));
    // In batches.
    if agree(score, dist) {
        let start = BatchBeam { beam: first, pending: Seq::empty() };
        lemma_explore_batches_pursued(b, ef, score, start);
        lemma_explore_batches_tidy(b, ef, score, start);
        let s = search::explore_batches(b, ef, score, start);
        let loose = s.pending;
        lemma_offer_all_pursued(b, s.beam, ef, loose, score(loose), Set::empty());
        let last = last_batch_beam(b, dist, score, ef);
        assert forall|i: int, j: int|
            #![trigger last.results[i], graph::neighbor_ids(b, last.results[i].1, 0)[j]]
            0 <= i < last.results.len() && !loose.contains(last.results[i].1) && 0 <= j
                < graph::neighbor_ids(b, last.results[i].1, 0).len() implies hit_or_farther(
            last.results,
            ef,
            dist,
            graph::neighbor_ids(b, last.results[i].1, 0)[j],
        ) by {
            let to = graph::neighbor_ids(b, last.results[i].1, 0)[j];
            assert(last.results.contains(last.results[i]));
            assert(s.beam.results.contains(last.results[i]));
            lemma_no_hit_left(s.beam, last.results[i]);
            assert(last.seen.contains(to));
            assert(!Seq::<u32>::empty().contains(to));
            assert(settled(last.results, ef, dist, to));
        }
        assert(went_on_from_hits(
            b,
            dist,
            ef,
            search::batch_graph_hits(b, dist, score, ef),
            loose,
        ));
        assert(last.seen.contains(at.1));
        assert(settled(last.results, ef, dist, at.1));
    }
}

// ---------------------------------------------------------------------------
// The way down
// ---------------------------------------------------------------------------

/// Whether a walk on a layer goes from one point to another: to a neighbour that is nearer,
/// and no neighbour is nearer still.
pub open spec fn steps_to(
    b: Seq<u8>,
    dist: spec_fn(u32) -> u32,
    layer: nat,
    from: u32,
    to: u32,
) -> bool {
    let ids = graph::neighbor_ids(b, from, layer);
    &&& ids.contains(to)
    &&& floatbits::less(dist(to), dist(from))
    &&& forall|j: int| 0 <= j < ids.len() ==> !floatbits::less(dist(#[trigger] ids[j]), dist(to))
}

/// Whether a path on a layer takes such steps, up to a point that has no nearer neighbour.
pub open spec fn walks_along(
    b: Seq<u8>,
    dist: spec_fn(u32) -> u32,
    layer: nat,
    path: Seq<u32>,
) -> bool {
    let ids = graph::neighbor_ids(b, path.last(), layer);
    &&& path.len() > 0
    &&& forall|i: int|
        0 <= i < path.len() - 1 ==> steps_to(b, dist, layer, #[trigger] path[i], path[i + 1])
    &&& forall|j: int|
        0 <= j < ids.len() ==> !floatbits::less(dist(#[trigger] ids[j]), dist(path.last()))
}

/// Whether walks on the layers, from the highest down to the first, lead from one point to
/// another.
pub open spec fn leads_down(
    b: Seq<u8>,
    dist: spec_fn(u32) -> u32,
    layers: nat,
    from: u32,
    to: u32,
) -> bool
    decreases layers,
{
    if layers == 0 {
        from == to
    } else {
        exists|path: Seq<u32>| #[trigger]
            walks_along(b, dist, layers, path) && path[0] == from && leads_down(
                b,
                dist,
                (layers - 1) as nat,
                path.last(),
                to,
            )
    }
}

proof fn lemma_nearest_of_all(dist: spec_fn(u32) -> u32, best: DistId, ids: Seq<u32>)
    requires
        best.0 == dist(best.1),
    ensures
        ({
            let r = search::nearest(dist, best, ids);
            &&& r.0 == dist(r.1)
            &&& r == best || ids.contains(r.1) && floatbits::less(r.0, best.0)
            &&& forall|j: int|
                0 <= j < ids.len() ==> !floatbits::less(dist(#[trigger] ids[j]), r.0)
        }),
    decreases ids.len(),
{
    if ids.len() > 0 {
        let rest = ids.drop_first();
        let next = search::nearer(dist, best, ids[0]);
        let r = search::nearest(dist, best, ids);
        lemma_nearest_of_all(dist, next, rest);
        floatbits::less_is_strict_order(r.0, next.0, best.0);
        floatbits::less_is_strict_order(dist(ids[0]), r.0, next.0);
        if r == next {
            assert(ids.contains(ids[0]));
        } else {
            let j = choose|j: int| 0 <= j < rest.len() && rest[j] == r.1;
            assert(ids[j + 1] == r.1);
        }
        assert forall|j: int| 0 <= j < ids.len() implies !floatbits::less(
            dist(#[trigger] ids[j]),
            r.0,
        ) by {
            if j > 0 {
                assert(rest[j - 1] == ids[j]);
            }
        }
    }
}

proof fn lemma_walk_path(b: Seq<u8>, dist: spec_fn(u32) -> u32, layer: nat, at: DistId) -> (path:
    Seq<u32>)
    requires
        at.0 == dist(at.1),
    ensures
        walks_along(b, dist, layer, path),
        path[0] == at.1,
        search::walk_layer(b, dist, layer, at) == DistId(dist(path.last()), path.last()),
    decreases floatbits::total_rank(at.0) + floatbits::SIGN_BIT,
{
    let ids = graph::neighbor_ids(b, at.1, layer);
    let next = search::nearest(dist, at, ids);
    lemma_nearest_of_all(dist, at, ids);
    floatbits::less_is_strict_order(at.0, at.0, at.0);
    if floatbits::less(next.0, at.0) {
        floatbits::less_is_earlier(next.0, at.0);
        let rest = lemma_walk_path(b, dist, layer, next);
        let path = seq![at.1] + rest;
        assert(path.last() == rest.last());
        assert forall|i: int| 0 <= i < path.len() - 1 implies steps_to(
            b,
            dist,
            layer,
            #[trigger] path[i],
            path[i + 1],
        ) by {
            assert(path[i + 1] == rest[i]);
            if i > 0 {
                assert(path[i] == rest[i - 1]);
                assert(steps_to(b, dist, layer, rest[i - 1], rest[i]));
            } else {
                assert(steps_to(b, dist, layer, at.1, next.1));
            }
        }
        path
    } else {
        let path = seq![at.1];
        assert(path.last() == at.1);
        path
    }
}

proof fn lemma_walk_down_leads(b: Seq<u8>, dist: spec_fn(u32) -> u32, layers: nat, at: DistId)
    requires
        at.0 == dist(at.1),
    ensures
        leads_down(b, dist, layers, at.1, search::walk_down(b, dist, layers, at).1),
        search::walk_down(b, dist, layers, at).0 == dist(
            search::walk_down(b, dist, layers, at).1,
        ),
    decreases layers,
{
    if layers > 0 {
        let path = lemma_walk_path(b, dist, layers, at);
        let next = search::walk_layer(b, dist, layers, at);
        lemma_walk_down_leads(b, dist, (layers - 1) as nat, next);
        assert(walks_along(b, dist, layers, path));
    }
}

/// A search enters the lowest layer where walks on all the layers above it lead to, from the
/// entry point on: on each layer always to the nearest neighbour, until none is nearer.
pub proof fn descent_walks_down_every_layer(b: Seq<u8>, dist: spec_fn(u32) -> u32)
    ensures
        leads_down(
            b,
            dist,
            graph::entry_layer_of(b) as nat,
            graph::entry_point_of(b),
            search::descent(b, dist).1,
        ),
        search::descent(b, dist).0 == dist(search::descent(b, dist).1),
{
    let entry = graph::entry_point_of(b);
    lemma_walk_down_leads(b, dist, graph::entry_layer_of(b) as nat, DistId(dist(entry), entry));
}

// ---------------------------------------------------------------------------
// Along the links
// ---------------------------------------------------------------------------

/// Whether each point of a path is a neighbour of the point before on the lowest layer.
pub open spec fn follows_links(b: Seq<u8>, path: Seq<u32>) -> bool {
    path.len() > 0 && forall|i: int|
        0 <= i < path.len() - 1 ==> graph::neighbor_ids(b, #[trigger] path[i], 0).contains(
            path[i + 1],
        )
}

/// Whether links on the lowest layer lead from one point to another.
pub open spec fn linked(b: Seq<u8>, from: u32, to: u32) -> bool {
    exists|path: Seq<u32>| #[trigger]
        follows_links(b, path) && path[0] == from && path.last() == to
}

proof fn lemma_linked_on(b: Seq<u8>, start: u32, from: u32, to: u32)
    requires
        linked(b, start, from),
        graph::neighbor_ids(b, from, 0).contains(to),
    ensures
        linked(b, start, to),
{
    let path = choose|path: Seq<u32>| #[trigger]
        follows_links(b, path) && path[0] == start && path.last() == from;
    let longer = path.push(to);
    assert forall|i: int| 0 <= i < longer.len() - 1 implies graph::neighbor_ids(
        b,
        #[trigger] longer[i],
        0,
    ).contains(longer[i + 1]) by {
        assert(longer[i] == path[i]);
        if i < path.len() - 1 {
            assert(longer[i + 1] == path[i + 1]);
        }
    }
    assert(follows_links(b, longer));
}

/// Whether links lead from `start` to every point that was seen, and all points that are
/// still to be gone on from were seen.
spec fn traced(b: Seq<u8>, start: u32, beam: Beam) -> bool {
    &&& forall|id: u32| #[trigger] beam.seen.contains(id) ==> linked(b, start, id)
    &&& forall|i: int|
        0 <= i < beam.frontier.len() ==> beam.seen.contains((#[trigger] beam.frontier[i]).1)
}

proof fn lemma_offer_traced(b: Seq<u8>, start: u32, beam: Beam, ef: nat, h: DistId)
    requires
        traced(b, start, beam),
        beam.seen.contains(h.1),
    ensures
        traced(b, start, search::offer(beam, ef, h)),
        search::offer(beam, ef, h).seen == beam.seen,
{
    let after = search::offer(beam, ef, h);
    if after.frontier != beam.frontier {
        let grown = beam.frontier.push(h);
        assert forall|i: int| 0 <= i < after.frontier.len() implies beam.seen.contains(
            (#[trigger] after.frontier[i]).1,
        ) by {
            hits::lemma_ranked_contains(grown, after.frontier[i]);
            assert(after.frontier.contains(after.frontier[i]));
            let j = choose|j: int| 0 <= j < grown.len() && grown[j] == after.frontier[i];
            if j < beam.frontier.len() {
                assert(beam.frontier[j] == after.frontier[i]);
            }
        }
    }
}

proof fn lemma_visit_traced(
    b: Seq<u8>,
    start: u32,
    from: u32,
    beam: Beam,
    ef: nat,
    dist: spec_fn(u32) -> u32,
    ids: Seq<u32>,
)
    requires
        traced(b, start, beam),
        linked(b, start, from),
        forall|j: int|
            0 <= j < ids.len() ==> graph::neighbor_ids(b, from, 0).contains(#[trigger] ids[j]),
    ensures
        traced(b, start, search::visit(beam, ef, dist, ids)),
    decreases ids.len(),
{
    if ids.len() > 0 {
        let rest = ids.drop_first();
        assert forall|j: int| 0 <= j < rest.len() implies graph::neighbor_ids(
            b,
            from,
            0,
        ).contains(#[trigger] rest[j]) by {
            assert(rest[j] == ids[j + 1]);
        }
        if beam.seen.contains(ids[0]) {
            lemma_visit_traced(b, start, from, beam, ef, dist, rest);
        } else {
            let marked = Beam { seen: beam.seen.insert(ids[0]), ..beam };
            let h = DistId(dist(ids[0]), ids[0]);
            lemma_linked_on(b, start, from, ids[0]);
            lemma_offer_traced(b, start, marked, ef, h);
            lemma_visit_traced(
                b,
                start,
                from,
                search::offer(marked, ef, h),
                ef,
                dist,
                rest,
            );
        }
    }
}

proof fn lemma_explore_traced(
    b: Seq<u8>,
    start: u32,
    ef: nat,
    dist: spec_fn(u32) -> u32,
    beam: Beam,
)
    requires
        traced(b, start, beam),
    ensures
        traced(b, start, search::explore(b, ef, dist, beam)),
    decreases search::effort(beam),
{
    if !search::is_over(beam, ef) {
        let from = beam.frontier[0].1;
        let rest = Beam { frontier: beam.frontier.drop_first(), ..beam };
        let ids = graph::neighbor_ids(b, from, 0);
        assert(beam.seen.contains(from));
        assert forall|i: int| 0 <= i < rest.frontier.len() implies rest.seen.contains(
            (#[trigger] rest.frontier[i]).1,
        ) by {
            assert(rest.frontier[i] == beam.frontier[i + 1]);
        }
        search::lemma_visit_effort(rest, ef, dist, ids);
        lemma_visit_traced(b, start, from, rest, ef, dist, ids);
        lemma_explore_traced(b, start, ef, dist, search::visit(rest, ef, dist, ids));
    }
}

proof fn lemma_offer_all_traced(
    b: Seq<u8>,
    start: u32,
    beam: Beam,
    ef: nat,
    ids: Seq<u32>,
    dists: Seq<u32>,
)
    requires
        traced(b, start, beam),
        forall|i: int| 0 <= i < ids.len() ==> beam.seen.contains(#[trigger] ids[i]),
    ensures
        traced(b, start, search::offer_all(beam, ef, ids, dists)),
        search::offer_all(beam, ef, ids, dists).seen == beam.seen,
    decreases ids.len(),
{
    if ids.len() > 0 {
        let h = DistId(dists[0], ids[0]);
        let rest = ids.drop_first();
        assert(beam.seen.contains(ids[0]));
        lemma_offer_traced(b, start, beam, ef, h);
        assert forall|i: int| 0 <= i < rest.len() implies beam.seen.contains(
            #[trigger] rest[i],
        ) by {
            assert(rest[i] == ids[i + 1]);
        }
        lemma_offer_all_traced(
            b,
            start,
            search::offer(beam, ef, h),
            ef,
            rest,
            dists.drop_first(),
        );
    }
}

proof fn lemma_gather_traced(
    b: Seq<u8>,
    start: u32,
    from: u32,
    s: BatchBeam,
    ef: nat,
    score: spec_fn(Seq<u32>) -> Seq<u32>,
    ids: Seq<u32>,
)
    requires
        traced(b, start, s.beam),
        forall|i: int|
            0 <= i < s.pending.len() ==> s.beam.seen.contains(#[trigger] s.pending[i]),
        linked(b, start, from),
        forall|j: int|
            0 <= j < ids.len() ==> graph::neighbor_ids(b, from, 0).contains(#[trigger] ids[j]),
    ensures
        traced(b, start, search::gather(s, ef, score, ids).beam),
        forall|i: int|
            0 <= i < search::gather(s, ef, score, ids).pending.len() ==> search::gather(
                s,
                ef,
                score,
                ids,
            ).beam.seen.contains(#[trigger] search::gather(s, ef, score, ids).pending[i]),
    decreases ids.len(),
{
    if ids.len() > 0 {
        let rest = ids.drop_first();
        assert forall|j: int| 0 <= j < rest.len() implies graph::neighbor_ids(
            b,
            from,
            0,
        ).contains(#[trigger] rest[j]) by {
            assert(rest[j] == ids[j + 1]);
        }
        if s.beam.seen.contains(ids[0]) {
            lemma_gather_traced(b, start, from, s, ef, score, rest);
        } else {
            let marked = Beam { seen: s.beam.seen.insert(ids[0]), ..s.beam };
            let pending = s.pending.push(ids[0]);
            lemma_linked_on(b, start, from, ids[0]);
            assert forall|i: int| 0 <= i < pending.len() implies marked.seen.contains(
                #[trigger] pending[i],
            ) by {
                if i < s.pending.len() {
                    assert(pending[i] == s.pending[i]);
                }
            }
            if pending.len() == FASTSCAN_N {
                lemma_offer_all_traced(b, start, marked, ef, pending, score(pending));
                let next = BatchBeam {
                    beam: search::offer_all(marked, ef, pending, score(pending)),
                    pending: Seq::empty(),
                };
                lemma_gather_traced(b, start, from, next, ef, score, rest);
            } else {
                let next = BatchBeam { beam: marked, pending };
                lemma_gather_traced(b, start, from, next, ef, score, rest);
            }
        }
    }
}

proof fn lemma_explore_batches_traced(
    b: Seq<u8>,
    start: u32,
    ef: nat,
    score: spec_fn(Seq<u32>) -> Seq<u32>,
    s: BatchBeam,
)
    requires
        traced(b, start, s.beam),
        forall|i: int|
            0 <= i < s.pending.len() ==> s.beam.seen.contains(#[trigger] s.pending[i]),
    ensures
        traced(b, start, search::explore_batches(b, ef, score, s).beam),
        forall|i: int|
            0 <= i < search::explore_batches(b, ef, score, s).pending.len()
                ==> search::explore_batches(b, ef, score, s).beam.seen.contains(
                #[trigger] search::explore_batches(b, ef, score, s).pending[i],
            ),
    decreases search::effort(s.beam) + s.pending.len(),
{
    if !search::is_over(s.beam, ef) {
        let from = s.beam.frontier[0].1;
        let rest = BatchBeam {
            beam: Beam { frontier: s.beam.frontier.drop_first(), ..s.beam },
            pending: s.pending,
        };
        let ids = graph::neighbor_ids(b, from, 0);
        assert(s.beam.seen.contains(from));
        assert forall|i: int| 0 <= i < rest.beam.frontier.len() implies rest.beam.seen.contains(
            (#[trigger] rest.beam.frontier[i]).1,
        ) by {
            assert(rest.beam.frontier[i] == s.beam.frontier[i + 1]);
        }
        search::lemma_gather_effort(rest, ef, score, ids);
        lemma_gather_traced(b, start, from, rest, ef, score, ids);
        lemma_explore_batches_traced(b, start, ef, score, search::gather(rest, ef, score, ids));
    }
}

/// A graph search finds only points that links on the lowest layer lead to from the point
/// that the walks down the layers lead to.
pub proof fn hits_lie_along_the_links(
    b: Seq<u8>,
    dist: spec_fn(u32) -> u32,
    score: spec_fn(Seq<u32>) -> Seq<u32>,
    ef: nat,
    i: int,
)
    requires
        search::links_in_range(b),
        graph::num_points_of(b) > 0,
    ensures
        0 <= i < search::graph_hits(b, dist, ef).len() ==> linked(
            b,
            search::descent(b, dist).1,
            search::graph_hits(b, dist, ef)[i].1,
        ),
        0 <= i < search::batch_graph_hits(b, dist, score, ef).len() ==> linked(
            b,
            search::descent(b, dist).1,
            search::batch_graph_hits(b, dist, score, ef)[i].1,
        ),
{
    let at = search::descent(b, dist);
    let first = search::first_beam(at);
    let own = seq![at.1];
    assert(follows_links(b, own) && own[0] == at.1 && own.last() == at.1);
    assert(traced(b, at.1, first));
    lemma_last_beam(b, dist, ef);
    lemma_explore_traced(b, at.1, ef, dist, first);
    let end = last_beam(b, dist, ef);
    if 0 <= i < end.results.len() {
        assert(end.seen.contains(end.results[i].1));
    }
    lemma_last_batch_beam(b, dist, score, ef);
    let start = BatchBeam { beam: first, pending: Seq::empty() };
    lemma_explore_batches_traced(b, at.1, ef, score, start);
    let s = search::explore_batches(b, ef, score, start);
    lemma_offer_all_traced(b, at.1, s.beam, ef, s.pending, score(s.pending));
    let last = last_batch_beam(b, dist, score, ef);
    if 0 <= i < last.results.len() {
        assert(last.seen.contains(last.results[i].1));
    }
}

// ---------------------------------------------------------------------------
// Searches as a whole
// ---------------------------------------------------------------------------

/// Whether hits can be those of a search of a width: of points that lie along the links from
/// where walks lead down to, no point twice, each with its distance, nearest first, at
/// least one and at most as many as the search is wide; and the search went on from
/// all but the `loose` ones.
pub open spec fn best_first(
    b: Seq<u8>,
    dist: spec_fn(u32) -> u32,
    width: nat,
    start: u32,
    found: Seq<DistId>,
    loose: Seq<u32>,
) -> bool {
    &&& leads_down(b, dist, graph::entry_layer_of(b) as nat, graph::entry_point_of(b), start)
    &&& hit_or_farther(found, width, dist, start)
    &&& went_on_from_hits(b, dist, width, found, loose)
    &&& 1 <= found.len() <= width
    &&& forall|i: int|
        0 <= i < found.len() ==> (#[trigger] found[i]).1 < graph::num_points_of(b) && found[i].0
            == dist(found[i].1) && linked(b, start, found[i].1)
    &&& forall|i: int, j: int|
        0 <= i < j < found.len() ==> (#[trigger] found[i]).1 != (#[trigger] found[j]).1
            && floatbits::total_rank(found[i].0) <= floatbits::total_rank(found[j].0)
}

/// Whether results are the first `k` hits, or all where there are fewer.
pub open spec fn first_of(r: Seq<SearchResult>, found: Seq<DistId>, k: nat) -> bool {
    &&& r.len() == if k < found.len() {
        k as int
    } else {
        found.len() as int
    }
    &&& forall|i: int|
        0 <= i < r.len() ==> (#[trigger] r[i]).doc_id == found[i].1 && r[i].distance == found[i].0
}

/// What a search for fewer points than there are gives: the nearest of the hits of a best-first
/// search whose width is `ef`, or `k` if that is more. Only searches by dot product,
/// which score in batches, leave fewer points than make up a batch without going on from
/// them.
pub proof fn search_gives_the_first_hits(
    b: Seq<u8>,
    metric: Metric,
    dist: spec_fn(u32) -> u32,
    score: spec_fn(Seq<u32>) -> Seq<u32>,
    k: nat,
    ef: nat,
    width: nat,
)
    requires
        search::links_in_range(b),
        0 < k < graph::num_points_of(b),
        metric == Metric::L2 || agree(score, dist),
        ef <= width,
        k <= width,
        width == ef || width == k,
    ensures
        exists|start: u32, found: Seq<DistId>, loose: Seq<u32>| #[trigger]
            best_first(b, dist, width, start, found, loose) && first_of(
                search::found(b, metric, dist, score, k, ef),
                found,
                k,
            ) && loose.len() < FASTSCAN_N && (metric == Metric::L2 ==> loose.len() == 0),
{
    let n = graph::num_points_of(b);
    let start = search::descent(b, dist).1;
    search_goes_on_from_its_hits(b, dist, score, width);
    descent_walks_down_every_layer(b, dist);
    lemma_last_beam(b, dist, width);
    lemma_last_batch_beam(b, dist, score, width);
    let end = if metric == Metric::L2 {
        last_beam(b, dist, width)
    } else {
        last_batch_beam(b, dist, score, width)
    };
    let loose = if metric == Metric::L2 {
        Seq::empty()
    } else {
        choose|loose: Seq<u32>|
            loose.len() < FASTSCAN_N && #[trigger] went_on_from_hits(
                b,
                dist,
                width,
                search::batch_graph_hits(b, dist, score, width),
                loose,
            )
    };
    let found = end.results;
    assert forall|i: int| 0 <= i < found.len() implies (#[trigger] found[i]).1 < n && found[i].0
        == dist(found[i].1) && linked(b, start, found[i].1) by {
        assert(end.seen.contains(found[i].1));
        hits_lie_along_the_links(b, dist, score, width, i);
    }
    assert forall|i: int, j: int| 0 <= i < j < found.len() implies (#[trigger] found[i]).1 != (
    #[trigger] found[j]).1 && floatbits::total_rank(found[i].0) <= floatbits::total_rank(
        found[j].0,
    ) by {
        assert(hits::hit_rank(found[i]) <= hits::hit_rank(found[j]));
    }
    assert(best_first(b, dist, width, start, found, loose));
    assert(first_of(search::found(b, metric, dist, score, k, ef), found, k));
}

/// A search for at least as many points as there are finds points of the graph, no point
/// twice, each with its row distance.
pub proof fn covering_results_are_sound(
    b: Seq<u8>,
    metric: Metric,
    dist: spec_fn(u32) -> u32,
    score: spec_fn(Seq<u32>) -> Seq<u32>,
    k: nat,
    ef: nat,
)
    requires
        graph::num_points_of(b) <= k,
    ensures
        ({
            let r = search::found(b, metric, dist, score, k, ef);
            &&& forall|i: int|
                0 <= i < r.len() ==> (#[trigger] r[i]).doc_id < graph::num_points_of(b)
                    && r[i].distance == dist(r[i].doc_id)
            &&& forall|i: int, j: int|
                0 <= i < j < r.len() ==> (#[trigger] r[i]).doc_id != (#[trigger] r[j]).doc_id
        }),
{
    let n = graph::num_points_of(b);
    if n > 0 && k > 0 {
        lemma_all_hits_ranked(dist, n);
        lemma_top_sound(hits::ranked(search::all_hits(dist, n as nat)), n, k);
    }
}

proof fn lemma_leads_down_below(
    b: Seq<u8>,
    dist: spec_fn(u32) -> u32,
    other: spec_fn(u32) -> u32,
    layers: nat,
    from: u32,
    to: u32,
)
    requires
        search::links_in_range(b),
        from < graph::num_points_of(b),
        forall|id: u32| id < graph::num_points_of(b) ==> #[trigger] dist(id) == other(id),
        leads_down(b, dist, layers, from, to),
    ensures
        leads_down(b, other, layers, from, to),
        to < graph::num_points_of(b),
    decreases layers,
{
    let n = graph::num_points_of(b);
    if layers > 0 {
        let path = choose|path: Seq<u32>| #[trigger]
            walks_along(b, dist, layers, path) && path[0] == from && leads_down(
                b,
                dist,
                (layers - 1) as nat,
                path.last(),
                to,
            );
        lemma_path_below(b, dist, layers, path, path.len() as int);
        assert forall|i: int| 0 <= i < path.len() - 1 implies steps_to(
            b,
            other,
            layers,
            #[trigger] path[i],
            path[i + 1],
        ) by {
            assert(steps_to(b, dist, layers, path[i], path[i + 1]));
            assert(path[i] < n && path[i + 1] < n);
            assert(search::all_below(graph::neighbor_ids(b, path[i], layers), n));
        }
        let last = path[path.len() - 1];
        assert(search::all_below(graph::neighbor_ids(b, last, layers), n));
        assert(walks_along(b, other, layers, path));
        lemma_leads_down_below(b, dist, other, (layers - 1) as nat, last, to);
    }
}

proof fn lemma_path_below(
    b: Seq<u8>,
    dist: spec_fn(u32) -> u32,
    layer: nat,
    path: Seq<u32>,
    upto: int,
)
    requires
        search::links_in_range(b),
        walks_along(b, dist, layer, path),
        path[0] < graph::num_points_of(b),
        0 <= upto <= path.len(),
    ensures
        forall|i: int| 0 <= i < upto ==> #[trigger] path[i] < graph::num_points_of(b),
    decreases upto,
{
    if upto > 1 {
        lemma_path_below(b, dist, layer, path, upto - 1);
        let from = path[upto - 2];
        assert(steps_to(b, dist, layer, from, path[upto - 2 + 1]));
        let ids = graph::neighbor_ids(b, from, layer);
        assert(search::all_below(ids, graph::num_points_of(b)));
        let j = choose|j: int| 0 <= j < ids.len() && ids[j] == path[upto - 1];
        assert(ids[j] < graph::num_points_of(b));
    }
}

/// What a search gives depends on the distances of the graph's points only.
pub proof fn best_first_by_equal_distances(
    b: Seq<u8>,
    dist: spec_fn(u32) -> u32,
    other: spec_fn(u32) -> u32,
    width: nat,
    start: u32,
    found: Seq<DistId>,
    loose: Seq<u32>,
)
    requires
        search::links_in_range(b),
        graph::num_points_of(b) > 0,
        forall|id: u32| id < graph::num_points_of(b) ==> #[trigger] dist(id) == other(id),
        best_first(b, dist, width, start, found, loose),
    ensures
        best_first(b, other, width, start, found, loose),
{
    let n = graph::num_points_of(b);
    lemma_leads_down_below(
        b,
        dist,
        other,
        graph::entry_layer_of(b) as nat,
        graph::entry_point_of(b),
        start,
    );
    assert forall|i: int, j: int|
        #![trigger found[i], graph::neighbor_ids(b, found[i].1, 0)[j]]
        0 <= i < found.len() && !loose.contains(found[i].1) && 0 <= j < graph::neighbor_ids(
            b,
            found[i].1,
            0,
        ).len() implies hit_or_farther(
        found,
        width,
        other,
        graph::neighbor_ids(b, found[i].1, 0)[j],
    ) by {
        let to = graph::neighbor_ids(b, found[i].1, 0)[j];
        assert(search::all_below(graph::neighbor_ids(b, found[i].1, 0), n));
        assert(dist(to) == other(to));
        assert(hit_or_farther(found, width, dist, to));
    }
}

} // verus!
