//! Building the neighbour graph of a field.
//!
//! The insertion of points is the caller's. This module plans it, and turns the
//! points that came out of it into a packed graph.

use rayon::current_num_threads;
use vstd::prelude::*;

use crate::error::VectorError;
use crate::graph;
use crate::graph::CompactHnswGraph;
use crate::options::{Metric, VectorDistance, VectorOptions};
use crate::search;
use crate::turboquant;

verus! {

/// Number of layers that a graph is built with, at most.
pub const HNSW_DUMP_MAX_LAYER: usize = 16;

/// Documents per thread from which on inserting in parallel is worth it.
pub const MIN_DOCS_PER_RAYON_THREAD: usize = 1000;

// ---------------------------------------------------------------------------
// Planning
// ---------------------------------------------------------------------------

/// Row `doc` of row-major components.
pub open spec fn row_of<T>(flat: Seq<T>, dim: nat, doc: int) -> Seq<T> {
    flat.subrange(doc * dim, doc * dim + dim)
}

/// Pairs each row with its document, for inserting them in one go.
pub fn flat_rows_as_insert_slices<T>(flat: &[T], n: usize, dim: usize) -> (r: Vec<(&[T], usize)>)
    requires
        n * dim <= flat@.len(),
    ensures
        r@.len() == n,
        forall|doc: int|
            0 <= doc < n ==> (#[trigger] r@[doc]).0@ == row_of(flat@, dim as nat, doc)
                && r@[doc].1 == doc,
{
    assert(flat.len() == flat@.len());
    let mut out: Vec<(&[T], usize)> = Vec::new();
    for doc in 0..n
        invariant
            n * dim <= flat@.len(),
            flat@.len() <= usize::MAX,
            out@.len() == doc,
            forall|k: int|
                0 <= k < doc ==> (#[trigger] out@[k]).0@ == row_of(flat@, dim as nat, k)
                    && out@[k].1 == k,
    {
        proof {
            turboquant::lemma_row_range(n as int, dim as int, doc as int);
        }
        let start: usize = doc * dim;
        out.push((&flat[start..start + dim], doc));
    }
    out
}

/// Calls `rayon::current_num_threads`: the number of threads of the current pool,
/// which depends on the machine and on how the pool was set up. Nothing is claimed of
/// it.
#[verifier::external_body]
fn pool_threads() -> (r: usize) {
    current_num_threads()
}

/// Whether the current pool can have so many threads: whether that is what the pool says
/// when it is asked.
pub closed spec fn is_pool_size(threads: usize) -> bool {
    call_ensures(pool_threads, (), threads)
}

/// Whether `n` documents are enough for a pool of so many threads.
pub open spec fn enough_for(n: int, threads: int) -> bool {
    let needed = MIN_DOCS_PER_RAYON_THREAD * if threads < 1 {
        1
    } else {
        threads
    };
    n >= if needed > usize::MAX {
        usize::MAX as int
    } else {
        needed
    }
}

/// Whether `n` documents are enough for a pool of so many threads.
pub fn worthwhile_with_threads(n: usize, threads: usize) -> (r: bool)
    ensures
        r == enough_for(n as int, threads as int),
{
    let workers: usize = if threads < 1 {
        1
    } else {
        threads
    };
    match workers.checked_mul(MIN_DOCS_PER_RAYON_THREAD) {
        Some(needed) => n >= needed,
        None => n == usize::MAX,
    }
}

/// Whether inserting `n` documents in parallel is worth it on the current pool.
pub fn parallel_insert_worthwhile(n: usize) -> (r: bool)
    ensures
        exists|threads: usize|
            is_pool_size(threads) && r == #[trigger] enough_for(n as int, threads as int),
        n < MIN_DOCS_PER_RAYON_THREAD ==> !r,
        n == usize::MAX ==> r,
{
    let ask = pool_threads;
    let threads: usize = ask();
    assert(is_pool_size(threads));
    worthwhile_with_threads(n, threads)
}

/// How a graph is to be built.
#[derive(Clone, Copy, Debug, PartialEq, Eq, Structural)]
pub struct BuildPlan {
    /// Distance arithmetic.
    pub metric: Metric,
    /// Maximum number of neighbours per layer.
    pub max_nb_connection: usize,
    /// Number of points to make room for.
    pub max_elements: usize,
    /// Maximum number of layers.
    pub max_layer: usize,
    /// Search width of insertion.
    pub ef_construction: usize,
    /// Number of rows to insert.
    pub rows: usize,
    /// Components of a row.
    pub dim: usize,
    /// Whether to insert the rows in parallel.
    pub parallel: bool,
}

/// The plan for `n` rows.
pub open spec fn plan_for(options: VectorOptions, n: usize, parallel: bool) -> BuildPlan {
    BuildPlan {
        metric: options.distance.spec_metric(),
        max_nb_connection: options.max_nb_connection,
        max_elements: if n < 1 {
            1
        } else {
            n
        },
        max_layer: HNSW_DUMP_MAX_LAYER,
        ef_construction: options.ef_construction,
        rows: n,
        dim: options.dimension,
        parallel,
    }
}

// ---------------------------------------------------------------------------
// From points to a graph
// ---------------------------------------------------------------------------

/// A point of a built graph.
pub struct BuiltPoint {
    /// The document that the point was inserted for.
    pub origin_id: usize,
    /// The highest layer that the point is on.
    pub layer: u8,
    /// The documents of its neighbours, lowest layer first.
    pub neighborhoods: Vec<Vec<usize>>,
}

/// Number of layers whose neighbours are kept: those that the point is on, as far as
/// it has a list for them.
pub open spec fn kept_layers(layer: u8, lists: nat) -> nat {
    if layer + 1 < lists {
        (layer + 1) as nat
    } else {
        lists
    }
}

/// The neighbours of a point that are kept, each as four bytes.
pub open spec fn kept_lists(p: BuiltPoint) -> Seq<Seq<u32>> {
    Seq::new(
        kept_layers(p.layer, p.neighborhoods@.len()),
        |l: int| p.neighborhoods@[l]@.map_values(|id: usize| id as u32),
    )
}

/// The lists of each document after the first `count` points: those of its last
/// point. Points of documents that do not exist are passed over.
pub open spec fn lists_after(
    points: Seq<BuiltPoint>,
    n: nat,
    count: nat,
) -> Seq<Seq<Seq<u32>>>
    decreases count,
{
    if count == 0 {
        Seq::new(n, |i: int| Seq::empty())
    } else {
        let before = lists_after(points, n, (count - 1) as nat);
        let p = points[count - 1];
        if p.origin_id < n {
            before.update(p.origin_id as int, kept_lists(p))
        } else {
            before
        }
    }
}

/// The entry point and its layer after the first `count` points: the last of the
/// points on the highest layer.
pub open spec fn entry_after(points: Seq<BuiltPoint>, n: nat, count: nat) -> (u32, u8)
    decreases count,
{
    if count == 0 {
        (0, 0)
    } else {
        let before = entry_after(points, n, (count - 1) as nat);
        let p = points[count - 1];
        if p.origin_id < n && p.layer >= before.1 {
            (p.origin_id as u32, p.layer)
        } else {
            before
        }
    }
}

/// Lists where a document without any has one empty list.
pub open spec fn filled(lists: Seq<Seq<Seq<u32>>>) -> Seq<Seq<Seq<u32>>> {
    lists.map_values(
        |l: Seq<Seq<u32>>|
            if l.len() == 0 {
                seq![Seq::<u32>::empty()]
            } else {
                l
            },
    )
}

/// The packed graph of built points.
pub open spec fn graph_of(points: Seq<BuiltPoint>, n: u32) -> Seq<u8> {
    let entry = entry_after(points, n as nat, points.len());
    graph::packed_graph(
        entry.0,
        entry.1,
        n,
        filled(lists_after(points, n as nat, points.len())),
    )
}

/// The lists of a point that are kept.
fn keep_lists(p: &BuiltPoint) -> (r: Vec<Vec<u32>>)
    ensures
        r.deep_view() == kept_lists(*p),
{
    let layers: usize = p.layer as usize + 1;
    let kept: usize = if layers < p.neighborhoods.len() {
        layers
    } else {
        p.neighborhoods.len()
    };
    let mut out: Vec<Vec<u32>> = Vec::new();
    for l in 0..kept
        invariant
            kept == kept_layers(p.layer, p.neighborhoods@.len()),
            kept <= p.neighborhoods@.len(),
            out@.len() == l,
            forall|k: int| 0 <= k < l ==> (#[trigger] out@[k])@ == kept_lists(*p)[k],
    {
        let list = &p.neighborhoods[l];
        let mut ids: Vec<u32> = Vec::new();
        for i in 0..list.len()
            invariant
                list@ == p.neighborhoods@[l as int]@,
                ids@.len() == i,
                forall|k: int| 0 <= k < i ==> #[trigger] ids@[k] == list@[k] as u32,
        {
            ids.push(list[i] as u32);
        }
        assert(ids@ =~= kept_lists(*p)[l as int]);
        out.push(ids);
    }
    assert(out.deep_view() =~~= kept_lists(*p));
    out
}

/// Packs the graph of built points.
pub fn graph_from_points(points: &Vec<BuiltPoint>, n: u32) -> (r: CompactHnswGraph)
    ensures
        r@ == graph_of(points@, n),
{
    let count: usize = points.len();
    let total: usize = n as usize;
    let mut adjacency: Vec<Vec<Vec<u32>>> = Vec::new();
    for i in 0..total
        invariant
            adjacency@.len() == i,
            forall|k: int| 0 <= k < i ==> (#[trigger] adjacency@[k])@.len() == 0,
    {
        adjacency.push(Vec::new());
    }
    let mut entry_point: u32 = 0;
    let mut entry_layer: u8 = 0;
    assert(adjacency.deep_view() =~~= lists_after(points@, n as nat, 0));
    for i in 0..count
        invariant
            count == points@.len(),
            total == n,
            adjacency@.len() == total,
            adjacency.deep_view() == lists_after(points@, n as nat, i as nat),
            (entry_point, entry_layer) == entry_after(points@, n as nat, i as nat),
    {
        let p = &points[i];
        let origin_id: usize = p.origin_id;
        if origin_id < total {
            if p.layer >= entry_layer {
                entry_layer = p.layer;
                entry_point = origin_id as u32;
            }
            let ghost before = adjacency.deep_view();
            let layers: Vec<Vec<u32>> = keep_lists(p);
            let ghost kept = layers.deep_view();
            adjacency[origin_id] = layers;
            assert(adjacency.deep_view() =~= before.update(origin_id as int, kept));
        }
    }
    let ghost lists = adjacency.deep_view();
    for i in 0..total
        invariant
            adjacency@.len() == total,
            lists.len() == total,
            forall|k: int| 0 <= k < i ==> adjacency.deep_view()[k] == #[trigger] filled(lists)[k],
            forall|k: int| i <= k < total ==> adjacency.deep_view()[k] == #[trigger] lists[k],
    {
        let ghost before = adjacency.deep_view();
        assert(before[i as int] == adjacency@[i as int].deep_view());
        assert(lists[i as int].len() == adjacency@[i as int]@.len());
        if adjacency[i].len() == 0 {
            let mut one: Vec<Vec<u32>> = Vec::new();
            one.push(Vec::new());
            assert(one.deep_view() =~~= seq![Seq::<u32>::empty()]);
            adjacency[i] = one;
            assert(adjacency.deep_view() =~= before.update(
                i as int,
                seq![Seq::<u32>::empty()],
            ));
        }
    }
    assert(adjacency.deep_view() =~= filled(lists));
    CompactHnswGraph::new(entry_point, entry_layer, n, adjacency)
}

/// Whether a plan is the one for `n` documents on a pool of some number of threads.
pub open spec fn planned(plan: BuildPlan, options: VectorOptions, n: u32) -> bool {
    exists|threads: usize|
        is_pool_size(threads) && plan == plan_for(
            options,
            n as usize,
            #[trigger] enough_for(n as int, threads as int),
        )
}

/// Whether a graph is what came of building one of a field's rows as planned.
pub open spec fn built_by<T, B: Fn(&BuildPlan, &[T]) -> Vec<BuiltPoint>>(
    build: B,
    options: VectorOptions,
    max_doc: u32,
    flat: Seq<T>,
    graph: Seq<u8>,
) -> bool {
    if max_doc == 0 {
        graph == graph::packed_graph(0, 0, 0, Seq::empty())
    } else {
        exists|plan: &BuildPlan, rows: &[T], points: Vec<BuiltPoint>| #[trigger]
            build.ensures((plan, rows), points) && rows@ == flat && planned(
                *plan,
                options,
                max_doc,
            ) && graph == graph_of(points@, max_doc)
    }
}

/// Whether `build` takes every plan and all rows.
pub open spec fn is_builder<T, B: Fn(&BuildPlan, &[T]) -> Vec<BuiltPoint>>(build: B) -> bool {
    forall|plan: &BuildPlan, rows: &[T]| #[trigger] build.requires((plan, rows))
}

/// Builds the graph of a field's rows. The points come from `build`, which inserts the
/// rows as planned.
pub fn extract_compact_graph<T, B: Fn(&BuildPlan, &[T]) -> Vec<BuiltPoint>>(
    options: &VectorOptions,
    max_doc: u32,
    flat: &[T],
    build: &B,
) -> (r: Result<CompactHnswGraph, VectorError>)
    requires
        max_doc * options.dimension <= usize::MAX,
        is_builder(*build),
    ensures
        max_doc > 0 && flat@.len() != max_doc * options.dimension ==> r == Err::<
            CompactHnswGraph,
            VectorError,
        >(
            VectorError::FlatLength {
                got: flat@.len() as usize,
                expected: (max_doc * options.dimension) as usize,
            },
        ),
        max_doc == 0 || flat@.len() == max_doc * options.dimension ==> r is Ok && built_by(
            *build,
            *options,
            max_doc,
            flat@,
            r->Ok_0@,
        ),
{
    let dim: usize = options.dimension;
    let n: usize = max_doc as usize;
    if n == 0 {
        let none: Vec<Vec<Vec<u32>>> = Vec::new();
        assert(none.deep_view() =~= Seq::<Seq<Seq<u32>>>::empty());
        return Ok(CompactHnswGraph::new(0, 0, 0, none));
    }
    assert(flat.len() == flat@.len());
    let expected: usize = n * dim;
    if flat.len() != expected {
        return Err(VectorError::FlatLength { got: flat.len(), expected });
    }
    let parallel: bool = parallel_insert_worthwhile(n);
    let plan = BuildPlan {
        metric: options.distance.metric(),
        max_nb_connection: options.max_nb_connection,
        max_elements: if n < 1 {
            1
        } else {
            n
        },
        max_layer: HNSW_DUMP_MAX_LAYER,
        ef_construction: options.ef_construction,
        rows: n,
        dim,
        parallel,
    };
    assert(planned(plan, *options, max_doc));
    let points: Vec<BuiltPoint> = build(&plan, flat);
    Ok(graph_from_points(&points, max_doc))
}

// ---------------------------------------------------------------------------
// Laws
// ---------------------------------------------------------------------------

/// Whether every neighbour of every point is one of `n` documents.
pub open spec fn neighbors_below(points: Seq<BuiltPoint>, n: u32) -> bool {
    forall|i: int, l: int, k: int|
        0 <= i < points.len() && 0 <= l < points[i].neighborhoods@.len() && 0 <= k
            < points[i].neighborhoods@[l]@.len() ==> #[trigger] points[i].neighborhoods@[l]@[k] < n
}

/// Whether no list of the first `count` points has an id from `n` on, and no document
/// more lists than a layer count can hold.
spec fn lists_below(lists: Seq<Seq<Seq<u32>>>, n: u32) -> bool {
    forall|i: int|
        0 <= i < lists.len() ==> (#[trigger] lists[i]).len() <= u8::MAX && forall|l: int|
            0 <= l < lists[i].len() ==> search::all_below(#[trigger] lists[i][l], n)
}

proof fn lemma_lists_below(points: Seq<BuiltPoint>, n: u32, count: nat)
    requires
        count <= points.len(),
        neighbors_below(points, n),
        forall|i: int| 0 <= i < points.len() ==> (#[trigger] points[i]).layer < u8::MAX,
    ensures
        lists_below(lists_after(points, n as nat, count), n),
        lists_after(points, n as nat, count).len() == n,
        n > 0 ==> entry_after(points, n as nat, count).0 < n,
    decreases count,
{
    if count > 0 {
        lemma_lists_below(points, n, (count - 1) as nat);
        let p = points[count - 1];
        let kept = kept_lists(p);
        assert(kept.len() <= u8::MAX);
        assert forall|l: int| 0 <= l < kept.len() implies search::all_below(
            #[trigger] kept[l],
            n,
        ) by {
            assert forall|k: int| 0 <= k < kept[l].len() implies #[trigger] kept[l][k] < n by {
                assert(points[count - 1].neighborhoods@[l]@[k] < n);
            }
        }
    }
}

/// A graph that was packed from built points links only to points of the graph, and
/// gives back the neighbours that were kept of each document, provided that every
/// neighbour is a document and the sizes fit in the packed form.
pub proof fn built_graph_keeps_its_links(points: Seq<BuiltPoint>, n: u32)
    requires
        n > 0,
        neighbors_below(points, n),
        forall|i: int| 0 <= i < points.len() ==> (#[trigger] points[i]).layer < u8::MAX,
        graph::lists_bytes(
            filled(lists_after(points, n as nat, points.len())),
            n as nat,
        ).len() <= u32::MAX,
    ensures
        search::links_in_range(graph_of(points, n)),
        forall|doc: u32, layer: nat|
            doc < n && layer < filled(
                lists_after(points, n as nat, points.len()),
            )[doc as int].len() ==> #[trigger] graph::neighbor_ids(
                graph_of(points, n),
                doc,
                layer,
            ) == filled(lists_after(points, n as nat, points.len()))[doc as int][layer as int],
{
    let lists = lists_after(points, n as nat, points.len());
    let all = filled(lists);
    let entry = entry_after(points, n as nat, points.len());
    let b = graph_of(points, n);
    lemma_lists_below(points, n, points.len());
    graph::header_of_packed_graph(entry.0, entry.1, n, all);
    assert forall|doc: u32, layer: nat| doc < n implies search::all_below(
        #[trigger] graph::neighbor_ids(b, doc, layer),
        n,
    ) && (layer < all[doc as int].len() ==> graph::neighbor_ids(b, doc, layer)
        == all[doc as int][layer as int]) by {
        let layers = all[doc as int];
        assert(lists[doc as int].len() <= u8::MAX);
        graph::lemma_lists_bytes_grow(all, doc as nat, n as nat);
        assert forall|i: int| 0 <= i < layers.len() implies (#[trigger] layers[i]).len()
            <= u32::MAX by {
            graph::lemma_list_within(all, doc as int, i, n as nat);
        }
        graph::neighbors_of_packed_graph(entry.0, entry.1, n, all, doc, layer);
        if layer < layers.len() {
            if lists[doc as int].len() > 0 {
                assert(search::all_below(lists[doc as int][layer as int], n));
            }
        }
    }
    assert forall|doc: u32, layer: nat| search::all_below(
        #[trigger] graph::neighbor_ids(b, doc, layer),
        n,
    ) by {
        if doc >= n {
            assert(graph::neighbor_ids(b, doc, layer) =~= Seq::empty());
        }
    }
}

proof fn lemma_lists_of_last(points: Seq<BuiltPoint>, n: nat, count: nat, i: int)
    requires
        0 <= i < count <= points.len(),
        points[i].origin_id < n,
        forall|j: int|
            i < j < count ==> (#[trigger] points[j]).origin_id != points[i].origin_id,
    ensures
        lists_after(points, n, count).len() == n,
        lists_after(points, n, count)[points[i].origin_id as int] == kept_lists(points[i]),
    decreases count,
{
    lemma_lists_len(points, n, (count - 1) as nat);
    if i < count - 1 {
        lemma_lists_of_last(points, n, (count - 1) as nat, i);
    }
}

proof fn lemma_lists_len(points: Seq<BuiltPoint>, n: nat, count: nat)
    ensures
        lists_after(points, n, count).len() == n,
    decreases count,
{
    if count > 0 {
        lemma_lists_len(points, n, (count - 1) as nat);
    }
}

proof fn lemma_lists_of_none(points: Seq<BuiltPoint>, n: nat, count: nat, doc: int)
    requires
        0 <= doc < n,
        count <= points.len(),
        forall|j: int| 0 <= j < count ==> (#[trigger] points[j]).origin_id != doc,
    ensures
        lists_after(points, n, count).len() == n,
        lists_after(points, n, count)[doc].len() == 0,
    decreases count,
{
    if count > 0 {
        lemma_lists_of_none(points, n, (count - 1) as nat, doc);
    }
}

/// What is read of a graph's document once its lists are known.
proof fn lemma_neighbors_of_document(points: Seq<BuiltPoint>, n: u32, doc: u32, layer: nat)
    requires
        doc < n,
        neighbors_below(points, n),
        forall|i: int| 0 <= i < points.len() ==> (#[trigger] points[i]).layer < u8::MAX,
        graph::lists_bytes(
            filled(lists_after(points, n as nat, points.len())),
            n as nat,
        ).len() <= u32::MAX,
    ensures
        ({
            let lists = lists_after(points, n as nat, points.len())[doc as int];
            graph::neighbor_ids(graph_of(points, n), doc, layer) == if layer < lists.len() {
                lists[layer as int]
            } else {
                Seq::empty()
            }
        }),
{
    let lists = lists_after(points, n as nat, points.len());
    let all = filled(lists);
    let entry = entry_after(points, n as nat, points.len());
    lemma_lists_below(points, n, points.len());
    let layers = all[doc as int];
    assert(lists[doc as int].len() <= u8::MAX);
    graph::lemma_lists_bytes_grow(all, doc as nat, n as nat);
    assert forall|i: int| 0 <= i < layers.len() implies (#[trigger] layers[i]).len()
        <= u32::MAX by {
        graph::lemma_list_within(all, doc as int, i, n as nat);
    }
    graph::neighbors_of_packed_graph(entry.0, entry.1, n, all, doc, layer);
    if lists[doc as int].len() == 0 {
        assert(layers =~= seq![Seq::<u32>::empty()]);
        if layer == 0 {
            assert(layers[0] =~= Seq::empty());
        }
    }
}

/// A document's neighbours in a graph are those of its last point: on each layer that the
/// point is on the neighbours that the point has there, in their order, and none on any
/// other layer.
pub proof fn documents_have_the_neighbors_of_their_last_point(
    points: Seq<BuiltPoint>,
    n: u32,
    i: int,
    layer: nat,
)
    requires
        0 <= i < points.len(),
        points[i].origin_id < n,
        forall|j: int|
            i < j < points.len() ==> (#[trigger] points[j]).origin_id != points[i].origin_id,
        neighbors_below(points, n),
        forall|j: int| 0 <= j < points.len() ==> (#[trigger] points[j]).layer < u8::MAX,
        graph::lists_bytes(
            filled(lists_after(points, n as nat, points.len())),
            n as nat,
        ).len() <= u32::MAX,
    ensures
        ({
            let p = points[i];
            let ids = graph::neighbor_ids(graph_of(points, n), p.origin_id as u32, layer);
            if layer <= p.layer && layer < p.neighborhoods@.len() {
                &&& ids.len() == p.neighborhoods@[layer as int]@.len()
                &&& forall|k: int|
                    0 <= k < ids.len() ==> #[trigger] ids[k]
                        == p.neighborhoods@[layer as int]@[k]
            } else {
                ids.len() == 0
            }
        }),
{
    let p = points[i];
    lemma_lists_of_last(points, n as nat, points.len(), i);
    lemma_neighbors_of_document(points, n, p.origin_id as u32, layer);
    if layer <= p.layer && layer < p.neighborhoods@.len() {
        let ids = kept_lists(p)[layer as int];
        assert forall|k: int| 0 <= k < ids.len() implies #[trigger] ids[k]
            == p.neighborhoods@[layer as int]@[k] by {
            assert(points[i].neighborhoods@[layer as int]@[k] < n);
        }
    }
}

/// A document without a point has no neighbours.
pub proof fn documents_without_points_have_no_neighbors(
    points: Seq<BuiltPoint>,
    n: u32,
    doc: u32,
    layer: nat,
)
    requires
        doc < n,
        forall|j: int| 0 <= j < points.len() ==> (#[trigger] points[j]).origin_id != doc,
        neighbors_below(points, n),
        forall|j: int| 0 <= j < points.len() ==> (#[trigger] points[j]).layer < u8::MAX,
        graph::lists_bytes(
            filled(lists_after(points, n as nat, points.len())),
            n as nat,
        ).len() <= u32::MAX,
    ensures
        graph::neighbor_ids(graph_of(points, n), doc, layer).len() == 0,
{
    lemma_lists_of_none(points, n as nat, points.len(), doc as int);
    lemma_neighbors_of_document(points, n, doc, layer);
}

proof fn lemma_entry_below(points: Seq<BuiltPoint>, n: nat, count: nat, top: u8)
    requires
        count <= points.len(),
        forall|j: int|
            0 <= j < count && (#[trigger] points[j]).origin_id < n ==> points[j].layer <= top,
    ensures
        entry_after(points, n, count).1 <= top,
    decreases count,
{
    if count > 0 {
        lemma_entry_below(points, n, (count - 1) as nat, top);
    }
}

proof fn lemma_entry(points: Seq<BuiltPoint>, n: nat, count: nat, i: int)
    requires
        0 <= i < count <= points.len(),
        points[i].origin_id < n,
        forall|j: int|
            0 <= j < count && (#[trigger] points[j]).origin_id < n ==> points[j].layer
                <= points[i].layer,
        forall|j: int|
            i < j < count && (#[trigger] points[j]).origin_id < n ==> points[j].layer
                < points[i].layer,
    ensures
        entry_after(points, n, count) == (points[i].origin_id as u32, points[i].layer),
    decreases count,
{
    if i < count - 1 {
        lemma_entry(points, n, (count - 1) as nat, i);
    } else {
        lemma_entry_below(points, n, (count - 1) as nat, points[i].layer);
    }
}

/// A search starts from the document of a point on the highest layer: of the last such
/// point, on that layer.
pub proof fn searches_start_on_the_highest_layer(points: Seq<BuiltPoint>, n: u32, i: int)
    requires
        0 <= i < points.len(),
        points[i].origin_id < n,
        forall|j: int|
            0 <= j < points.len() && (#[trigger] points[j]).origin_id < n ==> points[j].layer
                <= points[i].layer,
        forall|j: int|
            i < j < points.len() && (#[trigger] points[j]).origin_id < n ==> points[j].layer
                < points[i].layer,
    ensures
        graph::entry_point_of(graph_of(points, n)) == points[i].origin_id,
        graph::entry_layer_of(graph_of(points, n)) == points[i].layer,
        graph::num_points_of(graph_of(points, n)) == n,
{
    let entry = entry_after(points, n as nat, points.len());
    lemma_entry(points, n as nat, points.len(), i);
    graph::header_of_packed_graph(
        entry.0,
        entry.1,
        n,
        filled(lists_after(points, n as nat, points.len())),
    );
}

/// A graph is built by the field's own numbers: its metric, its dimension, its number of
/// neighbours and its width, on at most sixteen layers, with a row for every document and
/// room for at least one. Rows are inserted in parallel once there are a thousand for each
/// thread, and at least a thousand.
pub proof fn graphs_are_built_by_the_options(
    plan: BuildPlan,
    options: VectorOptions,
    n: u32,
) -> (threads: usize)
    requires
        planned(plan, options, n),
    ensures
        plan.metric == match options.distance {
            VectorDistance::Euclidean => Metric::L2,
            VectorDistance::Cosine => Metric::Dot,
            VectorDistance::DotProduct => Metric::Dot,
        },
        plan.max_nb_connection == options.max_nb_connection,
        plan.ef_construction == options.ef_construction,
        plan.max_layer == 16,
        plan.dim == options.dimension,
        plan.rows == n,
        n > 0 ==> plan.max_elements == n,
        n == 0 ==> plan.max_elements == 1,
        plan.parallel ==> n >= 1000,
        is_pool_size(threads),
        1000 * threads <= usize::MAX ==> (plan.parallel <==> n >= 1000 && n >= 1000 * threads),
{
    let threads = choose|threads: usize|
        is_pool_size(threads) && plan == plan_for(
            options,
            n as usize,
            #[trigger] enough_for(n as int, threads as int),
        );
    threads
}

/// Inserting is worth it in parallel from a thousand documents per thread on; a pool
/// without threads counts as one thread.
pub proof fn a_thousand_documents_per_thread_are_enough(n: usize, threads: usize)
    ensures
        1000 * threads <= usize::MAX ==> (enough_for(n as int, threads as int) <==> n >= 1000
            && n >= 1000 * threads),
        1000 * threads > usize::MAX ==> (enough_for(n as int, threads as int) <==> n
            == usize::MAX),
{
}

} // verus!
