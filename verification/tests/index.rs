//! The neighbour graph, searching it, and the bits and bytes below it.

use vector_segment::bytes::{check_len, read_u32_le, read_u64_le, OwnedBytes};
use vector_segment::error::{ErrorKind, Section, VectorError};
use vector_segment::floatbits::{
    abs, finite, ge, lt, max_zero, nan, neg, total_key, INFINITY_BITS, NEG_ONE_BITS, ONE_BITS,
    TINY_BITS, TWO_BITS,
};
use vector_segment::graph::{align4, CompactHnswGraph};
use vector_segment::hits::{sort_hits, sort_values, DistId, Frontier, NearestHits};
use vector_segment::hnsw::{
    extract_compact_graph, flat_rows_as_insert_slices, graph_from_points,
    parallel_insert_worthwhile, worthwhile_with_threads, BuildPlan, BuiltPoint,
};
use vector_segment::options::{
    default_ef_construction, default_max_nb_connection, Metric, VectorDistance, VectorOptions,
};
use vector_segment::search::{
    check_links, exhaustive_search, search, search_graph, search_graph_dot, SearchResult,
};
use vector_segment::visited::VisitedSet;

const COSINE: VectorDistance = VectorDistance::Cosine;
const EUCLIDEAN: VectorDistance = VectorDistance::Euclidean;

// ---------------------------------------------------------------------------
// Numbers and bytes
// ---------------------------------------------------------------------------

#[test]
fn constants_are_the_numbers_they_name() {
    assert_eq!(f32::from_bits(ONE_BITS), 1.0);
    assert_eq!(f32::from_bits(NEG_ONE_BITS), -1.0);
    assert_eq!(f32::from_bits(TWO_BITS), 2.0);
    assert_eq!(f32::from_bits(TINY_BITS), 1e-12);
    assert_eq!(f32::from_bits(INFINITY_BITS), f32::INFINITY);
}

#[test]
fn comparisons_are_those_of_the_numbers() {
    let samples = [
        0.0f32,
        -0.0,
        1.0,
        -1.0,
        1e-40,
        -1e-40,
        f32::MAX,
        f32::MIN,
        f32::INFINITY,
        f32::NEG_INFINITY,
        f32::NAN,
        -f32::NAN,
    ];
    for a in samples {
        let x = a.to_bits();
        assert_eq!(nan(x), a.is_nan());
        assert_eq!(finite(x), a.is_finite());
        assert_eq!(abs(x), a.abs().to_bits());
        assert_eq!(neg(x), (-a).to_bits());
        assert_eq!(f32::from_bits(max_zero(x)), a.max(0.0));
        for b in samples {
            let y = b.to_bits();
            assert_eq!(lt(x, y), a < b, "{a} < {b}");
            assert_eq!(ge(x, y), a >= b, "{a} >= {b}");
            assert_eq!(total_key(x) < total_key(y), a.total_cmp(&b).is_lt());
        }
    }
}

#[test]
fn integers_are_little_endian() {
    let buf = [9u8, 0x78, 0x56, 0x34, 0x12, 1, 0, 0, 0, 2, 0, 0, 0];
    let mut pos = 1usize;
    assert_eq!(read_u32_le(&buf, &mut pos), Ok(0x1234_5678));
    assert_eq!(pos, 5);
    assert_eq!(read_u64_le(&buf, &mut pos), Ok(0x2_0000_0001));
    assert_eq!(pos, 13);
    let short = VectorError::Truncated(Section::U32);
    assert_eq!(read_u32_le(&buf, &mut pos), Err(short));
    assert_eq!(pos, 13);
    pos = 6;
    let short = VectorError::Truncated(Section::U64);
    assert_eq!(read_u64_le(&buf, &mut pos), Err(short));
    assert_eq!(pos, 6);
    assert_eq!(check_len(&buf, 10, 3, Section::Magic), Ok(()));
    let short = VectorError::Truncated(Section::Magic);
    assert_eq!(check_len(&buf, 11, 3, Section::Magic), Err(short));
    assert_eq!(check_len(&buf, usize::MAX, 3, Section::Magic), Err(short));
}

#[test]
fn slices_share_their_buffer() {
    let all = OwnedBytes::new(vec![1, 2, 3, 4, 5]);
    let part = all.slice(1, 4);
    assert_eq!(part.as_slice(), [2, 3, 4]);
    assert_eq!(part.slice(1, 2).as_slice(), [3]);
    assert_eq!(part.share().len(), 3);
    assert_eq!(all.as_slice()[1..].as_ptr(), part.as_slice().as_ptr());
}

// ---------------------------------------------------------------------------
// Options and errors
// ---------------------------------------------------------------------------

#[test]
fn options_start_from_their_defaults() {
    let o = VectorOptions::new(7);
    assert_eq!(o.dimension, 7);
    assert_eq!(o.distance, COSINE);
    assert_eq!((o.ef_construction, o.max_nb_connection), (200, 16));
    assert_eq!(default_ef_construction(), 200);
    assert_eq!(default_max_nb_connection(), 16);
    assert!(o.is_indexed() && !o.is_stored());
    let o = o
        .set_distance(EUCLIDEAN)
        .set_stored(true)
        .set_ef_construction(3)
        .set_max_nb_connection(5);
    assert!(o.is_stored());
    assert_eq!(o.distance, EUCLIDEAN);
    assert_eq!((o.dimension, o.ef_construction, o.max_nb_connection), (7, 3, 5));
    assert_eq!(EUCLIDEAN.metric(), Metric::L2);
    assert_eq!(VectorDistance::DotProduct.metric(), Metric::Dot);
    assert!(COSINE.normalizes() && !VectorDistance::DotProduct.normalizes());
    assert_eq!(VectorDistance::default(), COSINE);
}

#[test]
fn errors_have_their_families() {
    let kinds = [
        (VectorError::TruncatedEntryLayer, ErrorKind::DataCorruption),
        (VectorError::OptionsUnwritable, ErrorKind::InternalError),
        (VectorError::NotAVectorField, ErrorKind::SchemaError),
        (
            VectorError::QueryDimension { got: 2, expected: 3 },
            ErrorKind::InvalidArgument,
        ),
    ];
    for (e, kind) in kinds {
        assert_eq!(e.kind(), kind);
    }
    assert_eq!(Section::PackedCodes.name(), "packed codes");
    assert_eq!(Section::AdjOffsets.name(), "adj offsets");
}

// ---------------------------------------------------------------------------
// The packed graph
// ---------------------------------------------------------------------------

#[test]
fn mmap_graph_neighbors_roundtrip() {
    let adj = vec![
        vec![vec![1, 2], vec![2]],
        vec![vec![0, 2]],
        vec![vec![0, 1], vec![0]],
    ];
    let g = CompactHnswGraph::new(0, 1, 3, adj);
    let n0: Vec<u32> = g.neighbors(0, 0).collect();
    assert_eq!(n0, vec![1, 2]);
    let n0l1: Vec<u32> = g.neighbors(0, 1).collect();
    assert_eq!(n0l1, vec![2]);
    let n1: Vec<u32> = g.neighbors(1, 0).collect();
    assert_eq!(n1, vec![0, 2]);
    let bytes = g.serialize();
    let g2 = CompactHnswGraph::from_bytes(OwnedBytes::new(bytes)).unwrap();
    let n0b: Vec<u32> = g2.neighbors(0, 0).collect();
    assert_eq!(n0b, vec![1, 2]);
    assert!(g2.neighbors(0, 9).next().is_none());
}

#[test]
fn graph_bytes_are_laid_out_in_order() {
    let g = CompactHnswGraph::new(1, 0, 2, vec![vec![vec![1]], vec![vec![]]]);
    let bytes = g.serialize();
    assert_eq!(bytes[..9], [1, 0, 0, 0, 0, 2, 0, 0, 0]);
    assert_eq!(bytes[9..11], [1, 1]);
    assert_eq!(g.layer_counts(), [1, 1]);
    assert_eq!((g.entry_point(), g.entry_layer(), g.num_points()), (1, 0, 2));
    assert_eq!(g.adj_offset(0), Some(0));
    assert_eq!(g.adj_offset(1), Some(8));
    assert_eq!(g.adj_offset(2), None);
    assert_eq!((align4(0), align4(9), align4(12)), (0, 12, 12));
    assert_eq!(bytes[12..], [0, 0, 0, 0, 8, 0, 0, 0, 1, 0, 0, 0, 1, 0, 0, 0, 0, 0, 0, 0]);
}

#[test]
fn broken_graphs_are_refused() {
    let open = |b: Vec<u8>| CompactHnswGraph::from_bytes(OwnedBytes::new(b)).err();
    assert_eq!(open(vec![0; 3]), Some(VectorError::Truncated(Section::U32)));
    assert_eq!(open(vec![0; 4]), Some(VectorError::TruncatedEntryLayer));
    assert_eq!(open(vec![0; 8]), Some(VectorError::Truncated(Section::U32)));
    let mut counted = vec![0u8; 9];
    counted[5] = 4;
    assert_eq!(
        open(counted.clone()),
        Some(VectorError::Truncated(Section::LayerCounts))
    );
    counted.resize(13, 0);
    assert_eq!(open(counted), Some(VectorError::Truncated(Section::AdjOffsets)));
    assert_eq!(open(vec![0; 12]), None);
}

#[test]
fn lists_that_end_early_give_what_is_there() {
    let g = CompactHnswGraph::new(0, 0, 1, vec![vec![vec![0, 0, 0]]]);
    let mut bytes = g.serialize();
    bytes.truncate(bytes.len() - 5);
    let cut = CompactHnswGraph::from_bytes(OwnedBytes::new(bytes)).unwrap();
    assert!(cut.neighbors(0, 0).collect().len() < 3);
    assert!(cut.neighbors(7, 0).collect().is_empty());
}

// ---------------------------------------------------------------------------
// Collections of a search
// ---------------------------------------------------------------------------

#[test]
fn visited_points_are_marked_once() {
    let mut seen = VisitedSet::new(130);
    assert!(seen.mark(0) && seen.mark(63) && seen.mark(64) && seen.mark(129));
    assert!(!seen.mark(63) && !seen.mark(129));
    assert!(seen.mark(62));
}

#[test]
fn hits_come_nearest_first_and_by_id_among_equals() {
    let hit = |d: f32, id: u32| DistId(d.to_bits(), id);
    let order = [
        hit(-1.0, 5),
        hit(-0.0, 9),
        hit(0.0, 1),
        hit(0.0, 2),
        hit(3.0, 0),
        hit(f32::NAN, 0),
    ];
    let mixed = vec![order[3], order[5], order[0], order[4], order[2], order[1]];
    let ids = |v: &[DistId]| v.iter().map(|h| (h.0, h.1)).collect::<Vec<(u32, u32)>>();
    assert_eq!(ids(&sort_hits(mixed.clone())), ids(&order));
    let mut near = NearestHits::new();
    let mut front = Frontier::new();
    for h in mixed {
        near.push(h);
        front.push(h);
    }
    assert_eq!(near.len(), 6);
    assert_eq!(near.peek().map(|h| h.0), Some(f32::NAN.to_bits()));
    near.pop();
    assert_eq!(ids(&near.into_vec()), ids(&order[..5]));
    let mut walked = Vec::new();
    for _ in 0..7 {
        if let Some(h) = front.pop() {
            walked.push(h);
        }
    }
    assert_eq!(ids(&walked), ids(&order));
}

#[test]
fn values_sort_in_the_total_order() {
    let v = [2.0f32, -0.0, f32::NAN, 0.0, -3.0, f32::NEG_INFINITY];
    let bits: Vec<u32> = v.iter().map(|x| x.to_bits()).collect();
    let sorted: Vec<f32> = sort_values(&bits).iter().map(|b| f32::from_bits(*b)).collect();
    assert_eq!(sorted[..2], [f32::NEG_INFINITY, -3.0]);
    assert!(sorted[2].is_sign_negative() && sorted[3].is_sign_positive());
    assert_eq!(sorted[4], 2.0);
    assert!(sorted[5].is_nan());
}

// ---------------------------------------------------------------------------
// Searching
// ---------------------------------------------------------------------------

/// Points on a line, `point` at position `point`, each linked to its neighbours.
fn line(n: u32) -> CompactHnswGraph {
    let lists = (0..n)
        .map(|p| {
            let mut near = Vec::new();
            if p > 0 {
                near.push(p - 1);
            }
            if p + 1 < n {
                near.push(p + 1);
            }
            vec![near]
        })
        .collect();
    CompactHnswGraph::new(0, 0, n, lists)
}

fn from(position: f32) -> impl Fn(u32) -> u32 {
    move |p: u32| (p as f32 - position).abs().to_bits()
}

fn rows_from(position: f32) -> impl Fn(&[u32]) -> Vec<u32> {
    move |ids: &[u32]| ids.iter().map(|p| (*p as f32 - position).abs().to_bits()).collect()
}

fn ids(results: &[SearchResult]) -> Vec<u32> {
    results.iter().map(|r| r.doc_id).collect()
}

#[test]
fn walking_a_line_finds_the_nearest_points() {
    let g = line(40);
    let found = search_graph(&g, 3, 8, from(30.2));
    assert_eq!(ids(&found), [30, 31, 29]);
    assert_eq!(f32::from_bits(found[0].distance), 30.2 - 30.0);
    let found = search(&g, EUCLIDEAN, 2, 1, from(7.9), rows_from(7.9));
    assert_eq!(ids(&found), [8, 7]);
}

#[test]
fn points_are_scored_in_batches_of_sixteen() {
    let dense = |n: u32, reach: u32| {
        let lists = (0..n)
            .map(|p| vec![(0..n).filter(|q| *q != p && p.abs_diff(*q) <= reach).collect()])
            .collect();
        CompactHnswGraph::new(0, 0, n, lists)
    };
    let g = dense(200, 20);
    let found = search_graph_dot(&g, 3, 32, from(150.2), rows_from(150.2));
    assert_eq!(ids(&found), [150, 151, 149]);
    let found = search(&g, COSINE, 2, 32, from(150.2), rows_from(150.2));
    assert_eq!(ids(&found), [150, 151]);
    // A batch that never fills is scored at the end and not gone on from.
    let found = search_graph_dot(&line(40), 3, 8, from(30.2), rows_from(30.2));
    assert_eq!(ids(&found), [1, 0]);
}

#[test]
fn results_agree_with_trying_every_point() {
    let g = line(40);
    let all = exhaustive_search(&g, 5, from(11.3));
    assert_eq!(ids(&all), [11, 12, 10, 13, 9]);
    assert_eq!(ids(&search_graph(&g, 5, 40, from(11.3))), ids(&all));
    let short = exhaustive_search(&g, 100, from(11.3));
    assert_eq!(short.len(), 40);
}

#[test]
fn upper_layers_lead_to_the_neighbourhood() {
    let mut lists: Vec<Vec<Vec<u32>>> = (0..30u32)
        .map(|p| vec![if p % 10 < 9 { vec![p + 1] } else { vec![] }])
        .collect();
    lists[0].push(vec![20]);
    lists[20].push(vec![0]);
    let g = CompactHnswGraph::new(0, 1, 30, lists);
    assert!(check_links(&g));
    let found = search(&g, EUCLIDEAN, 2, 4, from(25.1), rows_from(25.1));
    assert_eq!(ids(&found), [25, 26]);
    let found = search(&g, EUCLIDEAN, 2, 4, from(3.1), rows_from(3.1));
    assert_eq!(ids(&found), [3, 4]);
}

#[test]
fn nothing_is_found_in_an_empty_graph_or_for_no_hits() {
    let empty = CompactHnswGraph::new(0, 0, 0, Vec::new());
    assert!(search(&empty, COSINE, 4, 4, from(0.0), rows_from(0.0)).is_empty());
    assert!(search(&line(3), COSINE, 0, 4, from(0.0), rows_from(0.0)).is_empty());
}

#[test]
fn unlinked_points_are_found_when_every_point_is_asked_for() {
    let lonely = CompactHnswGraph::new(0, 0, 3, vec![vec![Vec::new()]; 3]);
    let narrow = search(&lonely, EUCLIDEAN, 2, 9, from(2.0), rows_from(2.0));
    assert_eq!(ids(&narrow), [0]);
    let wide = search(&lonely, EUCLIDEAN, 3, 1, from(2.0), rows_from(2.0));
    assert_eq!(ids(&wide), [2, 1, 0]);
}

#[test]
fn links_out_of_the_graph_are_noticed() {
    assert!(check_links(&line(5)));
    let astray = CompactHnswGraph::new(0, 0, 2, vec![vec![vec![2]], vec![vec![]]]);
    assert!(!check_links(&astray));
    let outside = CompactHnswGraph::new(2, 0, 2, vec![vec![vec![]], vec![vec![]]]);
    assert!(!check_links(&outside));
}

// ---------------------------------------------------------------------------
// Building
// ---------------------------------------------------------------------------

#[test]
fn rows_are_cut_out_of_the_flat_buffer() {
    let flat = [1u32, 2, 3, 4, 5, 6];
    let rows = flat_rows_as_insert_slices(&flat, 3, 2);
    assert_eq!(rows, [(&flat[0..2], 0), (&flat[2..4], 1), (&flat[4..6], 2)]);
}

#[test]
fn parallel_insertion_needs_enough_rows_per_thread() {
    assert!(!worthwhile_with_threads(3999, 4));
    assert!(worthwhile_with_threads(4000, 4));
    assert!(worthwhile_with_threads(1000, 0));
    assert!(!worthwhile_with_threads(usize::MAX - 1, usize::MAX));
    assert!(!parallel_insert_worthwhile(999));
    let threads = rayon::current_num_threads();
    assert!(parallel_insert_worthwhile(threads * 1000));
    assert!(!parallel_insert_worthwhile(threads * 1000 - 1));
}

#[test]
fn built_points_become_a_graph() {
    let point = |origin_id: usize, layer: u8, neighborhoods: Vec<Vec<usize>>| BuiltPoint {
        origin_id,
        layer,
        neighborhoods,
    };
    let points = vec![
        point(2, 1, vec![vec![0], vec![1], vec![9]]),
        point(0, 0, vec![vec![2], vec![1]]),
        point(1, 1, vec![vec![2]]),
        point(9, 3, vec![vec![0]]),
    ];
    let g = graph_from_points(&points, 4);
    assert_eq!((g.entry_point(), g.entry_layer(), g.num_points()), (1, 1, 4));
    assert_eq!(g.layer_counts(), [1, 1, 2, 1]);
    assert_eq!(g.neighbors(2, 0).collect(), [0]);
    assert_eq!(g.neighbors(2, 1).collect(), [1]);
    assert!(g.neighbors(0, 1).collect().is_empty());
    assert!(g.neighbors(3, 0).collect().is_empty());
}

#[test]
fn a_plan_is_handed_to_the_builder() {
    let options = VectorOptions::new(2).set_distance(EUCLIDEAN);
    let build = |plan: &BuildPlan, flat: &[u32]| {
        assert_eq!(plan.metric, Metric::L2);
        assert_eq!((plan.max_nb_connection, plan.ef_construction), (16, 200));
        assert_eq!((plan.max_elements, plan.rows, plan.dim), (3, 3, 2));
        assert_eq!(plan.max_layer, 16);
        assert!(!plan.parallel);
        assert_eq!(flat, [1, 2, 3, 4, 5, 6]);
        vec![BuiltPoint {
            origin_id: 1,
            layer: 0,
            neighborhoods: vec![vec![2]],
        }]
    };
    let flat = [1u32, 2, 3, 4, 5, 6];
    let g = extract_compact_graph(&options, 3, &flat, &build).unwrap();
    assert_eq!(g.entry_point(), 1);
    assert_eq!(g.neighbors(1, 0).collect(), [2]);
    let wrong = extract_compact_graph(&options, 4, &flat, &build).err();
    assert_eq!(wrong, Some(VectorError::FlatLength { got: 6, expected: 8 }));
    let none = extract_compact_graph(&options, 0, &flat, &build).unwrap();
    assert_eq!(none.num_points(), 0);
}

#[test]
fn first_hits_are_not_farther_than_the_entry_point() {
    let g = line(40);
    for at in [0.0, 0.4, 17.5, 30.2, 99.0] {
        let entry = f32::from_bits(from(at)(0));
        let one_by_one = search_graph(&g, 50, 1, from(at));
        let batched = search_graph_dot(&g, 50, 1, from(at), rows_from(at));
        for found in [one_by_one, batched] {
            assert!(1 <= found.len() && found.len() <= 50);
            assert!(f32::from_bits(found[0].distance) <= entry);
            for r in &found {
                assert_eq!(r.distance, from(at)(r.doc_id));
            }
            for pair in found.windows(2) {
                assert!(f32::from_bits(pair[0].distance) <= f32::from_bits(pair[1].distance));
                assert_ne!(pair[0].doc_id, pair[1].doc_id);
            }
        }
    }
}
