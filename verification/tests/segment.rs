//! Writing, opening and querying a segment.

use vector_segment::arith::Op;
use vector_segment::bytes::OwnedBytes;
use vector_segment::codebook::codebook_for_dim;
use vector_segment::error::{ErrorKind, Section, VectorError};
use vector_segment::file::{
    f32_slice_from_bytes, read_vec_file_lazy, write_vec_file, VectorFieldBundle, VERSION,
};
use vector_segment::graph::CompactHnswGraph;
use vector_segment::hnsw::{graph_from_points, BuildPlan, BuiltPoint};
use vector_segment::knn_query::{
    scorer_over, sort_by_doc, KnnQuery, KnnScorer, KnnWeight, TERMINATED,
};
use vector_segment::options::{VectorDistance, VectorOptions};
use vector_segment::reader::VectorFieldReaders;
use vector_segment::scoring::{
    dist_dot_packed, dist_dot_packed_batch, dist_l2_packed, prepare_query,
};
use vector_segment::search::{check_links, exhaustive_search, search};
use vector_segment::turboquant::{encode_flat, packed_bytes};
use vector_segment::wide::WideOp;
use vector_segment::writer::{bytes_of_capacities, FieldValue, VectorFieldsWriter};

use hnsw_rs::prelude::{DistL2, Hnsw};

fn arith(op: Op, x: u32, y: u32) -> u32 {
    let a = f32::from_bits(x);
    let b = f32::from_bits(y);
    let r = match op {
        Op::Add => a + b,
        Op::Sub => a - b,
        Op::Mul => a * b,
        Op::Div => a / b,
        Op::Sqrt => a.sqrt(),
        Op::Int => x as f32,
    };
    if r.is_nan() {
        f32::NAN.to_bits()
    } else {
        r.to_bits()
    }
}

fn bits(row: &[f32]) -> Vec<u32> {
    row.iter().map(|x| x.to_bits()).collect()
}

fn floats(row: &[u32]) -> Vec<f32> {
    row.iter().map(|x| f32::from_bits(*x)).collect()
}

fn wide(op: WideOp, x: u64, y: u64) -> u64 {
    let a = f64::from_bits(x);
    let b = f64::from_bits(y);
    let r = match op {
        WideOp::Add => a + b,
        WideOp::Sub => a - b,
        WideOp::Mul => a * b,
        WideOp::Div => a / b,
        WideOp::Sqrt => a.sqrt(),
        WideOp::Exp => a.exp(),
        WideOp::Int => x as f64,
        WideOp::Round => return a.round() as u64,
        WideOp::Narrow => return u64::from((a as f32).to_bits()),
        WideOp::Widen => f64::from(f32::from_bits(x as u32)),
    };
    if r.is_nan() {
        f64::NAN.to_bits()
    } else {
        r.to_bits()
    }
}

/// Stores the options as five bytes.
fn options_bytes(o: &VectorOptions) -> Option<Vec<u8>> {
    let distance = match o.distance {
        VectorDistance::Cosine => 0u8,
        VectorDistance::Euclidean => 1,
        VectorDistance::DotProduct => 2,
    };
    if o.dimension > 200 || o.ef_construction > 255 || o.max_nb_connection > 255 {
        return None;
    }
    Some(vec![
        o.dimension as u8,
        distance,
        u8::from(o.stored),
        o.ef_construction as u8,
        o.max_nb_connection as u8,
    ])
}

fn options_from(b: &[u8]) -> Option<VectorOptions> {
    if b.len() != 5 {
        return None;
    }
    let distance = match b[1] {
        0 => VectorDistance::Cosine,
        1 => VectorDistance::Euclidean,
        2 => VectorDistance::DotProduct,
        _ => return None,
    };
    Some(
        VectorOptions::new(b[0] as usize)
            .set_distance(distance)
            .set_stored(b[2] == 1)
            .set_ef_construction(b[3] as usize)
            .set_max_nb_connection(b[4] as usize),
    )
}

/// Links every point with every other.
fn link_all(plan: &BuildPlan, _flat: &[u32]) -> Vec<BuiltPoint> {
    (0..plan.rows)
        .map(|p| BuiltPoint {
            origin_id: p,
            layer: 0,
            neighborhoods: vec![(0..plan.rows).filter(|q| *q != p).collect()],
        })
        .collect()
}

fn write_segment(options: VectorOptions, rows: &[Vec<f32>]) -> Vec<u8> {
    let schema = vec![Some(options)];
    let mut writer = VectorFieldsWriter::for_schema(&schema);
    for (doc, row) in rows.iter().enumerate() {
        let values: Vec<FieldValue> = vec![(0, Some(bits(row)))];
        writer.add_document(&values, doc as u32).unwrap();
    }
    let max_doc = rows.len() as u32;
    writer
        .serialize(&arith, &wide, &options_bytes, &link_all, max_doc)
        .unwrap()
}

fn open_segment(bytes: Vec<u8>) -> VectorFieldReaders {
    VectorFieldReaders::open(&arith, &wide, OwnedBytes::new(bytes), &options_from).unwrap()
}

fn segment(rows: &[Vec<f32>]) -> VectorFieldReaders {
    open_segment(write_segment(VectorOptions::new(3), rows))
}

fn weight(query: KnnQuery) -> KnnWeight {
    query.weight(&vec![Some(VectorOptions::new(3))]).unwrap()
}

/// The best `limit` hits of a query as `(score, doc)`, best first.
fn top_docs(readers: &VectorFieldReaders, query: KnnQuery, limit: usize) -> Vec<(f32, u32)> {
    let mut scorer = weight(query).scorer(&arith, readers, 1.0f32.to_bits()).unwrap();
    let mut all = Vec::new();
    let mut doc = scorer.doc();
    while doc != TERMINATED {
        all.push((f32::from_bits(scorer.score()), doc));
        doc = scorer.advance();
    }
    all.sort_by(|a, b| b.0.total_cmp(&a.0).then_with(|| a.1.cmp(&b.1)));
    all.truncate(limit);
    all
}

fn axes() -> Vec<Vec<f32>> {
    vec![
        vec![1.0f32, 0.0, 0.0],
        vec![0.0f32, 1.0, 0.0],
        vec![0.0f32, 0.0, 1.0],
    ]
}

// ---------------------------------------------------------------------------
// Queries
// ---------------------------------------------------------------------------

#[test]
fn knn_query_orders_by_similarity() {
    let readers = segment(&axes());
    let query = KnnQuery::new(0, bits(&[0.0f32, 1.0, 0.0]), 2);
    let top = top_docs(&readers, query, 2);
    assert_eq!(top.len(), 2);
    assert_eq!(top[0].1, 1);
}

#[test]
fn merge_segments_rebuilds_vector_index() {
    let first = segment(&[
        vec![1.0f32, 0.0, 0.0],
        vec![0.9f32, 0.1, 0.0],
        vec![0.8f32, 0.2, 0.0],
    ]);
    let second = segment(&[
        vec![0.0f32, 1.0, 0.0],
        vec![0.0f32, 0.9, 0.1],
        vec![0.0f32, 0.8, 0.2],
    ]);
    let mut rows = Vec::new();
    for readers in [&first, &second] {
        let reader = readers.get(0).unwrap();
        let flat = floats(&reader.flat_vectors(&arith).unwrap());
        rows.extend(flat.chunks(3).map(|row| row.to_vec()));
    }
    let merged = segment(&rows);
    let vread = merged
        .get(0)
        .expect("merged segment should load vector index");
    assert_eq!(vread.num_docs(), 6);
    let query = [0.0f32, 1.0, 0.0];
    let mut best_doc = 0u32;
    let mut best_sq = f32::INFINITY;
    for d in 0..vread.num_docs() {
        let v = floats(&vread.vector(&arith, d).unwrap().expect("vector row"));
        let sq: f32 = v
            .iter()
            .zip(query.iter())
            .map(|(a, b)| (a - b).powi(2))
            .sum();
        if sq < best_sq {
            best_sq = sq;
            best_doc = d;
        }
    }
    let knn = KnnQuery::new(0, bits(&query), 1).with_ef_search(512);
    let top = top_docs(&merged, knn, 1);
    assert_eq!(top.len(), 1);
    assert_eq!(
        top[0].1, best_doc,
        "k-NN top doc should match brute-force nearest neighbor after merge"
    );
}

#[test]
fn knn_query_returns_all_docs_when_k_covers_the_segment() {
    let readers = segment(&axes());
    assert_eq!(readers.get(0).unwrap().num_docs(), 3);
    let query = KnnQuery::new(0, bits(&[0.0f32, 1.0, 0.0]), 10).with_ef_search(1);
    let top = top_docs(&readers, query, 10);
    assert_eq!(top.len(), 3);
    assert_eq!(top[0].1, 1);
    let mut ids: Vec<u32> = top.iter().map(|(_, doc)| *doc).collect();
    ids.sort_unstable();
    assert_eq!(ids, vec![0, 1, 2]);
}

#[test]
fn knn_query_rejects_wrong_query_dimension() {
    let readers = segment(&[vec![1.0f32, 0.0, 0.0]]);
    let query = KnnQuery::new(0, bits(&[0.0f32, 1.0]), 1);
    let err = weight(query)
        .scorer(&arith, &readers, 1.0f32.to_bits())
        .err()
        .unwrap();
    assert_eq!(err.kind(), ErrorKind::InvalidArgument);
    assert_eq!(err, VectorError::QueryDimension { got: 2, expected: 3 });
}

#[test]
fn k_at_least_n_returns_isolated_nodes() {
    let dim = 4usize;
    let flat = [
        1.0f32, 0.0, 0.0, 0.0, // 0
        0.0, 1.0, 0.0, 0.0, // 1 -- query
        0.0, 0.0, 1.0, 0.0, // 2
    ];
    let codebook = codebook_for_dim(&arith, &wide, 4);
    let enc = encode_flat(&arith, &wide, 3, dim, &bits(&flat));
    let query = bits(&[0.0f32, 1.0, 0.0, 0.0]);
    let prepared = prepare_query(&arith, &query, dim, &enc.tqplus, &codebook);
    let stride = packed_bytes(enc.padded_dim);
    let graph = CompactHnswGraph::new(0, 0, 3, vec![vec![Vec::new()]; 3]);
    for dist in [
        VectorDistance::Cosine,
        VectorDistance::DotProduct,
        VectorDistance::Euclidean,
    ] {
        for k in [3, 10] {
            let row = |id: u32| {
                let packed = &enc.packed[id as usize * stride..(id as usize + 1) * stride];
                let scale = enc.renorm[id as usize];
                if dist == VectorDistance::Euclidean {
                    let (p, t) = (enc.padded_dim, &enc.tqplus);
                    dist_l2_packed(&arith, &prepared, packed, dim, p, &codebook, t, scale)
                } else {
                    dist_dot_packed(&arith, &prepared, packed, scale)
                }
            };
            let batch = |ids: &[u32]| {
                dist_dot_packed_batch(&arith, &prepared, &enc.packed, stride, ids, &enc.renorm)
            };
            let ids: Vec<u32> = search(&graph, dist, k, 1, row, batch)
                .into_iter()
                .map(|r| r.doc_id)
                .collect();
            assert_eq!(ids.len(), 3, "{dist:?} k={k}");
            assert_eq!(ids[0], 1, "{dist:?} k={k}: nearest must be the query row");
            let mut all = ids;
            all.sort_unstable();
            assert_eq!(all, [0, 1, 2], "{dist:?} k={k}");
        }
    }
}

#[test]
fn queries_keep_what_they_were_made_with() {
    let q = KnnQuery::new(4, bits(&[1.0]), 40);
    assert_eq!((q.field(), q.k()), (4, 40));
    let schema = vec![None, Some(VectorOptions::new(3))];
    assert!(KnnQuery::new(1, Vec::new(), 1).weight(&schema).is_ok());
    let e = KnnQuery::new(0, Vec::new(), 1).weight(&schema).err();
    assert_eq!(e, Some(VectorError::NotAVectorField));
}

#[test]
fn a_field_without_vectors_has_no_hits() {
    let readers = VectorFieldReaders::empty();
    assert!(readers.get(0).is_none());
    let w = weight(KnnQuery::new(0, bits(&[0.0, 1.0]), 3));
    let scorer = w.scorer(&arith, &readers, 1.0f32.to_bits()).unwrap();
    assert_eq!((scorer.doc(), scorer.size_hint()), (TERMINATED, 0));
    let e = w.explain(&arith, &readers, 0);
    assert_eq!(e, Err(VectorError::NotAmongResults { doc: 0 }));
}

#[test]
fn explanations_give_the_score_of_a_hit() {
    let readers = segment(&axes());
    let w = weight(KnnQuery::new(0, bits(&[0.0, 2.0, 0.0]), 1));
    let score = w.explain(&arith, &readers, 1).unwrap();
    let reader = readers.get(0).unwrap();
    let hits = reader.search(&arith, &bits(&[0.0, 2.0, 0.0]), 1, 64).unwrap();
    assert_eq!(hits, [(1, score)]);
    assert!(f32::from_bits(score) > 0.9 && f32::from_bits(score) <= 1.0);
    let e = w.explain(&arith, &readers, 2);
    assert_eq!(e, Err(VectorError::NotAmongResults { doc: 2 }));
    let doubled = w.scorer(&arith, &readers, 2.0f32.to_bits()).unwrap();
    assert_eq!(f32::from_bits(doubled.score()), 2.0 * f32::from_bits(score));
}

#[test]
fn scorers_walk_their_documents_in_order() {
    let hits = vec![(7u32, 1.0f32.to_bits()), (2, 3.0f32.to_bits()), (7, 5.0f32.to_bits())];
    assert_eq!(sort_by_doc(&hits), [hits[1], hits[0], hits[2]]);
    let mut s = scorer_over(&arith, &hits, 2.0f32.to_bits());
    assert_eq!((s.doc(), s.size_hint()), (2, 3));
    assert_eq!(f32::from_bits(s.score()), 6.0);
    assert_eq!(s.seek(5), 7);
    assert_eq!(f32::from_bits(s.score()), 2.0);
    assert_eq!(s.seek(1), 7);
    assert_eq!(s.advance(), 7);
    assert_eq!(s.advance(), TERMINATED);
    assert_eq!(s.advance(), TERMINATED);
    assert_eq!(s.score(), 0);
    let mut empty = KnnScorer::new(Vec::new(), Vec::new());
    assert_eq!(empty.seek(TERMINATED), TERMINATED);
}

// ---------------------------------------------------------------------------
// Writing
// ---------------------------------------------------------------------------

#[test]
fn documents_are_checked_against_their_fields() {
    let schema = vec![None, Some(VectorOptions::new(2))];
    let mut w = VectorFieldsWriter::for_schema(&schema);
    assert_eq!(w.add_document(&vec![(0, None), (9, None)], 0), Ok(()));
    assert_eq!(
        w.add_document(&vec![(1, None)], 0),
        Err(VectorError::ExpectedVector { field: 1 })
    );
    assert_eq!(
        w.add_document(&vec![(1, Some(bits(&[1.0])))], 0),
        Err(VectorError::DimensionMismatch { expected: 2, got: 1 })
    );
    assert_eq!(w.mem_usage(), 0);
    assert_eq!(w.add_document(&vec![(1, Some(bits(&[1.0, 2.0])))], 1), Ok(()));
    assert!(w.mem_usage() >= 8);
    let out = w.serialize(&arith, &wide, &options_bytes, &link_all, 2);
    assert_eq!(out, Err(VectorError::MissingVector { doc: 0, field: 1 }));
    assert_eq!(w.add_document(&vec![(1, Some(bits(&[3.0, 4.0])))], 0), Ok(()));
    let out = w.serialize(&arith, &wide, &options_bytes, &link_all, 2);
    let readers = open_segment(out.unwrap());
    assert_eq!(readers.get(1).unwrap().num_docs(), 2);
    let refuse = |_: &VectorOptions| -> Option<Vec<u8>> { None };
    let out = w.serialize(&arith, &wide, &refuse, &link_all, 2);
    assert_eq!(out, Err(VectorError::OptionsUnwritable));
}

#[test]
fn capacities_count_four_bytes_each() {
    assert_eq!(bytes_of_capacities(&vec![3, 0, 2]), 20);
    assert_eq!(bytes_of_capacities(&vec![usize::MAX, 1]), usize::MAX);
}

#[test]
fn cosine_rows_come_back_with_unit_length() {
    let readers = segment(&[vec![3.0, 0.0, 4.0], vec![0.0, 0.5, 0.0]]);
    let reader = readers.get(0).unwrap();
    assert!(reader.can_reconstruct() && reader.is_searchable(3, 2));
    assert!(reader.is_searchable(3, 1) && reader.is_searchable(5, 100));
    assert!(!reader.is_searchable(2, 1));
    for doc in 0..2 {
        let v = floats(&reader.vector(&arith, doc).unwrap().unwrap());
        let norm: f32 = v.iter().map(|x| x * x).sum::<f32>().sqrt();
        assert!((norm - 1.0).abs() < 0.2, "{norm}");
    }
    assert_eq!(reader.vector(&arith, 2), Ok(None));
}

// ---------------------------------------------------------------------------
// The file
// ---------------------------------------------------------------------------

fn bundle(field_id: u32, options: VectorOptions, rows: &[Vec<f32>]) -> VectorFieldBundle {
    let n = rows.len();
    let plan = |_: usize| (0..n).map(|p| vec![(0..n as u32).filter(|q| *q != p as u32).collect()]);
    VectorFieldBundle {
        field_id,
        options,
        options_json: options_bytes(&options).unwrap(),
        num_docs: n as u32,
        flat: bits(&rows.concat()),
        graph: CompactHnswGraph::new(0, 0, n as u32, plan(n).collect()),
    }
}

#[test]
fn written_fields_read_back() {
    let options = VectorOptions::new(3).set_distance(VectorDistance::Euclidean);
    let fields = vec![
        bundle(5, options, &axes()),
        bundle(8, VectorOptions::new(2), &[]),
    ];
    let bytes = write_vec_file(&arith, &wide, &fields);
    let read = read_vec_file_lazy(OwnedBytes::new(bytes), &options_from).unwrap();
    assert_eq!(read.len(), 2);
    let f = &read[0];
    assert_eq!((f.field_id(), f.num_docs(), f.dimension()), (5, 3, 3));
    assert_eq!((f.padded_dim(), f.packed_stride()), (4, 2));
    assert_eq!(f.options(), options);
    let enc = encode_flat(&arith, &wide, 3, 3, &fields[0].flat);
    assert_eq!(f.packed_codes(), enc.packed);
    assert_eq!(f.parse_renorm().unwrap(), enc.renorm);
    let t = f.parse_tqplus().unwrap();
    assert_eq!((t.shift, t.scale), (enc.tqplus.shift, enc.tqplus.scale));
    let g = f.parse_graph().unwrap();
    assert_eq!(g.serialize(), fields[0].graph.serialize());
    assert_eq!((read[1].field_id(), read[1].num_docs()), (8, 0));
    let rows = floats(&f.dequantize_flat(&arith, &f.codebook(&arith, &wide)).unwrap());
    for (i, x) in rows.iter().enumerate() {
        let exact = if i % 4 == 0 { 1.0 } else { 0.0 };
        assert!((x - exact).abs() < 0.35, "{i}: {x}");
    }
}

#[test]
fn files_start_with_their_magic() {
    let empty = write_vec_file(&arith, &wide, &Vec::new());
    assert_eq!(empty[..8], *b"TNVYVEC4");
    assert_eq!(empty[8..], [4, 0, 0, 0, 0, 0, 0, 0]);
    let read = |b: &[u8]| read_vec_file_lazy(OwnedBytes::new(b.to_vec()), &options_from).err();
    assert_eq!(read(&empty), None);
    assert_eq!(read(&empty[..7]), Some(VectorError::Truncated(Section::Magic)));
    assert_eq!(read(&empty[..10]), Some(VectorError::Truncated(Section::U32)));
    let mut other = empty.clone();
    other[0] ^= 1;
    assert_eq!(read(&other), Some(VectorError::UnsupportedFormat));
    assert_eq!(VERSION, 4);
}

#[test]
fn cut_files_are_refused_where_they_end() {
    let options = VectorOptions::new(3);
    let bytes = write_vec_file(&arith, &wide, &vec![bundle(0, options, &axes())]);
    let graph_len = bundle(0, options, &axes()).graph.serialize().len();
    let read = |n: usize| {
        read_vec_file_lazy(OwnedBytes::new(bytes[..n].to_vec()), &options_from).err()
    };
    let cut = |s: Section| Some(VectorError::Truncated(s));
    let options_at = 16 + 8;
    assert_eq!(read(options_at + 2), cut(Section::Options));
    let shift_at = options_at + 5 + 12;
    assert_eq!(read(shift_at + 3), cut(Section::TqplusShift));
    assert_eq!(read(shift_at + 17), cut(Section::TqplusScale));
    assert_eq!(read(shift_at + 33), cut(Section::PackedCodes));
    assert_eq!(read(shift_at + 32 + 6 + 1), cut(Section::Renorm));
    let graph_at = shift_at + 32 + 6 + 12;
    assert_eq!(read(graph_at + 2), cut(Section::U64));
    assert_eq!(read(graph_at + 8), cut(Section::Graph));
    assert_eq!(read(graph_at + 8 + graph_len), None);
    assert_eq!(bytes.len(), graph_at + 8 + graph_len);
    let mut bad = bytes.clone();
    bad[options_at + 1] = 77;
    let e = read_vec_file_lazy(OwnedBytes::new(bad), &options_from).err();
    assert_eq!(e, Some(VectorError::BadOptions));
}

#[test]
fn broken_graphs_keep_a_segment_closed() {
    let mut field = bundle(0, VectorOptions::new(3), &axes());
    field.graph = CompactHnswGraph::new(0, 0, 2, vec![vec![vec![1]], vec![vec![0]]]);
    let mut bytes = write_vec_file(&arith, &wide, &vec![field]);
    let graph_len = 9 + 3 + 8 + 16;
    let at = bytes.len() - graph_len;
    bytes[at + 5] = 200;
    let opened = VectorFieldReaders::open(&arith, &wide, OwnedBytes::new(bytes), &options_from);
    assert_eq!(opened.err(), Some(VectorError::Truncated(Section::LayerCounts)));
}

#[test]
fn runs_of_components_have_their_announced_length() {
    let bytes = [0u8, 0, 128, 63, 0, 0, 0, 64];
    let v = f32_slice_from_bytes(&bytes, 2).unwrap();
    assert_eq!(floats(&v), [1.0, 2.0]);
    let wrong = Err(VectorError::ComponentLengthMismatch);
    assert_eq!(f32_slice_from_bytes(&bytes, 3), wrong);
    assert_eq!(f32_slice_from_bytes(&bytes[..7], 2), wrong);
    assert_eq!(f32_slice_from_bytes(&[], 0), Ok(Vec::new()));
}

// ---------------------------------------------------------------------------
// Graphs from the outside
// ---------------------------------------------------------------------------

#[test]
fn built_graphs_can_be_searched() {
    let n = 60usize;
    let rows: Vec<Vec<f32>> = (0..n).map(|i| vec![i as f32, (i * i % 7) as f32]).collect();
    let mut hnsw = Hnsw::<f32, DistL2>::new(16, n, 16, 200, DistL2 {});
    for (i, row) in rows.iter().enumerate() {
        hnsw.insert((&row[..], i));
    }
    hnsw.set_searching_mode(true);
    let points: Vec<BuiltPoint> = hnsw
        .get_point_indexation()
        .into_iter()
        .map(|p| BuiltPoint {
            origin_id: p.get_origin_id(),
            layer: p.get_point_id().0,
            neighborhoods: p
                .get_neighborhood_id()
                .iter()
                .map(|l| l.iter().map(|nb| nb.d_id).collect())
                .collect(),
        })
        .collect();
    assert_eq!(points.len(), n);
    let g = graph_from_points(&points, n as u32);
    assert!(check_links(&g));
    let top = points.iter().map(|p| p.layer).max().unwrap();
    assert_eq!(g.entry_layer(), top);
    let row = |id: u32| {
        let d: f32 = rows[id as usize]
            .iter()
            .zip([20.0f32, 1.0].iter())
            .map(|(a, b)| (a - b) * (a - b))
            .sum();
        d.sqrt().to_bits()
    };
    let batch = |ids: &[u32]| ids.iter().map(|id| row(*id)).collect::<Vec<u32>>();
    let near = search(&g, VectorDistance::Euclidean, 3, 60, row, batch);
    let exact = exhaustive_search(&g, 3, row);
    assert_eq!(near.len(), 3);
    assert!(f32::from_bits(near[0].distance) >= f32::from_bits(exact[0].distance));
    let all = search(&g, VectorDistance::Euclidean, n, 1, row, batch);
    assert_eq!(all.len(), n);
    assert_eq!(all[0].doc_id, exact[0].doc_id);
}

#[test]
fn no_first_part_of_a_file_is_read() {
    let fields = vec![
        bundle(0, VectorOptions::new(3), &axes()),
        bundle(4, VectorOptions::new(3), &[]),
    ];
    let bytes = write_vec_file(&arith, &wide, &fields);
    for cut in 0..bytes.len() {
        let part = OwnedBytes::new(bytes[..cut].to_vec());
        let e = read_vec_file_lazy(part, &options_from).err();
        assert_eq!(e.map(|e| e.kind()), Some(ErrorKind::DataCorruption), "{cut}");
    }
    assert!(read_vec_file_lazy(OwnedBytes::new(bytes), &options_from).is_ok());
}

#[test]
fn gaps_come_before_rows_that_cannot_be_coded() {
    let schema = vec![Some(VectorOptions::new(9000)), Some(VectorOptions::new(2))];
    let mut w = VectorFieldsWriter::for_schema(&schema);
    let long = vec![0u32; 9000];
    assert_eq!(w.add_document(&vec![(0, Some(long))], 0), Ok(()));
    let gap = VectorError::MissingVector { doc: 0, field: 1 };
    assert_eq!(w.first_gap(1), Some(gap));
    assert_eq!(w.first_gap(0), None);
    let out = w.serialize(&arith, &wide, &options_bytes, &link_all, 1);
    assert_eq!(out, Err(gap));
    assert_eq!(w.add_document(&vec![(1, Some(bits(&[1.0, 2.0])))], 0), Ok(()));
    assert_eq!(w.first_gap(1), None);
    assert_eq!(w.first_gap(2), Some(VectorError::MissingVector { doc: 1, field: 0 }));
}
