//! Reading and searching the vector fields of a segment.

use std::collections::HashMap;
use std::sync::Arc;

use vstd::prelude::*;

use crate::arith;
use crate::arith::{Calc, Op};
use crate::bytes::OwnedBytes;
use crate::codebook;
use crate::error::VectorError;
use crate::file;
use crate::file::{read_vec_file_lazy, LazyVectorField, StoredField};
use crate::graph;
use crate::graph::CompactHnswGraph;
use crate::metric;
use crate::metric::{distance_to_score, l2_normalize};
use crate::options::{Metric, VectorDistance, VectorOptions};
use crate::rotation;
use crate::rotation::is_rotation_size;
use crate::scoring;
use crate::scoring::{
    dist_dot_packed, dist_dot_packed_batch, dist_l2_packed, prepare_query, reconstruct_flat,
    reconstruct_row, row_length, row_slice, PreparedQuery,
};
use crate::search;
use crate::search::{check_links, SearchResult};
use crate::turboquant;
use crate::turboquant::{
    padded_dim, Calibration, Codebook, Levels, TqPlus, FASTSCAN_N, N_LEVELS,
};
use crate::wide;
use crate::wide::WideOp;

verus! {

// ---------------------------------------------------------------------------
// Rows of a stored field
// ---------------------------------------------------------------------------

/// The shifts and scales of a stored field.
pub open spec fn calibration_of(f: StoredField) -> Calibration {
    Calibration { shift: file::words(f.shift), scale: file::words(f.scale) }
}

/// Whether the rows of a stored field can be reconstructed.
pub open spec fn reconstructible(f: StoredField, c: Levels) -> bool {
    &&& rotation::has_rotation(f.padded as int)
    &&& f.dimension <= f.padded
    &&& c.centroids.len() >= N_LEVELS
}

/// Row `doc` of a stored field.
pub open spec fn row_of(m: Calc, f: StoredField, c: Levels, doc: int) -> Seq<u32> {
    scoring::reconstructed(
        m,
        scoring::code_row(f.codes, (f.padded / 2) as nat, doc),
        f.dimension as nat,
        f.padded as nat,
        c,
        calibration_of(f),
        scoring::length_of(file::words(f.renorm), doc),
    )
}

/// All rows of a stored field, one behind the other.
pub open spec fn rows_of(m: Calc, f: StoredField, c: Levels) -> Seq<u32> {
    scoring::reconstructed_rows(
        m,
        f.codes,
        f.num_docs as nat,
        f.dimension as nat,
        f.padded as nat,
        c,
        calibration_of(f),
        file::words(f.renorm),
    )
}

impl LazyVectorField {
    /// All rows, row-major, reconstructed from their codes.
    pub fn dequantize_flat<A: Fn(Op, u32, u32) -> u32>(
        &self,
        arith: &A,
        codebook: &Codebook,
    ) -> (r: Result<Vec<u32>, VectorError>)
        requires
            arith::is_arithmetic(*arith),
            self@.num_docs > 0 ==> reconstructible(self@, codebook@),
        ensures
            r is Ok,
            r->Ok_0@ == rows_of(arith::calc(*arith), self@, codebook@),
    {
        let tqplus: TqPlus = match self.parse_tqplus() {
            Ok(t) => t,
            Err(e) => return Err(e),
        };
        let renorm: Vec<u32> = match self.parse_renorm() {
            Ok(v) => v,
            Err(e) => return Err(e),
        };
        Ok(
            reconstruct_flat(
                arith,
                self.packed_codes(),
                self.num_docs() as usize,
                self.dimension(),
                self.padded_dim(),
                codebook,
                &tqplus,
                renorm.as_slice(),
            ),
        )
    }

    /// The row of a document, reconstructed from its codes.
    pub fn reconstruct_doc<A: Fn(Op, u32, u32) -> u32>(
        &self,
        arith: &A,
        doc: u32,
        tqplus: &TqPlus,
        codebook: &Codebook,
        scale: u32,
    ) -> (r: Vec<u32>)
        requires
            arith::is_arithmetic(*arith),
            doc < self@.num_docs,
            reconstructible(self@, codebook@),
            scoring::calibrates(tqplus@, self@.padded as nat),
        ensures
            r@ == scoring::reconstructed(
                arith::calc(*arith),
                scoring::code_row(self@.codes, (self@.padded / 2) as nat, doc as int),
                self@.dimension as nat,
                self@.padded as nat,
                codebook@,
                tqplus@,
                scale,
            ),
    {
        let codes = self.packed_codes();
        let stride: usize = self.packed_stride();
        assert((doc + 1) * stride <= self@.num_docs * stride) by (nonlinear_arith)
            requires
                doc + 1 <= self@.num_docs,
                0 <= stride,
        ;
        reconstruct_row(
            arith,
            row_slice(codes, stride, doc as usize),
            self.dimension(),
            self.padded_dim(),
            codebook,
            tqplus,
            scale,
        )
    }
}

// ---------------------------------------------------------------------------
// One field
// ---------------------------------------------------------------------------

/// What a reader gives access to.
#[verifier::ext_equal]
pub struct FieldView {
    pub field: StoredField,
    pub levels: Levels,
}

/// One vector field of a segment, its codes and its graph left in the file's buffer.
pub struct VectorFieldReader {
    lazy: LazyVectorField,
    graph: CompactHnswGraph,
    tqplus: TqPlus,
    renorm: Vec<u32>,
    codebook: Codebook,
}

impl View for VectorFieldReader {
    type V = FieldView;

    closed spec fn view(&self) -> FieldView {
        FieldView { field: self.lazy@, levels: self.codebook@ }
    }
}

impl VectorFieldReader {
    #[verifier::type_invariant]
    spec fn consistent(&self) -> bool {
        &&& file::well_sized(self.lazy@)
        &&& self.graph@ == self.lazy@.graph
        &&& self.tqplus@ == calibration_of(self.lazy@)
        &&& self.renorm@ == file::words(self.lazy@.renorm)
    }

    /// Opens a field.
    pub fn new<A: Fn(Op, u32, u32) -> u32, W: Fn(WideOp, u64, u64) -> u64>(
        arith: &A,
        wide: &W,
        lazy: LazyVectorField,
    ) -> (r: Result<Self, VectorError>)
        requires
            arith::is_arithmetic(*arith),
            wide::is_arithmetic(*wide),
        ensures
            match r {
                Ok(reader) => graph::graph_error(lazy@.graph) is None && reader@ == (FieldView {
                    field: lazy@,
                    levels: codebook::codebook_of(
                        arith::calc(*arith),
                        wide::calc(*wide),
                        lazy@.padded as usize,
                    ),
                }),
                Err(e) => graph::graph_error(lazy@.graph) == Some(e),
            },
    {
        let graph: CompactHnswGraph = match lazy.parse_graph() {
            Ok(g) => g,
            Err(e) => return Err(e),
        };
        let tqplus: TqPlus = match lazy.parse_tqplus() {
            Ok(t) => t,
            Err(e) => return Err(e),
        };
        let renorm: Vec<u32> = match lazy.parse_renorm() {
            Ok(v) => v,
            Err(e) => return Err(e),
        };
        let codebook: Codebook = lazy.codebook(arith, wide);
        Ok(VectorFieldReader { lazy, graph, tqplus, renorm, codebook })
    }

    /// Schema field id.
    pub fn field_id(&self) -> (r: u32)
        ensures
            r == self@.field.field_id,
    {
        self.lazy.field_id()
    }

    /// Field options.
    pub fn options(&self) -> (r: VectorOptions)
        ensures
            r == self@.field.options,
    {
        self.lazy.options()
    }

    /// Number of documents.
    pub fn num_docs(&self) -> (r: u32)
        ensures
            r == self@.field.num_docs,
    {
        self.lazy.num_docs()
    }

    /// The packed codes of all rows.
    pub fn quantized_vectors(&self) -> (r: &[u8])
        ensures
            r@ == self@.field.codes,
            r@.len() == self@.field.num_docs * (self@.field.padded / 2),
    {
        self.lazy.packed_codes()
    }

    /// Whether rows can be reconstructed.
    pub fn can_reconstruct(&self) -> (r: bool)
        ensures
            r == reconstructible(self@.field, self@.levels),
    {
        let padded: usize = self.lazy.padded_dim();
        is_rotation_size(padded) && self.lazy.dimension() <= padded
            && self.codebook.centroids.len() >= N_LEVELS
    }

    /// All rows, row-major, reconstructed from their codes.
    pub fn flat_vectors<A: Fn(Op, u32, u32) -> u32>(&self, arith: &A) -> (r: Result<
        Vec<u32>,
        VectorError,
    >)
        requires
            arith::is_arithmetic(*arith),
            self@.field.num_docs > 0 ==> reconstructible(self@.field, self@.levels),
        ensures
            r is Ok,
            r->Ok_0@ == rows_of(arith::calc(*arith), self@.field, self@.levels),
    {
        self.lazy.dequantize_flat(arith, &self.codebook)
    }

    /// The row of a document, reconstructed from its codes, if there is such a
    /// document.
    pub fn vector<A: Fn(Op, u32, u32) -> u32>(&self, arith: &A, doc: u32) -> (r: Result<
        Option<Vec<u32>>,
        VectorError,
    >)
        requires
            arith::is_arithmetic(*arith),
            doc < self@.field.num_docs ==> reconstructible(self@.field, self@.levels),
        ensures
            r is Ok,
            doc >= self@.field.num_docs ==> r->Ok_0 is None,
            doc < self@.field.num_docs ==> r->Ok_0 is Some && r->Ok_0->0@ == row_of(
                arith::calc(*arith),
                self@.field,
                self@.levels,
                doc as int,
            ),
    {
        proof {
            use_type_invariant(self);
        }
        if doc >= self.num_docs() {
            return Ok(None);
        }
        let scale: u32 = row_length(self.renorm.as_slice(), doc as usize);
        Ok(Some(self.lazy.reconstruct_doc(arith, doc, &self.tqplus, &self.codebook, scale)))
    }
}

// ---------------------------------------------------------------------------
// Searching a field
// ---------------------------------------------------------------------------

/// The query that a field is searched with: of unit length in cosine fields, else as
/// it was given.
pub open spec fn effective_query(m: Calc, distance: VectorDistance, query: Seq<u32>) -> Seq<u32> {
    if distance == VectorDistance::Cosine {
        metric::unit_row(m, query)
    } else {
        query
    }
}

/// The distance of a document's row from a query of the field.
pub open spec fn row_distance(m: Calc, v: FieldView, query: Seq<u32>, id: int) -> u32 {
    let f = v.field;
    let t = calibration_of(f);
    let dim = f.options.dimension as nat;
    let row = scoring::code_row(f.codes, (f.padded / 2) as nat, id);
    let length = scoring::length_of(file::words(f.renorm), id);
    match f.options.distance.spec_metric() {
        Metric::L2 => metric::l2_distance(
            m,
            query.take(dim as int),
            scoring::reconstructed(m, row, dim, f.padded as nat, v.levels, t, length),
        ),
        Metric::Dot => scoring::dot_distance(
            m,
            scoring::prepared(m, query, dim, t, v.levels),
            row,
            length,
        ),
    }
}

/// The distances of documents' rows from a query of the field.
pub open spec fn row_distances(m: Calc, v: FieldView, query: Seq<u32>) -> spec_fn(u32) -> u32 {
    |id: u32| row_distance(m, v, query, id as int)
}

/// The distances of a batch of documents' rows from a query of the field.
pub open spec fn batch_distances(m: Calc, v: FieldView, query: Seq<u32>) -> spec_fn(
    Seq<u32>,
) -> Seq<u32> {
    |ids: Seq<u32>| ids.map_values(row_distances(m, v, query))
}

/// What a search of a field finds, each document with the score of its distance.
pub open spec fn field_hits(
    m: Calc,
    v: FieldView,
    query: Seq<u32>,
    k: nat,
    ef: nat,
) -> Seq<(u32, u32)> {
    let q = effective_query(m, v.field.options.distance, query);
    search::found(
        v.field.graph,
        v.field.options.distance.spec_metric(),
        row_distances(m, v, q),
        batch_distances(m, v, q),
        k,
        ef,
    ).map_values(|r: SearchResult| (r.doc_id, metric::score_of(m, r.distance)))
}

/// Whether queries of a length can be scored against the rows of a field, and every
/// point of the graph has a row.
pub open spec fn scorable(v: FieldView, query_len: nat) -> bool {
    let f = v.field;
    let dim = f.options.dimension as nat;
    let own = turboquant::padded_of(dim);
    &&& graph::num_points_of(f.graph) <= f.num_docs
    &&& dim <= query_len
    &&& own <= f.padded
    &&& rotation::has_rotation(own as int)
    &&& match f.options.distance.spec_metric() {
        Metric::L2 => rotation::has_rotation(f.padded as int) && v.levels.centroids.len()
            >= N_LEVELS,
        Metric::Dot => own == f.padded,
    }
}

/// Whether a field can be searched: nothing is looked at where nothing is asked for or
/// there are no points, and the links of the graph only where not every point is asked
/// for.
pub open spec fn searchable(v: FieldView, query_len: nat, k: nat) -> bool {
    let n = graph::num_points_of(v.field.graph);
    n > 0 && k > 0 ==> {
        &&& scorable(v, query_len)
        &&& n > k ==> search::links_in_range(v.field.graph)
    }
}

/// A field's rows, and a query made ready for scoring them.
struct RowScorer<'a> {
    reader: &'a VectorFieldReader,
    prepared: PreparedQuery,
    dim: usize,
    padded: usize,
    stride: usize,
    metric: Metric,
}

impl<'a> RowScorer<'a> {
    spec fn ready(&self, m: Calc) -> bool {
        let v = self.reader@;
        let query = self.prepared.q_orig@;
        &&& file::well_sized(v.field)
        &&& scorable(v, query.len())
        &&& self.dim == v.field.options.dimension
        &&& self.padded == v.field.padded
        &&& self.stride == v.field.padded / 2
        &&& self.metric == v.field.options.distance.spec_metric()
        &&& self.prepared@ == scoring::prepared(
            m,
            query,
            self.dim as nat,
            calibration_of(v.field),
            v.levels,
        )
        &&& self.prepared.q_lut@.len() == turboquant::padded_of(self.dim as nat)
    }

    /// The distance of a row.
    fn distance<A: Fn(Op, u32, u32) -> u32>(
        &self,
        arith: &A,
        id: u32,
    ) -> (r: u32)
        requires
            arith::is_arithmetic(*arith),
            self.ready(arith::calc(*arith)),
            id < self.reader@.field.num_docs,
        ensures
            r == row_distance(
                arith::calc(*arith),
                self.reader@,
                self.prepared.q_orig@,
                id as int,
            ),
    {
        proof {
            use_type_invariant(self.reader);
            turboquant::padded_is_least_power_of_two(self.dim as nat);
        }
        let codes = self.reader.lazy.packed_codes();
        assert((id + 1) * self.stride <= self.reader@.field.num_docs * self.stride)
            by (nonlinear_arith)
            requires
                id + 1 <= self.reader@.field.num_docs,
                0 <= self.stride,
        ;
        let row = row_slice(codes, self.stride, id as usize);
        let length: u32 = row_length(self.reader.renorm.as_slice(), id as usize);
        match self.metric {
            Metric::L2 => dist_l2_packed(
                arith,
                &self.prepared,
                row,
                self.dim,
                self.padded,
                &self.reader.codebook,
                &self.reader.tqplus,
                length,
            ),
            Metric::Dot => dist_dot_packed(arith, &self.prepared, row, length),
        }
    }

    /// The distances of a batch of rows.
    fn distances<A: Fn(Op, u32, u32) -> u32>(
        &self,
        arith: &A,
        ids: &[u32],
    ) -> (r: Vec<u32>)
        requires
            arith::is_arithmetic(*arith),
            self.ready(arith::calc(*arith)),
            ids@.len() <= FASTSCAN_N,
            search::all_below(ids@, self.reader@.field.num_docs),
        ensures
            r@ == batch_distances(
                arith::calc(*arith),
                self.reader@,
                self.prepared.q_orig@,
            )(ids@),
            r@.len() == ids@.len(),
    {
        proof {
            use_type_invariant(self.reader);
            turboquant::padded_is_least_power_of_two(self.dim as nat);
            let n = self.reader@.field.num_docs;
            assert forall|i: int| 0 <= i < ids@.len() implies (#[trigger] ids@[i])
                < self.reader.renorm@.len() && (ids@[i] + 1) * self.stride
                <= self.reader@.field.codes.len() by {
                assert((ids@[i] + 1) * self.stride <= n * self.stride) by (nonlinear_arith)
                    requires
                        ids@[i] + 1 <= n,
                        0 <= self.stride,
                ;
            }
        }
        let ghost query = self.prepared.q_orig@;
        let ghost goal = batch_distances(arith::calc(*arith), self.reader@, query)(ids@);
        match self.metric {
            Metric::Dot => {
                let r: Vec<u32> = dist_dot_packed_batch(
                    arith,
                    &self.prepared,
                    self.reader.lazy.packed_codes(),
                    self.stride,
                    ids,
                    self.reader.renorm.as_slice(),
                );
                assert(r@ =~= goal);
                r
            },
            Metric::L2 => {
                let mut r: Vec<u32> = Vec::new();
                for i in 0..ids.len()
                    invariant
                        arith::is_arithmetic(*arith),
                        self.ready(arith::calc(*arith)),
                        query == self.prepared.q_orig@,
                        search::all_below(ids@, self.reader@.field.num_docs),
                        goal == batch_distances(arith::calc(*arith), self.reader@, query)(ids@),
                        r@ == goal.take(i as int),
                {
                    r.push(self.distance(arith, ids[i]));
                    assert(r@ =~= goal.take(i + 1));
                }
                assert(r@ =~= goal);
                r
            },
        }
    }
}

impl VectorFieldReader {
    /// Whether the field can be searched for the `k` nearest documents with a query of
    /// the given length.
    pub fn is_searchable(&self, query_len: usize, k: usize) -> (r: bool)
        ensures
            r == searchable(self@, query_len as nat, k as nat),
    {
        proof {
            use_type_invariant(self);
        }
        let n: u32 = self.graph.num_points();
        if n == 0 || k == 0 {
            return true;
        }
        let options: VectorOptions = self.lazy.options();
        let dim: usize = options.dimension;
        let padded: usize = self.lazy.padded_dim();
        if n > self.lazy.num_docs() || dim > query_len || dim > 8192 {
            proof {
                if dim > 8192 {
                    turboquant::padded_is_least_power_of_two(dim as nat);
                }
            }
            return false;
        }
        proof {
            turboquant::padded_is_least_power_of_two(dim as nat);
        }
        let own: usize = padded_dim(dim);
        if own > padded || !is_rotation_size(own) {
            return false;
        }
        let fits: bool = match options.distance.metric() {
            Metric::L2 => is_rotation_size(padded) && self.codebook.centroids.len() >= N_LEVELS,
            Metric::Dot => own == padded,
        };
        fits && (n as usize <= k || check_links(&self.graph))
    }

    /// The `k` documents nearest to a query, with their scores.
    pub fn search<A: Fn(Op, u32, u32) -> u32>(
        &self,
        arith: &A,
        query: &[u32],
        k: usize,
        ef: usize,
    ) -> (r: Result<Vec<(u32, u32)>, VectorError>)
        requires
            arith::is_arithmetic(*arith),
            searchable(self@, query@.len(), k as nat),
        ensures
            r is Ok,
            r->Ok_0@ == field_hits(
                arith::calc(*arith),
                self@,
                query@,
                k as nat,
                ef as nat,
            ),
    {
        proof {
            use_type_invariant(self);
        }
        let ghost m = arith::calc(*arith);
        let n: u32 = self.graph.num_points();
        if n == 0 || k == 0 {
            let none: Vec<(u32, u32)> = Vec::new();
            assert(none@ =~= field_hits(m, self@, query@, k as nat, ef as nat));
            return Ok(none);
        }
        let options: VectorOptions = self.lazy.options();
        let mut q: Vec<u32> = Vec::new();
        q.extend_from_slice(query);
        assert(q@ =~= query@);
        if options.distance.normalizes() {
            l2_normalize(arith, &mut q);
        }
        let ghost eq = q@;
        let dim: usize = options.dimension;
        proof {
            turboquant::padded_is_least_power_of_two(dim as nat);
        }
        let prepared: PreparedQuery = prepare_query(
            arith,
            q.as_slice(),
            dim,
            &self.tqplus,
            &self.codebook,
        );
        let scorer = RowScorer {
            reader: self,
            prepared,
            dim,
            padded: self.lazy.padded_dim(),
            stride: self.lazy.packed_stride(),
            metric: options.distance.metric(),
        };
        assert(scorer.ready(m));
        let found: Vec<SearchResult> = search_rows(arith, &scorer, k, ef);
        let ghost all = found@;
        let mut out: Vec<(u32, u32)> = Vec::new();
        for i in 0..found.len()
            invariant
                arith::is_arithmetic(*arith),
                m == arith::calc(*arith),
                found@ == all,
                out@.len() == i,
                forall|j: int|
                    0 <= j < i ==> #[trigger] out@[j] == (
                        all[j].doc_id,
                        metric::score_of(m, all[j].distance),
                    ),
        {
            out.push((found[i].doc_id, distance_to_score(arith, found[i].distance)));
        }
        assert(out@ =~= field_hits(m, self@, query@, k as nat, ef as nat));
        Ok(out)
    }
}

/// Searches the graph of a field.
fn search_rows<A: Fn(Op, u32, u32) -> u32>(
    arith: &A,
    scorer: &RowScorer<'_>,
    k: usize,
    ef: usize,
) -> (r: Vec<SearchResult>)
    requires
        arith::is_arithmetic(*arith),
        scorer.ready(arith::calc(*arith)),
        k > 0,
        graph::num_points_of(scorer.reader@.field.graph) > k ==> search::links_in_range(
            scorer.reader@.field.graph,
        ),
    ensures
        r@ == search::found(
            scorer.reader@.field.graph,
            scorer.reader@.field.options.distance.spec_metric(),
            row_distances(arith::calc(*arith), scorer.reader@, scorer.prepared.q_orig@),
            batch_distances(arith::calc(*arith), scorer.reader@, scorer.prepared.q_orig@),
            k as nat,
            ef as nat,
        ),
{
    proof {
        use_type_invariant(scorer.reader);
    }
    let ghost m = arith::calc(*arith);
    let ghost v = scorer.reader@;
    let ghost query = scorer.prepared.q_orig@;
    let ghost n = graph::num_points_of(v.field.graph);
    let ghost dist = row_distances(m, v, query);
    let ghost score = batch_distances(m, v, query);
    let row = |id: u32| -> (d: u32)
        requires
            id < n,
        ensures
            d == dist(id),
        { scorer.distance(arith, id) };
    let distance: VectorDistance = scorer.reader.lazy.options().distance;
    let batch = |ids: &[u32]| -> (d: Vec<u32>)
        requires
            ids@.len() <= FASTSCAN_N,
            search::all_below(ids@, n),
        ensures
            d@ == score(ids@),
            d@.len() == ids@.len(),
        { scorer.distances(arith, ids) };
    assert(search::computes(row, dist));
    assert(search::computes_batches(batch, score));
    search::search(&scorer.reader.graph, distance, k, ef, row, batch)
}

// ---------------------------------------------------------------------------
// All fields
// ---------------------------------------------------------------------------

/// Readers for all vector fields of a segment.
#[derive(Clone)]
pub struct VectorFieldReaders {
    readers: HashMap<u32, Arc<VectorFieldReader>>,
}

impl View for VectorFieldReaders {
    type V = Map<u32, FieldView>;

    closed spec fn view(&self) -> Map<u32, FieldView> {
        self.readers@.map_values(|r: Arc<VectorFieldReader>| r@)
    }
}

/// Why the graph of one of the fields cannot be read, if there is such a field: the
/// first one's error.
pub open spec fn graphs_error(fields: Seq<StoredField>) -> Option<VectorError>
    decreases fields.len(),
{
    if fields.len() == 0 {
        None
    } else if graph::graph_error(fields[0].graph) is Some {
        graph::graph_error(fields[0].graph)
    } else {
        graphs_error(fields.drop_first())
    }
}

/// The fields by their ids; of several with the same id the last.
pub open spec fn by_id(
    fields: Seq<StoredField>,
    levels: spec_fn(usize) -> Levels,
) -> Map<u32, FieldView>
    decreases fields.len(),
{
    if fields.len() == 0 {
        Map::empty()
    } else {
        let f = fields.last();
        by_id(fields.drop_last(), levels).insert(
            f.field_id,
            FieldView { field: f, levels: levels(f.padded as usize) },
        )
    }
}

/// Why a file cannot be opened, if it cannot.
pub open spec fn open_error(
    b: Seq<u8>,
    parse: spec_fn(Seq<u8>) -> Option<VectorOptions>,
) -> Option<VectorError> {
    if file::file_error(b, parse) is Some {
        file::file_error(b, parse)
    } else {
        graphs_error(file::file_fields(b, parse))
    }
}

impl VectorFieldReaders {
    /// Opens the fields of a file.
    pub fn open<
        A: Fn(Op, u32, u32) -> u32,
        W: Fn(WideOp, u64, u64) -> u64,
        P: Fn(&[u8]) -> Option<VectorOptions>,
    >(arith: &A, wide: &W, data: OwnedBytes, parse: &P) -> (r: Result<Self, VectorError>)
        requires
            arith::is_arithmetic(*arith),
            wide::is_arithmetic(*wide),
            file::is_parser(*parse),
        ensures
            match r {
                Ok(readers) => open_error(data@, file::parsed(*parse)) is None && readers@
                    == by_id(
                    file::file_fields(data@, file::parsed(*parse)),
                    codebook::books(arith::calc(*arith), wide::calc(*wide)),
                ),
                Err(e) => open_error(data@, file::parsed(*parse)) == Some(e),
            },
    {
        broadcast use vstd::std_specs::hash::group_hash_axioms;

        let ghost p = file::parsed(*parse);
        let ghost levels = codebook::books(arith::calc(*arith), wide::calc(*wide));
        let ghost all = file::file_fields(data@, p);
        let mut fields: Vec<LazyVectorField> = match read_vec_file_lazy(data, parse) {
            Ok(v) => v,
            Err(e) => return Err(e),
        };
        let n: usize = fields.len();
        let mut map: HashMap<u32, Arc<VectorFieldReader>> = HashMap::new();
        let mut rest: Vec<LazyVectorField> = Vec::new();
        // Turned over, so that fields are taken off the end in their order.
        while fields.len() > 0
            invariant
                n == all.len(),
                fields@.len() + rest@.len() == n,
                forall|i: int| 0 <= i < fields@.len() ==> (#[trigger] fields@[i])@ == all[i],
                forall|i: int|
                    0 <= i < rest@.len() ==> (#[trigger] rest@[i])@ == all[n - 1 - i],
            decreases fields@.len(),
        {
            match fields.pop() {
                Some(f) => rest.push(f),
                None => {},
            }
        }
        let mut done: usize = 0;
        assert(all.skip(0) =~= all);
        assert(map@.map_values(|r: Arc<VectorFieldReader>| r@) =~= by_id(all.take(0), levels));
        while done < n
            invariant
                arith::is_arithmetic(*arith),
                wide::is_arithmetic(*wide),
                levels == codebook::books(arith::calc(*arith), wide::calc(*wide)),
                n == all.len(),
                done <= n,
                rest@.len() == n - done,
                forall|i: int|
                    0 <= i < rest@.len() ==> (#[trigger] rest@[i])@ == all[n - 1 - i],
                all == file::file_fields(data@, p),
                p == file::parsed(*parse),
                file::file_error(data@, p) is None,
                graphs_error(all) == graphs_error(all.skip(done as int)),
                map@.map_values(|r: Arc<VectorFieldReader>| r@) == by_id(
                    all.take(done as int),
                    levels,
                ),
            decreases n - done,
        {
            broadcast use vstd::std_specs::hash::group_hash_axioms;

            let lazy: LazyVectorField = match rest.pop() {
                Some(f) => f,
                None => vstd::pervasive::unreached(),
            };
            assert(lazy@ == all[done as int]);
            assert(all.skip(done as int)[0] == lazy@);
            assert(all.skip(done as int).drop_first() =~= all.skip(done + 1));
            let ghost view = FieldView { field: lazy@, levels: levels(lazy@.padded as usize) };
            let field_id: u32 = lazy.field_id();
            let reader: VectorFieldReader = match VectorFieldReader::new(arith, wide, lazy) {
                Ok(r) => r,
                Err(e) => return Err(e),
            };
            let ghost before = map@;
            map.insert(field_id, Arc::new(reader));
            assert(all.take(done + 1).drop_last() =~= all.take(done as int));
            assert(map@.map_values(|r: Arc<VectorFieldReader>| r@) =~= before.map_values(
                |r: Arc<VectorFieldReader>| r@,
            ).insert(field_id, view));
            done = done + 1;
        }
        assert(all.take(n as int) =~= all);
        Ok(VectorFieldReaders { readers: map })
    }

    /// No fields.
    pub fn empty() -> (r: Self)
        ensures
            r@ == Map::<u32, FieldView>::empty(),
    {
        broadcast use vstd::std_specs::hash::group_hash_axioms;

        let r = VectorFieldReaders { readers: HashMap::new() };
        assert(r@ =~= Map::<u32, FieldView>::empty());
        r
    }

    /// The reader for a field, if the segment has it.
    pub fn get(&self, field: u32) -> (r: Option<Arc<VectorFieldReader>>)
        ensures
            match r {
                Some(reader) => self@.dom().contains(field) && reader@ == self@[field],
                None => !self@.dom().contains(field),
            },
    {
        broadcast use vstd::std_specs::hash::group_hash_axioms;

        match self.readers.get(&field) {
            Some(reader) => Some(Arc::clone(reader)),
            None => None,
        }
    }
}

} // verus!
