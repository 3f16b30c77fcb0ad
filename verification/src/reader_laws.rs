//! What searching and reading a segment's fields keeps.

use vstd::prelude::*;

use crate::arith;
use crate::arith::{Calc, Op};
use crate::codebook;
use crate::codec_laws;
use crate::file;
use crate::file::{StoredField, VectorFieldBundle};
use crate::file_laws;
use crate::floatbits;
use crate::floatbits::ONE_BITS;
use crate::graph;
use crate::hits::DistId;
use crate::ieee;
use crate::metric;
use crate::options::{Metric, VectorDistance, VectorOptions};
use crate::reader;
use crate::reader::FieldView;
use crate::scoring;
use crate::scoring_laws;
use crate::search;
use crate::search::SearchResult;
use crate::search_laws;
use crate::turboquant;
use crate::turboquant::{Calibration, Levels, FASTSCAN_N};
use crate::wide::WideCalc;

verus! {

proof fn lemma_distances_agree(m: Calc, v: FieldView, query: Seq<u32>)
    ensures
        search_laws::agree(
            reader::batch_distances(m, v, query),
            reader::row_distances(m, v, query),
        ),
{
}

/// The score that a document gets for a query.
pub open spec fn score_for(m: Calc, v: FieldView, query: Seq<u32>, doc: u32) -> u32 {
    metric::score_of(
        m,
        reader::row_distance(
            m,
            v,
            reader::effective_query(m, v.field.options.distance, query),
            doc as int,
        ),
    )
}

/// A search for at least as many documents as the graph has points gives every one of
/// them, each with the score of its distance.
pub proof fn covering_search_gives_every_document(
    m: Calc,
    v: FieldView,
    query: Seq<u32>,
    k: nat,
    ef: nat,
)
    requires
        k > 0,
        graph::num_points_of(v.field.graph) <= k,
    ensures
        reader::field_hits(m, v, query, k, ef).len() == graph::num_points_of(v.field.graph),
        forall|doc: u32|
            doc < graph::num_points_of(v.field.graph) ==> #[trigger] reader::field_hits(
                m,
                v,
                query,
                k,
                ef,
            ).contains((doc, score_for(m, v, query, doc))),
{
    let q = reader::effective_query(m, v.field.options.distance, query);
    let dist = reader::row_distances(m, v, q);
    let batch = reader::batch_distances(m, v, q);
    let how = v.field.options.distance.spec_metric();
    let n = graph::num_points_of(v.field.graph);
    search_laws::covering_search_finds_every_point(v.field.graph, how, dist, batch, k, ef);
    let found = search::found(v.field.graph, how, dist, batch, k, ef);
    let hits = reader::field_hits(m, v, query, k, ef);
    assert forall|doc: u32| doc < n implies #[trigger] hits.contains(
        (doc, score_for(m, v, query, doc)),
    ) by {
        let r = SearchResult { doc_id: doc, distance: dist(doc) };
        assert(found.contains(r));
        let i = choose|i: int| 0 <= i < found.len() && found[i] == r;
        assert(hits[i] == (doc, score_for(m, v, query, doc)));
    }
}

/// A search gives at most `k` documents, all of them points of the graph, no document
/// twice, each with the score of its own distance, and at least one where there is one
/// and one is asked for.
pub proof fn hits_carry_their_scores(
    m: Calc,
    v: FieldView,
    query: Seq<u32>,
    k: nat,
    ef: nat,
)
    requires
        search::links_in_range(v.field.graph),
    ensures
        ({
            let hits = reader::field_hits(m, v, query, k, ef);
            let n = graph::num_points_of(v.field.graph);
            &&& hits.len() <= k
            &&& k > 0 && n > 0 ==> hits.len() > 0
            &&& forall|i: int|
                0 <= i < hits.len() ==> (#[trigger] hits[i]).0 < n && hits[i].1 == score_for(
                    m,
                    v,
                    query,
                    hits[i].0,
                )
            &&& forall|i: int, j: int|
                0 <= i < j < hits.len() ==> (#[trigger] hits[i]).0 != (#[trigger] hits[j]).0
        }),
{
    let q = reader::effective_query(m, v.field.options.distance, query);
    let dist = reader::row_distances(m, v, q);
    let batch = reader::batch_distances(m, v, q);
    let how = v.field.options.distance.spec_metric();
    lemma_distances_agree(m, v, q);
    search_laws::search_results_are_sound(v.field.graph, how, dist, batch, k, ef);
    let found = search::found(v.field.graph, how, dist, batch, k, ef);
    let hits = reader::field_hits(m, v, query, k, ef);
    assert forall|i: int, j: int| 0 <= i < j < hits.len() implies (#[trigger] hits[i]).0 != (
    #[trigger] hits[j]).0 by {
        assert(found[i].doc_id != found[j].doc_id);
    }
    assert forall|i: int| 0 <= i < hits.len() implies (#[trigger] hits[i]).0 < graph::num_points_of(
        v.field.graph,
    ) && hits[i].1 == score_for(m, v, query, hits[i].0) by {
        assert(found[i].distance == dist(found[i].doc_id));
    }
}

/// The hits of a search come best score first, as far as their distances are finite and not
/// negative. (This is for IEEE arithmetic.)
pub proof fn better_hits_come_first(
    m: Calc,
    v: FieldView,
    query: Seq<u32>,
    k: nat,
    ef: nat,
    i: int,
    j: int,
)
    requires
        ieee::is_ieee(m),
        search::links_in_range(v.field.graph),
        0 <= i <= j < reader::field_hits(m, v, query, k, ef).len(),
        ({
            let q = reader::effective_query(m, v.field.options.distance, query);
            let hits = reader::field_hits(m, v, query, k, ef);
            let near = reader::row_distance(m, v, q, hits[i].0 as int);
            let far = reader::row_distance(m, v, q, hits[j].0 as int);
            &&& floatbits::is_finite(near)
            &&& floatbits::is_finite(far)
            &&& floatbits::at_least(near, 0)
        }),
    ensures
        !floatbits::less(
            reader::field_hits(m, v, query, k, ef)[i].1,
            reader::field_hits(m, v, query, k, ef)[j].1,
        ),
{
    let q = reader::effective_query(m, v.field.options.distance, query);
    let dist = reader::row_distances(m, v, q);
    let batch = reader::batch_distances(m, v, q);
    let how = v.field.options.distance.spec_metric();
    lemma_distances_agree(m, v, q);
    search_laws::search_results_are_sound(v.field.graph, how, dist, batch, k, ef);
    let found = search::found(v.field.graph, how, dist, batch, k, ef);
    assert(found[i].distance == dist(found[i].doc_id));
    assert(found[j].distance == dist(found[j].doc_id));
    floatbits::later_is_not_less(found[j].distance, found[i].distance);
    metric::nearer_scores_no_lower(m, found[i].distance, found[j].distance);
}

proof fn lemma_graphs_error(fields: Seq<StoredField>)
    requires
        forall|i: int|
            0 <= i < fields.len() ==> graph::graph_error((#[trigger] fields[i]).graph) is None,
    ensures
        reader::graphs_error(fields) is None,
    decreases fields.len(),
{
    if fields.len() > 0 {
        let rest = fields.drop_first();
        assert forall|i: int| 0 <= i < rest.len() implies graph::graph_error(
            (#[trigger] rest[i]).graph,
        ) is None by {
            assert(rest[i] == fields[i + 1]);
        }
        lemma_graphs_error(rest);
    }
}

proof fn lemma_by_id(fields: Seq<StoredField>, levels: spec_fn(usize) -> Levels, i: int)
    requires
        0 <= i < fields.len(),
        forall|j: int|
            i < j < fields.len() ==> (#[trigger] fields[j]).field_id != fields[i].field_id,
    ensures
        reader::by_id(fields, levels).dom().contains(fields[i].field_id),
        reader::by_id(fields, levels)[fields[i].field_id] == (FieldView {
            field: fields[i],
            levels: levels(fields[i].padded as usize),
        }),
    decreases fields.len(),
{
    if i < fields.len() - 1 {
        let init = fields.drop_last();
        assert(init[i] == fields[i]);
        assert(fields[fields.len() - 1].field_id != fields[i].field_id);
        lemma_by_id(init, levels, i);
    }
}

/// A file that was written opens, and the reader of a field gives access to what was
/// written for it last.
pub proof fn written_file_opens(
    m: Calc,
    w: WideCalc,
    fields: Seq<VectorFieldBundle>,
    parse: spec_fn(Seq<u8>) -> Option<VectorOptions>,
    i: int,
)
    requires
        fields.len() <= u32::MAX,
        forall|k: int|
            0 <= k < fields.len() ==> file_laws::fits_file(#[trigger] fields[k]) && parse(
                fields[k].options_json@,
            ) == Some(fields[k].options) && graph::is_graph(fields[k].graph@),
        0 <= i < fields.len(),
        forall|j: int|
            i < j < fields.len() ==> (#[trigger] fields[j]).field_id != fields[i].field_id,
    ensures
        reader::open_error(file::vec_file(m, w, fields), parse) is None,
        ({
            let segment = reader::by_id(
                file::file_fields(file::vec_file(m, w, fields), parse),
                codebook::books(m, w),
            );
            let stored = file_laws::stored_bundle(m, w, fields[i]);
            &&& segment.dom().contains(fields[i].field_id)
            &&& segment[fields[i].field_id] == (FieldView {
                field: stored,
                levels: file::field_levels(m, w, fields[i].options),
            })
        }),
{
    reveal(file_laws::stored_bundle);
    file_laws::written_file_reads_back(m, w, fields, parse);
    let stored = fields.map_values(|f: VectorFieldBundle| file_laws::stored_bundle(m, w, f));
    assert forall|k: int| 0 <= k < stored.len() implies graph::graph_error(
        (#[trigger] stored[k]).graph,
    ) is None by {
        assert(graph::is_graph(fields[k].graph@));
    }
    lemma_graphs_error(stored);
    assert forall|j: int| i < j < stored.len() implies (#[trigger] stored[j]).field_id
        != stored[i].field_id by {
        assert(fields[j].field_id != fields[i].field_id);
    }
    lemma_by_id(stored, codebook::books(m, w), i);
}

/// The row that is read of a document is what the codes written for it stand for.
pub proof fn written_row_reads_back(
    m: Calc,
    w: WideCalc,
    f: VectorFieldBundle,
    doc: int,
)
    requires
        file_laws::fits_file(f),
        0 <= doc < f.num_docs,
    ensures
        ({
            let e = file::bundle_codes(m, w, f);
            let c = file::field_levels(m, w, f.options);
            reader::row_of(m, file_laws::stored_bundle(m, w, f), c, doc)
                == scoring::reconstructed(
                m,
                scoring::code_row(e.packed, e.padded / 2, doc),
                f.options.dimension as nat,
                e.padded,
                c,
                e.tqplus,
                e.renorm[doc],
            )
        }),
{
    reveal(file_laws::stored_bundle);
    let e = file::bundle_codes(m, w, f);
    file_laws::codes_have_their_sizes(
        m,
        w,
        f.num_docs as nat,
        f.options.dimension as nat,
        f.flat@,
        file::field_levels(m, w, f.options),
    );
    file_laws::stored_numbers_read_back(
        f.field_id,
        f.options,
        f.num_docs,
        f.options.dimension as u32,
        e,
        f.graph@,
    );
    assert(turboquant::padded_of(f.options.dimension as nat) == e.padded);
}

/// A field that can be searched for one document can be searched for any number of them,
/// with any query that is long enough.
pub proof fn searchable_once_is_searchable(v: FieldView, query_len: nat, k: nat)
    requires
        reader::searchable(v, v.field.options.dimension as nat, 1),
        v.field.options.dimension <= query_len,
    ensures
        reader::searchable(v, query_len, k),
{
}

// ---------------------------------------------------------------------------
// What searches of a field give
// ---------------------------------------------------------------------------

/// Root of the summed squared differences of two rows, component by component.
pub open spec fn euclidean(m: Calc, a: Seq<u32>, b: Seq<u32>) -> u32 {
    m(
        Op::Sqrt,
        arith::total(
            m,
            0,
            Seq::new(
                a.len(),
                |k: int| m(Op::Mul, m(Op::Sub, a[k], b[k]), m(Op::Sub, a[k], b[k])),
            ),
        ),
        0,
    )
}

/// The distance of a document from a query as a caller of the field's search gives it. In a
/// Euclidean field it is that of the query itself to the document's row; in the others
/// that of the query to the row's codes by dot product, where only a cosine field scales
/// the query to unit length first.
pub open spec fn distance_to(m: Calc, v: FieldView, query: Seq<u32>, doc: u32) -> u32 {
    let f = v.field;
    let (dim, padded) = (f.options.dimension as nat, f.padded as int);
    let t = Calibration { shift: file::words(f.shift), scale: file::words(f.scale) };
    let codes = f.codes.subrange(doc * (padded / 2), doc * (padded / 2) + padded / 2);
    let lengths = file::words(f.renorm);
    match f.options.distance {
        VectorDistance::Euclidean => euclidean(
            m,
            query,
            reader::row_of(m, f, v.levels, doc as int),
        ),
        VectorDistance::DotProduct => scoring::dot_distance(
            m,
            scoring::prepared(m, query, dim, t, v.levels),
            codes,
            lengths[doc as int],
        ),
        VectorDistance::Cosine => scoring::dot_distance(
            m,
            scoring::prepared(m, metric::unit_row(m, query), dim, t, v.levels),
            codes,
            lengths[doc as int],
        ),
    }
}

/// The distances of documents from a query.
pub open spec fn distances_to(m: Calc, v: FieldView, query: Seq<u32>) -> spec_fn(u32) -> u32 {
    |doc: u32| distance_to(m, v, query, doc)
}

/// Whether a field is one that was written: each document has a length, and there is one
/// dimension.
pub open spec fn as_written(v: FieldView) -> bool {
    &&& file::well_sized(v.field)
    &&& v.field.dimension == v.field.options.dimension
    &&& graph::num_points_of(v.field.graph) <= v.field.num_docs
}

proof fn lemma_distance_to(m: Calc, v: FieldView, query: Seq<u32>, doc: u32)
    requires
        as_written(v),
        query.len() == v.field.options.dimension,
        doc < v.field.num_docs,
    ensures
        reader::row_distance(
            m,
            v,
            reader::effective_query(m, v.field.options.distance, query),
            doc as int,
        ) == distance_to(m, v, query, doc),
{
    let f = v.field;
    let dim = f.options.dimension as nat;
    assert(query.take(dim as int) =~= query);
    let row = reader::row_of(m, f, v.levels, doc as int);
    assert(metric::squared_gaps(m, query, row) =~= Seq::new(
        query.len(),
        |k: int| m(Op::Mul, m(Op::Sub, query[k], row[k]), m(Op::Sub, query[k], row[k])),
    ));
    assert(file::words(f.renorm).len() == f.num_docs);
    assert((f.padded / 2) as int == f.padded as int / 2);
}

/// Each hit of a search carries the score of its document's distance from the query that was
/// asked: one divided by one more than the distance. In a Euclidean field that is the root
/// of the summed squared differences of the query, as it was given, and the row that is
/// read of the document.
pub proof fn hits_carry_the_distance_from_the_query(
    m: Calc,
    v: FieldView,
    query: Seq<u32>,
    k: nat,
    ef: nat,
    i: int,
)
    requires
        as_written(v),
        search::links_in_range(v.field.graph) || graph::num_points_of(v.field.graph) <= k,
        query.len() == v.field.options.dimension,
        0 <= i < reader::field_hits(m, v, query, k, ef).len(),
    ensures
        ({
            let (doc, score) = reader::field_hits(m, v, query, k, ef)[i];
            &&& doc < graph::num_points_of(v.field.graph)
            &&& score == m(Op::Div, ONE_BITS, m(Op::Add, ONE_BITS, distance_to(m, v, query, doc)))
            &&& v.field.options.distance == VectorDistance::Euclidean ==> score == m(
                Op::Div,
                ONE_BITS,
                m(
                    Op::Add,
                    ONE_BITS,
                    euclidean(m, query, reader::row_of(m, v.field, v.levels, doc as int)),
                ),
            )
        }),
{
    let q = reader::effective_query(m, v.field.options.distance, query);
    let dist = reader::row_distances(m, v, q);
    let batch = reader::batch_distances(m, v, q);
    let how = v.field.options.distance.spec_metric();
    let found = search::found(v.field.graph, how, dist, batch, k, ef);
    let (doc, score) = reader::field_hits(m, v, query, k, ef)[i];
    lemma_distances_agree(m, v, q);
    if search::links_in_range(v.field.graph) {
        search_laws::search_results_are_sound(v.field.graph, how, dist, batch, k, ef);
    } else {
        search_laws::covering_results_are_sound(v.field.graph, how, dist, batch, k, ef);
    }
    assert(found[i].doc_id == doc && found[i].distance == dist(doc));
    lemma_distance_to(m, v, query, doc);
}

/// Whether hits are those of the first `k` of some points, or of all where there are fewer,
/// each with the score of its distance.
pub open spec fn scored_first(
    m: Calc,
    hits: Seq<(u32, u32)>,
    found: Seq<DistId>,
    k: nat,
) -> bool {
    &&& hits.len() == if k < found.len() {
        k as int
    } else {
        found.len() as int
    }
    &&& forall|i: int|
        0 <= i < hits.len() ==> (#[trigger] hits[i]).0 == found[i].1 && hits[i].1 == m(
            Op::Div,
            ONE_BITS,
            m(Op::Add, ONE_BITS, found[i].0),
        )
}

/// A search of a field for fewer documents than its graph has points gives the nearest of the
/// hits of a best-first search of the graph whose width is `ef`, or `k` if that is more;
/// distances are those from the query that was asked. Only searches by dot product leave
/// fewer points than make up a batch without going on from them.
pub proof fn field_search_is_best_first(
    m: Calc,
    v: FieldView,
    query: Seq<u32>,
    k: nat,
    ef: nat,
    width: nat,
)
    requires
        as_written(v),
        search::links_in_range(v.field.graph),
        query.len() == v.field.options.dimension,
        0 < k < graph::num_points_of(v.field.graph),
        ef <= width,
        k <= width,
        width == ef || width == k,
    ensures
        exists|start: u32, found: Seq<DistId>, loose: Seq<u32>| #[trigger]
            search_laws::best_first(
                v.field.graph,
                distances_to(m, v, query),
                width,
                start,
                found,
                loose,
            ) && scored_first(m, reader::field_hits(m, v, query, k, ef), found, k) && loose.len()
                < FASTSCAN_N && (v.field.options.distance == VectorDistance::Euclidean
                ==> loose.len() == 0),
{
    let b = v.field.graph;
    let q = reader::effective_query(m, v.field.options.distance, query);
    let dist = reader::row_distances(m, v, q);
    let batch = reader::batch_distances(m, v, q);
    let how = v.field.options.distance.spec_metric();
    let asked = distances_to(m, v, query);
    lemma_distances_agree(m, v, q);
    search_laws::search_gives_the_first_hits(b, how, dist, batch, k, ef, width);
    let (start, found, loose) = choose|start: u32, found: Seq<DistId>, loose: Seq<u32>| #[trigger]
        search_laws::best_first(b, dist, width, start, found, loose) && search_laws::first_of(
            search::found(b, how, dist, batch, k, ef),
            found,
            k,
        ) && loose.len() < FASTSCAN_N && (how == Metric::L2 ==> loose.len() == 0);
    assert forall|doc: u32| doc < graph::num_points_of(b) implies #[trigger] dist(doc) == asked(
        doc,
    ) by {
        lemma_distance_to(m, v, query, doc);
    }
    search_laws::best_first_by_equal_distances(b, dist, asked, width, start, found, loose);
    let results = search::found(b, how, dist, batch, k, ef);
    let hits = reader::field_hits(m, v, query, k, ef);
    assert forall|i: int| 0 <= i < hits.len() implies (#[trigger] hits[i]).0 == found[i].1
        && hits[i].1 == m(Op::Div, ONE_BITS, m(Op::Add, ONE_BITS, found[i].0)) by {
        assert(results[i].doc_id == found[i].1 && results[i].distance == found[i].0);
    }
    assert(scored_first(m, hits, found, k));
}

/// A search for at least as many documents as the graph has points gives every one of them
/// once, nearest first, each with the score of its distance from the query.
pub proof fn covering_search_scores_every_document(
    m: Calc,
    v: FieldView,
    query: Seq<u32>,
    k: nat,
    ef: nat,
)
    requires
        as_written(v),
        query.len() == v.field.options.dimension,
        k > 0,
        graph::num_points_of(v.field.graph) <= k,
    ensures
        ({
            let hits = reader::field_hits(m, v, query, k, ef);
            let n = graph::num_points_of(v.field.graph);
            &&& hits.len() == n
            &&& forall|i: int, j: int|
                0 <= i < j < hits.len() ==> (#[trigger] hits[i]).0 != (#[trigger] hits[j]).0
                    && floatbits::total_rank(distance_to(m, v, query, hits[i].0))
                    <= floatbits::total_rank(distance_to(m, v, query, hits[j].0))
            &&& forall|doc: u32|
                doc < n ==> hits.contains(
                    (
                        doc,
                        m(
                            Op::Div,
                            ONE_BITS,
                            m(Op::Add, ONE_BITS, #[trigger] distance_to(m, v, query, doc)),
                        ),
                    ),
                )
        }),
{
    let q = reader::effective_query(m, v.field.options.distance, query);
    let dist = reader::row_distances(m, v, q);
    let batch = reader::batch_distances(m, v, q);
    let how = v.field.options.distance.spec_metric();
    let n = graph::num_points_of(v.field.graph);
    let found = search::found(v.field.graph, how, dist, batch, k, ef);
    let hits = reader::field_hits(m, v, query, k, ef);
    search_laws::covering_search_finds_every_point(v.field.graph, how, dist, batch, k, ef);
    search_laws::covering_results_are_sound(v.field.graph, how, dist, batch, k, ef);
    assert forall|i: int, j: int| 0 <= i < j < hits.len() implies (#[trigger] hits[i]).0 != (
    #[trigger] hits[j]).0 && floatbits::total_rank(distance_to(m, v, query, hits[i].0))
        <= floatbits::total_rank(distance_to(m, v, query, hits[j].0)) by {
        assert(found[i].doc_id != found[j].doc_id);
        lemma_distance_to(m, v, query, hits[i].0);
        lemma_distance_to(m, v, query, hits[j].0);
    }
    assert forall|doc: u32| doc < n implies hits.contains(
        (
            doc,
            m(
                Op::Div,
                ONE_BITS,
                m(Op::Add, ONE_BITS, #[trigger] distance_to(m, v, query, doc)),
            ),
        ),
    ) by {
        let r = SearchResult { doc_id: doc, distance: dist(doc) };
        assert(found.contains(r));
        let i = choose|i: int| 0 <= i < found.len() && found[i] == r;
        lemma_distance_to(m, v, query, doc);
        assert(hits[i].0 == doc);
    }
}

/// A field that can be searched gives no document twice.
pub proof fn hits_are_of_different_documents(
    m: Calc,
    v: FieldView,
    query: Seq<u32>,
    k: nat,
    ef: nat,
)
    requires
        reader::searchable(v, query.len(), k),
    ensures
        forall|i: int, j: int|
            0 <= i < j < reader::field_hits(m, v, query, k, ef).len() ==> (
            #[trigger] reader::field_hits(m, v, query, k, ef)[i]).0 != (
            #[trigger] reader::field_hits(m, v, query, k, ef)[j]).0,
{
    let q = reader::effective_query(m, v.field.options.distance, query);
    let dist = reader::row_distances(m, v, q);
    let batch = reader::batch_distances(m, v, q);
    let how = v.field.options.distance.spec_metric();
    let n = graph::num_points_of(v.field.graph);
    let hits = reader::field_hits(m, v, query, k, ef);
    let found = search::found(v.field.graph, how, dist, batch, k, ef);
    if n > k && k > 0 {
        search_laws::search_results_are_sound(v.field.graph, how, dist, batch, k, ef);
    } else if k > 0 {
        search_laws::covering_results_are_sound(v.field.graph, how, dist, batch, k, ef);
    }
    assert forall|i: int, j: int| 0 <= i < j < hits.len() implies (#[trigger] hits[i]).0 != (
    #[trigger] hits[j]).0 by {
        assert(found[i].doc_id != found[j].doc_id);
    }
}

// ---------------------------------------------------------------------------
// The fields of a segment
// ---------------------------------------------------------------------------

/// The row of a document is the one that its own bytes stand for, with its own stored
/// length; and all rows together are the rows of the documents in their order.
pub proof fn documents_have_their_own_rows(m: Calc, f: StoredField, c: Levels, doc: int)
    requires
        file::well_sized(f),
        f.dimension <= f.padded,
        0 <= doc < f.num_docs,
    ensures
        ({
            let (dim, half) = (f.dimension as int, f.padded as int / 2);
            let row = reader::row_of(m, f, c, doc);
            &&& row == scoring::reconstructed(
                m,
                f.codes.subrange(doc * half, doc * half + half),
                f.dimension as nat,
                f.padded as nat,
                c,
                (Calibration { shift: file::words(f.shift), scale: file::words(f.scale) }),
                file::words(f.renorm)[doc],
            )
            &&& reader::rows_of(m, f, c).len() == f.num_docs * f.dimension
            &&& reader::rows_of(m, f, c).subrange(doc * dim, doc * dim + dim) == row
        }),
{
    let t = reader::calibration_of(f);
    assert(file::words(f.renorm).len() == f.num_docs);
    assert((f.padded / 2) as int == f.padded as int / 2);
    scoring_laws::each_row_is_reconstructed_by_itself(
        m,
        f.codes,
        f.num_docs as nat,
        f.dimension as nat,
        f.padded as nat,
        c,
        t,
        file::words(f.renorm),
        doc,
    );
}

/// A segment has a field under its id with the levels for its row length; of several fields
/// with one id the last one counts.
pub proof fn the_last_field_of_an_id_counts(
    fields: Seq<StoredField>,
    levels: spec_fn(usize) -> Levels,
    i: int,
)
    requires
        0 <= i < fields.len(),
        forall|j: int|
            i < j < fields.len() ==> (#[trigger] fields[j]).field_id != fields[i].field_id,
    ensures
        reader::by_id(fields, levels).dom().contains(fields[i].field_id),
        reader::by_id(fields, levels)[fields[i].field_id].field == fields[i],
        reader::by_id(fields, levels)[fields[i].field_id].levels == levels(
            fields[i].padded as usize,
        ),
    decreases fields.len(),
{
    if i < fields.len() - 1 {
        let init = fields.drop_last();
        assert forall|j: int| i < j < init.len() implies (#[trigger] init[j]).field_id
            != init[i].field_id by {
            assert(init[j] == fields[j]);
        }
        the_last_field_of_an_id_counts(init, levels, i);
        assert(fields[fields.len() - 1].field_id != fields[i].field_id);
    }
}

/// A segment has no field under an id that none of its fields has.
pub proof fn other_ids_have_no_field(
    fields: Seq<StoredField>,
    levels: spec_fn(usize) -> Levels,
    id: u32,
)
    requires
        forall|j: int| 0 <= j < fields.len() ==> (#[trigger] fields[j]).field_id != id,
    ensures
        !reader::by_id(fields, levels).dom().contains(id),
    decreases fields.len(),
{
    if fields.len() > 0 {
        let init = fields.drop_last();
        assert forall|j: int| 0 <= j < init.len() implies (#[trigger] init[j]).field_id != id by {
            assert(init[j] == fields[j]);
        }
        other_ids_have_no_field(init, levels, id);
        assert(fields[fields.len() - 1].field_id != id);
    }
}

/// A segment is refused for the first of its fields whose graph cannot be read, with that
/// graph's error.
pub proof fn the_first_unreadable_graph_is_reported(fields: Seq<StoredField>, i: int)
    requires
        0 <= i <= fields.len(),
        forall|j: int|
            0 <= j < i ==> graph::graph_error((#[trigger] fields[j]).graph) is None,
    ensures
        i == fields.len() ==> reader::graphs_error(fields) is None,
        i < fields.len() && graph::graph_error(fields[i].graph) is Some
            ==> reader::graphs_error(fields) == graph::graph_error(fields[i].graph),
    decreases fields.len(),
{
    if i > 0 {
        let rest = fields.drop_first();
        assert(graph::graph_error(fields[0].graph) is None);
        assert forall|j: int| 0 <= j < i - 1 implies graph::graph_error(
            (#[trigger] rest[j]).graph,
        ) is None by {
            assert(rest[j] == fields[j + 1]);
        }
        the_first_unreadable_graph_is_reported(rest, i - 1);
        if i < fields.len() {
            assert(rest[i - 1] == fields[i]);
        }
    }
}

/// A file opens if it can be read and the graphs of all its fields can; else it is refused
/// for the file's own error first.
pub proof fn files_open_when_all_their_parts_can_be_read(
    b: Seq<u8>,
    parse: spec_fn(Seq<u8>) -> Option<VectorOptions>,
)
    ensures
        ({
            let fields = file::file_fields(b, parse);
            let broken = file::file_error(b, parse);
            &&& broken is Some ==> reader::open_error(b, parse) == broken
            &&& broken is None ==> (reader::open_error(b, parse) is None <==> forall|j: int|
                0 <= j < fields.len() ==> graph::graph_error((#[trigger] fields[j]).graph)
                    is None)
        }),
{
    let fields = file::file_fields(b, parse);
    lemma_graphs_readable(fields);
}

proof fn lemma_graphs_readable(fields: Seq<StoredField>)
    ensures
        reader::graphs_error(fields) is None <==> forall|j: int|
            0 <= j < fields.len() ==> graph::graph_error((#[trigger] fields[j]).graph) is None,
    decreases fields.len(),
{
    if fields.len() > 0 {
        let rest = fields.drop_first();
        lemma_graphs_readable(rest);
        if reader::graphs_error(fields) is None {
            assert forall|j: int| 0 <= j < fields.len() implies graph::graph_error(
                (#[trigger] fields[j]).graph,
            ) is None by {
                if j > 0 {
                    assert(rest[j - 1] == fields[j]);
                }
            }
        } else if forall|j: int|
            0 <= j < fields.len() ==> graph::graph_error((#[trigger] fields[j]).graph) is None {
            assert forall|j: int| 0 <= j < rest.len() implies graph::graph_error(
                (#[trigger] rest[j]).graph,
            ) is None by {
                assert(rest[j] == fields[j + 1]);
            }
            assert(graph::graph_error(fields[0].graph) is None);
        }
    }
}

/// Every field of up to 8192 dimensions that was written with its links in range can be
/// searched, for any number of documents, and its rows can be read back.
pub proof fn written_fields_can_be_searched(v: FieldView, query_len: nat, k: nat)
    requires
        as_written(v),
        v.field.options.dimension <= 8192,
        v.field.padded == turboquant::padded_of(v.field.options.dimension as nat),
        v.levels.centroids.len() == 16,
        search::links_in_range(v.field.graph),
        query_len >= v.field.options.dimension,
    ensures
        reader::searchable(v, query_len, k),
        reader::reconstructible(v.field, v.levels),
{
    codec_laws::dimensions_up_to_8192_can_be_coded(v.field.options.dimension as nat);
}

} // verus!
