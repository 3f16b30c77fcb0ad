//! From collecting vectors to reading them back: what a segment that was written and
//! opened gives access to.

use vstd::prelude::*;

use crate::arith::Calc;
use crate::codebook;
use crate::error::VectorError;
use crate::file;
use crate::file::VectorFieldBundle;
use crate::file_laws;
use crate::graph;
use crate::hnsw;
use crate::hnsw::{BuildPlan, BuiltPoint};
use crate::metric;
use crate::options::{VectorDistance, VectorOptions};
use crate::reader;
use crate::reader_laws;
use crate::scoring;
use crate::turboquant;
use crate::wide::WideCalc;
use crate::writer;
use crate::writer::{FieldDraft, FieldValue};

verus! {

/// Whether the collected fields stand at their ids.
pub open spec fn in_place(w: Seq<Option<FieldDraft>>) -> bool {
    forall|i: int| 0 <= i < w.len() && (#[trigger] w[i]) is Some ==> w[i]->0.field == i
}

/// Whatever values a document has, and whether or not they can all be added, the fields
/// stay at their ids with their options, and all vectors have their field's dimension.
pub proof fn adding_keeps_the_fields(
    w: Seq<Option<FieldDraft>>,
    values: Seq<FieldValue>,
    doc: int,
    field: int,
)
    requires
        in_place(w),
        writer::all_uniform(w),
        0 <= doc,
        0 <= field < w.len(),
    ensures
        ({
            let after = writer::with_values(w, values, doc).0;
            &&& in_place(after)
            &&& writer::all_uniform(after)
            &&& after.len() == w.len()
            &&& after[field] is Some <==> w[field] is Some
            &&& w[field] is Some ==> after[field]->0.options == w[field]->0.options
        }),
    decreases values.len(),
{
    if values.len() > 0 && writer::value_error(w, values[0]) is None {
        let next = writer::with_value(w, values[0], doc);
        assert forall|i: int| 0 <= i < next.len() && (#[trigger] next[i]) is Some implies
            next[i]->0.field == i && writer::uniform(next[i]->0) by {
            assert(writer::uniform(w[i]->0));
            if i == values[0].0 {
                let (d, e) = (w[i]->0, next[i]->0);
                assert forall|x: int|
                    0 <= x < e.vectors.len() && (#[trigger] e.vectors[x]) is Some implies
                    e.vectors[x]->0.len() == e.options.dimension by {
                    if x != doc {
                        assert(d.vectors[x] is Some);
                    }
                }
            }
        }
        adding_keeps_the_fields(next, values.drop_first(), doc, field);
    }
}

/// The collected fields come in the order of their ids.
proof fn lemma_drafts_in_order(w: Seq<Option<FieldDraft>>, n: nat)
    requires
        in_place(w),
        n <= w.len(),
    ensures
        writer::drafts(w, n).len() <= n,
        forall|j: int|
            0 <= j < writer::drafts(w, n).len() ==> (#[trigger] writer::drafts(w, n)[j]).field < n,
        forall|j: int, k: int|
            0 <= j < k < writer::drafts(w, n).len() ==> (#[trigger] writer::drafts(w, n)[j]).field
                < (#[trigger] writer::drafts(w, n)[k]).field,
    decreases n,
{
    if n > 0 {
        lemma_drafts_in_order(w, (n - 1) as nat);
    }
}

/// Every collected field is among those that are written.
proof fn lemma_draft_found(w: Seq<Option<FieldDraft>>, n: nat, i: int) -> (j: int)
    requires
        n <= w.len(),
        0 <= i < n,
        w[i] is Some,
    ensures
        0 <= j < writer::drafts(w, n).len(),
        writer::drafts(w, n)[j] == w[i]->0,
    decreases n,
{
    let before = writer::drafts(w, (n - 1) as nat);
    if i == n - 1 {
        before.len() as int
    } else {
        let j = lemma_draft_found(w, (n - 1) as nat, i);
        assert(before[j] == w[i]->0);
        j
    }
}

/// A graph that was built is one, with a point for each document.
proof fn lemma_built_graph<B: Fn(&BuildPlan, &[u32]) -> Vec<BuiltPoint>>(
    build: B,
    options: VectorOptions,
    max_doc: u32,
    flat: Seq<u32>,
    b: Seq<u8>,
)
    requires
        hnsw::built_by(build, options, max_doc, flat, b),
    ensures
        graph::is_graph(b),
        graph::num_points_of(b) == max_doc,
{
    if max_doc == 0 {
        graph::header_of_packed_graph(0, 0, 0, Seq::empty());
    } else {
        let (plan, rows, points) = choose|
            plan: &BuildPlan,
            rows: &[u32],
            points: Vec<BuiltPoint>,
        | #[trigger]
            build.ensures((plan, rows), points) && rows@ == flat && b == hnsw::graph_of(
                points@,
                max_doc,
            );
        let entry = hnsw::entry_after(points@, max_doc as nat, points@.len());
        graph::header_of_packed_graph(
            entry.0,
            entry.1,
            max_doc,
            hnsw::filled(hnsw::lists_after(points@, max_doc as nat, points@.len())),
        );
    }
}

/// The codes of the rows that are written of a field.
pub open spec fn written_codes(
    m: Calc,
    w: WideCalc,
    d: FieldDraft,
    max_doc: u32,
) -> turboquant::Codes {
    turboquant::encoded(
        m,
        w,
        max_doc as nat,
        d.options.dimension as nat,
        writer::rows_to_write(m, d, max_doc as nat),
        file::field_levels(m, w, d.options),
    )
}

/// A segment that was written opens, provided that options are read as they were stored
/// and that all sizes fit in the file. Each field is there, with its options, its
/// documents and the graph that was built of its rows; and the row that is read of a
/// document is what the codes of the document's vector stand for.
pub proof fn written_segment_reads_back<B: Fn(&BuildPlan, &[u32]) -> Vec<BuiltPoint>>(
    m: Calc,
    w: WideCalc,
    fields: Seq<Option<FieldDraft>>,
    bundles: Seq<VectorFieldBundle>,
    max_doc: u32,
    json: spec_fn(VectorOptions) -> Option<Seq<u8>>,
    parse: spec_fn(Seq<u8>) -> Option<VectorOptions>,
    build: B,
    field: u32,
)
    requires
        in_place(fields),
        fields.len() <= u32::MAX,
        writer::all_handed_over(
            bundles,
            writer::drafts(fields, fields.len()),
            max_doc,
            m,
            json,
            build,
        ),
        forall|o: VectorOptions|
            (#[trigger] json(o)) is Some ==> parse(json(o)->0) == Some(o),
        forall|k: int| 0 <= k < bundles.len() ==> file_laws::fits_file(#[trigger] bundles[k]),
        field < fields.len(),
        fields[field as int] is Some,
    ensures
        reader::open_error(file::vec_file(m, w, bundles), parse) is None,
        ({
            let segment = reader::by_id(
                file::file_fields(file::vec_file(m, w, bundles), parse),
                codebook::books(m, w),
            );
            let d = fields[field as int]->0;
            let v = segment[field];
            let e = written_codes(m, w, d, max_doc);
            &&& segment.dom().contains(field)
            &&& v.field.field_id == field
            &&& v.field.options == d.options
            &&& v.field.num_docs == max_doc
            &&& v.field.codes == e.packed
            &&& v.levels == file::field_levels(m, w, d.options)
            &&& graph::num_points_of(v.field.graph) == max_doc
            &&& hnsw::built_by(
                build,
                d.options,
                max_doc,
                writer::rows_to_write(m, d, max_doc as nat),
                v.field.graph,
            )
            &&& forall|doc: int|
                0 <= doc < max_doc ==> #[trigger] reader::row_of(m, v.field, v.levels, doc)
                    == scoring::reconstructed(
                    m,
                    scoring::code_row(e.packed, e.padded / 2, doc),
                    d.options.dimension as nat,
                    e.padded,
                    v.levels,
                    e.tqplus,
                    e.renorm[doc],
                )
        }),
{
    let n = fields.len();
    let drafts = writer::drafts(fields, n);
    let d = fields[field as int]->0;
    let i = lemma_draft_found(fields, n, field as int);
    lemma_drafts_in_order(fields, n);
    assert forall|k: int| 0 <= k < bundles.len() implies file_laws::fits_file(
        #[trigger] bundles[k],
    ) && parse(bundles[k].options_json@) == Some(bundles[k].options) && graph::is_graph(
        bundles[k].graph@,
    ) by {
        assert(writer::hands_over(bundles[k], drafts[k], max_doc, m, json, build));
        lemma_built_graph(
            build,
            drafts[k].options,
            max_doc,
            bundles[k].flat@,
            bundles[k].graph@,
        );
    }
    assert forall|j: int| i < j < bundles.len() implies (#[trigger] bundles[j]).field_id
        != bundles[i].field_id by {
        assert(writer::hands_over(bundles[j], drafts[j], max_doc, m, json, build));
        assert(writer::hands_over(bundles[i], drafts[i], max_doc, m, json, build));
        assert(drafts[i].field < drafts[j].field);
    }
    reader_laws::written_file_opens(m, w, bundles, parse, i);
    let f = bundles[i];
    assert(writer::hands_over(f, drafts[i], max_doc, m, json, build));
    lemma_built_graph(build, d.options, max_doc, f.flat@, f.graph@);
    let stored = file_laws::stored_bundle(m, w, f);
    assert(stored.field_id == field && stored.options == d.options && stored.num_docs == max_doc
        && stored.graph == f.graph@ && stored.codes == file::bundle_codes(m, w, f).packed) by {
        reveal(file_laws::stored_bundle);
    }
    assert forall|doc: int| 0 <= doc < max_doc implies #[trigger] reader::row_of(
        m,
        stored,
        file::field_levels(m, w, d.options),
        doc,
    ) == ({
        let e = written_codes(m, w, d, max_doc);
        scoring::reconstructed(
            m,
            scoring::code_row(e.packed, e.padded / 2, doc),
            d.options.dimension as nat,
            e.padded,
            file::field_levels(m, w, d.options),
            e.tqplus,
            e.renorm[doc],
        )
    }) by {
        reader_laws::written_row_reads_back(m, w, f, doc);
    }
}

// ---------------------------------------------------------------------------
// From documents to rows
// ---------------------------------------------------------------------------

/// Whether a value can be added: it is none of a vector field, or a vector of the field's
/// dimension.
pub open spec fn acceptable(w: Seq<Option<FieldDraft>>, value: FieldValue) -> bool {
    value.0 < w.len() && w[value.0 as int] is Some ==> value.1 is Some && value.1->0@.len()
        == w[value.0 as int]->0.options.dimension
}

/// Whether a value is the last of its field among the first `n` of a document.
pub open spec fn last_of_field(values: Seq<FieldValue>, n: int, j: int) -> bool {
    &&& 0 <= j < n
    &&& forall|i: int| j < i < n ==> (#[trigger] values[i]).0 != values[j].0
}

/// What stays of a field when a document is added, but for the document's own vector.
pub open spec fn others_stay(before: FieldDraft, after: FieldDraft, doc: int) -> bool {
    &&& after.field == before.field
    &&& after.options == before.options
    &&& before.vectors.len() <= after.vectors.len()
    &&& after.vectors.len() <= before.vectors.len() || after.vectors.len() == doc + 1
    &&& forall|x: int|
        0 <= x < after.vectors.len() && x != doc ==> #[trigger] after.vectors[x] == if x
            < before.vectors.len() {
            before.vectors[x]
        } else {
            None
        }
}

/// Whether the first `n` values of a document were stored, and the next one, if there is one,
/// was refused: because it is no vector, or one of another dimension.
pub open spec fn stored_up_to(
    w: Seq<Option<FieldDraft>>,
    values: Seq<FieldValue>,
    doc: int,
    after: Seq<Option<FieldDraft>>,
    error: Option<VectorError>,
    n: int,
) -> bool {
    &&& 0 <= n <= values.len()
    &&& forall|i: int| 0 <= i < n ==> acceptable(w, #[trigger] values[i])
    &&& error is None <==> n == values.len()
    &&& n < values.len() ==> !acceptable(w, values[n]) && error == Some(
        if values[n].1 is None {
            VectorError::ExpectedVector { field: values[n].0 }
        } else {
            VectorError::DimensionMismatch {
                expected: w[values[n].0 as int]->0.options.dimension,
                got: values[n].1->0@.len() as usize,
            }
        },
    )
    &&& after.len() == w.len()
    &&& forall|f: int| 0 <= f < w.len() ==> ((#[trigger] after[f]) is Some <==> w[f] is Some)
    &&& forall|f: int|
        0 <= f < w.len() && w[f] is Some ==> others_stay(w[f]->0, (#[trigger] after[f])->0, doc)
    &&& forall|f: int|
        0 <= f < w.len() && (forall|i: int| 0 <= i < n ==> (#[trigger] values[i]).0 != f)
            ==> #[trigger] after[f] == w[f]
    &&& forall|j: int|
        last_of_field(values, n, j) && (#[trigger] values[j]).0 < w.len()
            && w[values[j].0 as int] is Some ==> doc < after[values[j].0 as int]->0.vectors.len()
            && after[values[j].0 as int]->0.vectors[doc] == Some(values[j].1->0@)
}

/// Adding a document stores its values up to the first that cannot be added. Of each vector
/// field the last of these values is the document's vector, component for component; the
/// vectors of other documents, and fields without a value, stay as they were.
pub proof fn adding_stores_the_vectors(
    w: Seq<Option<FieldDraft>>,
    values: Seq<FieldValue>,
    doc: int,
) -> (n: int)
    requires
        0 <= doc,
    ensures
        stored_up_to(
            w,
            values,
            doc,
            writer::with_values(w, values, doc).0,
            writer::with_values(w, values, doc).1,
            n,
        ),
    decreases values.len(),
{
    let (after, error) = writer::with_values(w, values, doc);
    if values.len() == 0 || writer::value_error(w, values[0]) is Some {
        0
    } else {
        let next = writer::with_value(w, values[0], doc);
        let rest = values.drop_first();
        let k = adding_stores_the_vectors(next, rest, doc);
        let n = k + 1;
        assert forall|i: int| 0 <= i < n implies acceptable(w, #[trigger] values[i]) by {
            if i > 0 {
                assert(rest[i - 1] == values[i]);
                assert(acceptable(next, rest[i - 1]));
            }
        }
        if n < values.len() {
            assert(rest[k] == values[n]);
        }
        assert forall|f: int|
            0 <= f < w.len() && (forall|i: int| 0 <= i < n ==> (#[trigger] values[i]).0
                != f) implies #[trigger] after[f] == w[f] by {
            assert(values[0].0 != f);
            assert forall|i: int| 0 <= i < k implies (#[trigger] rest[i]).0 != f by {
                assert(rest[i] == values[i + 1]);
            }
        }
        assert forall|f: int| 0 <= f < w.len() && w[f] is Some implies others_stay(
            w[f]->0,
            (#[trigger] after[f])->0,
            doc,
        ) by {
            assert(others_stay(next[f]->0, after[f]->0, doc));
        }
        assert forall|j: int|
            last_of_field(values, n, j) && (#[trigger] values[j]).0 < w.len()
                && w[values[j].0 as int] is Some implies doc
            < after[values[j].0 as int]->0.vectors.len()
            && after[values[j].0 as int]->0.vectors[doc] == Some(values[j].1->0@) by {
            let f = values[j].0 as int;
            if j > 0 {
                assert(rest[j - 1] == values[j]);
                assert(last_of_field(rest, k, j - 1)) by {
                    assert forall|i: int| j - 1 < i < k implies (#[trigger] rest[i]).0
                        != rest[j - 1].0 by {
                        assert(rest[i] == values[i + 1]);
                    }
                }
            } else {
                assert forall|i: int| 0 <= i < k implies (#[trigger] rest[i]).0 != f by {
                    assert(rest[i] == values[i + 1]);
                }
                assert(after[f] == next[f]);
            }
        }
        n
    }
}

pub(crate) proof fn lemma_unit_rows(m: Calc, flat: Seq<u32>, dim: nat, n: nat, doc: int)
    requires
        n * dim <= flat.len(),
        0 <= doc < n,
    ensures
        metric::unit_rows(m, flat, dim, n).len() == n * dim,
        turboquant::row_at(metric::unit_rows(m, flat, dim, n), dim, doc) == metric::unit_row(
            m,
            turboquant::row_at(flat, dim, doc),
        ),
    decreases n,
{
    let init = metric::unit_rows(m, flat, dim, (n - 1) as nat);
    assert((n - 1) * dim + dim == n * dim) by (nonlinear_arith);
    assert(0 <= (n - 1) * dim) by (nonlinear_arith)
        requires
            0 <= n - 1,
            0 <= dim,
    ;
    turboquant::lemma_row_range(n as int, dim as int, doc);
    if n > 1 {
        lemma_unit_rows(
            m,
            flat,
            dim,
            (n - 1) as nat,
            if doc < n - 1 {
                doc
            } else {
                0
            },
        );
    } else {
        assert((n - 1) * dim == 0) by (nonlinear_arith)
            requires
                n == 1,
        ;
    }
    let all = metric::unit_rows(m, flat, dim, n);
    if doc < n - 1 {
        turboquant::lemma_row_range(n - 1, dim as int, doc);
        assert(turboquant::row_at(all, dim, doc) =~= turboquant::row_at(init, dim, doc));
    } else {
        assert(turboquant::row_at(all, dim, doc) =~= metric::unit_row(
            m,
            turboquant::row_at(flat, dim, doc),
        ));
    }
}

/// The row that is written of a document is the vector that was collected for it, component
/// for component; only in a cosine field it is scaled to unit length.
pub proof fn rows_are_written_as_collected(m: Calc, d: FieldDraft, max_doc: nat, doc: int)
    requires
        writer::uniform(d),
        writer::complete(d, max_doc),
        0 <= doc < max_doc,
        d.options.distance == VectorDistance::Cosine ==> d.options.dimension > 0,
    ensures
        ({
            let dim = d.options.dimension as int;
            let flat = writer::rows_to_write(m, d, max_doc);
            let row = flat.subrange(doc * dim, doc * dim + dim);
            let vector = d.vectors[doc]->0;
            &&& flat.len() == max_doc * dim
            &&& d.options.distance != VectorDistance::Cosine ==> row == vector
            &&& d.options.distance == VectorDistance::Cosine ==> row == metric::unit_row(
                m,
                vector,
            )
        }),
{
    let dim = d.options.dimension as nat;
    let flat = writer::joined(d.vectors, max_doc);
    let out = writer::rows_to_write(m, d, max_doc);
    writer::joined_rows_are_the_vectors(d.vectors, dim, max_doc, doc);
    writer::lemma_joined_len(d.vectors, dim, max_doc);
    if d.options.distance == VectorDistance::Cosine {
        let n = flat.len() / dim;
        assert(n == max_doc) by (nonlinear_arith)
            requires
                n == flat.len() / dim,
                flat.len() == max_doc * dim,
                0 < dim,
        ;
        lemma_unit_rows(m, flat, dim, max_doc, doc);
        turboquant::lemma_row_range(max_doc as int, dim as int, doc);
        assert(out =~= metric::unit_rows(m, flat, dim, max_doc));
    }
}

/// What is handed to the graph builder and to the codec of a field that is not a cosine field
/// are the collected vectors themselves, one behind the other; and the codes that are
/// written are those of these vectors.
pub proof fn vectors_are_coded_as_collected<B: Fn(&BuildPlan, &[u32]) -> Vec<BuiltPoint>>(
    m: Calc,
    w: WideCalc,
    f: VectorFieldBundle,
    d: FieldDraft,
    max_doc: u32,
    json: spec_fn(VectorOptions) -> Option<Seq<u8>>,
    build: B,
    doc: int,
    k: int,
)
    requires
        writer::hands_over(f, d, max_doc, m, json, build),
        writer::uniform(d),
        writer::complete(d, max_doc as nat),
        d.options.distance != VectorDistance::Cosine,
        0 <= doc < max_doc,
        0 <= k < d.options.dimension,
    ensures
        f.flat@.len() == max_doc * d.options.dimension,
        f.flat@[doc * d.options.dimension + k] == d.vectors[doc]->0[k],
        exists|plan: &BuildPlan, rows: &[u32], points: Vec<BuiltPoint>| #[trigger]
            build.ensures((plan, rows), points) && rows@ == f.flat@,
        file::bundle_codes(m, w, f) == turboquant::encoded(
            m,
            w,
            max_doc as nat,
            d.options.dimension as nat,
            f.flat@,
            file::field_levels(m, w, d.options),
        ),
{
    let dim = d.options.dimension as int;
    rows_are_written_as_collected(m, d, max_doc as nat, doc);
    turboquant::lemma_row_range(max_doc as int, dim, doc);
    let row = f.flat@.subrange(doc * dim, doc * dim + dim);
    assert(row[k] == f.flat@[doc * dim + k]);
}

} // verus!
