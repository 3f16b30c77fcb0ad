//! What is read from a `.vec` file is what was written to it.

use vstd::prelude::*;

use crate::arith::Calc;
use crate::bytes;
use crate::error::ErrorKind;
use crate::file;
use crate::file::{StoredField, VectorFieldBundle};
use crate::options::VectorOptions;
use crate::rotation;
use crate::turboquant;
use crate::turboquant::{Calibration, Codes, Levels};
use crate::wide::WideCalc;

verus! {

/// Whether the parts of a field's codes have the lengths that its sizes ask for, and
/// the sizes fit in the file.
pub open spec fn codes_fit(c: Codes, num_docs: nat) -> bool {
    &&& c.padded <= u32::MAX
    &&& c.tqplus.shift.len() == c.padded
    &&& c.tqplus.scale.len() == c.padded
    &&& c.packed.len() == num_docs * (c.padded / 2)
    &&& c.renorm.len() == num_docs
}

/// A field as it is found in a file that it was written to.
pub open spec fn stored(
    field_id: u32,
    options: VectorOptions,
    num_docs: u32,
    dim: u32,
    c: Codes,
    graph: Seq<u8>,
) -> StoredField {
    StoredField {
        field_id,
        options,
        num_docs,
        dimension: dim,
        padded: c.padded as u32,
        shift: bytes::u32s_bytes(c.tqplus.shift),
        scale: bytes::u32s_bytes(c.tqplus.scale),
        codes: c.packed,
        renorm: bytes::u32s_bytes(c.renorm),
        graph,
    }
}

/// A part of a part is a part.
proof fn lemma_part(b: Seq<u8>, pos: int, whole: Seq<u8>, off: int, part: Seq<u8>)
    requires
        0 <= pos,
        0 <= off,
        off + part.len() <= whole.len(),
        pos + whole.len() <= b.len(),
        b.subrange(pos, pos + whole.len()) == whole,
        whole.subrange(off, off + part.len()) == part,
    ensures
        b.subrange(pos + off, pos + off + part.len()) == part,
{
    assert(b.subrange(pos + off, pos + off + part.len()) =~= b.subrange(
        pos,
        pos + whole.len(),
    ).subrange(off, off + part.len()));
}

/// Where the parts of a concatenation stand.
proof fn lemma_pair(a: Seq<u8>, b: Seq<u8>)
    ensures
        (a + b).subrange(0, a.len() as int) == a,
        (a + b).subrange(a.len() as int, (a.len() + b.len()) as int) == b,
{
    assert((a + b).subrange(0, a.len() as int) =~= a);
    assert((a + b).subrange(a.len() as int, (a.len() + b.len()) as int) =~= b);
}

proof fn lemma_head_reads_back(
    b: Seq<u8>,
    pos: int,
    field_id: u32,
    options: Seq<u8>,
    num_docs: u32,
    dim: u32,
    padded: u32,
)
    requires
        0 <= pos,
        options.len() <= u32::MAX,
        ({
            let head = file::field_head_bytes(field_id, options, num_docs, dim, padded);
            pos + head.len() <= b.len() && b.subrange(pos, pos + head.len()) == head
        }),
    ensures
        file::field_head_bytes(field_id, options, num_docs, dim, padded).len() == 20
            + options.len(),
        bytes::u32_at(b, pos) == field_id,
        file::options_len(b, pos) == options.len(),
        file::options_part(b, pos) == options,
        file::docs_of(b, pos) == num_docs,
        file::dim_of(b, pos) == dim,
        file::padded_at(b, pos) == padded,
{
    let n = options.len() as int;
    let p0 = bytes::u32_bytes(field_id);
    let p1 = bytes::u32_bytes(options.len() as u32);
    let p3 = bytes::u32_bytes(num_docs);
    let p4 = bytes::u32_bytes(dim);
    let p5 = bytes::u32_bytes(padded);
    let head = p0 + p1 + options + p3 + p4 + p5;
    assert(head.len() == 20 + n);
    assert(head.subrange(0, 4) =~= p0);
    assert(head.subrange(4, 8) =~= p1);
    assert(head.subrange(8, 8 + n) =~= options);
    assert(head.subrange(8 + n, 12 + n) =~= p3);
    assert(head.subrange(12 + n, 16 + n) =~= p4);
    assert(head.subrange(16 + n, 20 + n) =~= p5);
    lemma_part(b, pos, head, 0, p0);
    lemma_part(b, pos, head, 4, p1);
    lemma_part(b, pos, head, 8, options);
    lemma_part(b, pos, head, 8 + n, p3);
    lemma_part(b, pos, head, 12 + n, p4);
    lemma_part(b, pos, head, 16 + n, p5);
    bytes::u32_round_trip(b, pos, field_id);
    bytes::u32_round_trip(b, pos + 4, options.len() as u32);
    bytes::u32_round_trip(b, pos + 8 + n, num_docs);
    bytes::u32_round_trip(b, pos + 12 + n, dim);
    bytes::u32_round_trip(b, pos + 16 + n, padded);
}

proof fn lemma_codes_parts(c: Codes, num_docs: nat)
    requires
        codes_fit(c, num_docs),
    ensures
        ({
            let all = file::codes_bytes(c);
            let p = 4 * c.padded;
            let k = num_docs * (c.padded / 2);
            &&& all.len() == 2 * p + k + 4 * num_docs
            &&& all.subrange(0, p as int) == bytes::u32s_bytes(c.tqplus.shift)
            &&& all.subrange(p as int, (2 * p) as int) == bytes::u32s_bytes(c.tqplus.scale)
            &&& all.subrange((2 * p) as int, (2 * p + k) as int) == c.packed
            &&& all.subrange((2 * p + k) as int, (2 * p + k + 4 * num_docs) as int)
                == bytes::u32s_bytes(c.renorm)
        }),
{
    bytes::lemma_u32s_bytes_len(c.tqplus.shift);
    bytes::lemma_u32s_bytes_len(c.tqplus.scale);
    bytes::lemma_u32s_bytes_len(c.renorm);
    let shift = bytes::u32s_bytes(c.tqplus.shift);
    let scale = bytes::u32s_bytes(c.tqplus.scale);
    let renorm = bytes::u32s_bytes(c.renorm);
    let all = shift + scale + c.packed + renorm;
    let p = (4 * c.padded) as int;
    let k = c.packed.len() as int;
    let n = renorm.len() as int;
    assert(all.subrange(0, p) =~= shift);
    assert(all.subrange(p, 2 * p) =~= scale);
    assert(all.subrange(2 * p, 2 * p + k) =~= c.packed);
    assert(all.subrange(2 * p + k, 2 * p + k + n) =~= renorm);
}

/// Where the parts of a field stand that stands somewhere in a file.
pub(crate) proof fn lemma_field_layout(
    b: Seq<u8>,
    pos: int,
    field_id: u32,
    json: Seq<u8>,
    num_docs: u32,
    dim: u32,
    c: Codes,
    graph: Seq<u8>,
)
    requires
        0 <= pos,
        json.len() <= u32::MAX,
        graph.len() <= u64::MAX,
        codes_fit(c, num_docs as nat),
        ({
            let all = file::field_bytes(field_id, json, num_docs, dim, c, graph);
            pos + all.len() <= b.len() && b.subrange(pos, pos + all.len()) == all
        }),
    ensures
        ({
            let at = pos + 20 + json.len();
            let p = 4 * c.padded;
            let k = c.packed.len();
            let end = at + 2 * p + k + 4 * num_docs;
            &&& bytes::u32_at(b, pos) == field_id
            &&& file::options_len(b, pos) == json.len()
            &&& file::options_part(b, pos) == json
            &&& file::docs_of(b, pos) == num_docs
            &&& file::dim_of(b, pos) == dim
            &&& file::padded_at(b, pos) == c.padded
            &&& b.subrange(at, at + p) == bytes::u32s_bytes(c.tqplus.shift)
            &&& b.subrange(at + p, at + 2 * p) == bytes::u32s_bytes(c.tqplus.scale)
            &&& b.subrange(at + 2 * p, at + 2 * p + k) == c.packed
            &&& b.subrange(at + 2 * p + k, end) == bytes::u32s_bytes(c.renorm)
            &&& bytes::u64_at(b, end) == graph.len()
            &&& b.subrange(end + 8, end + 8 + graph.len()) == graph
            &&& end + 8 + graph.len() <= b.len()
            &&& file::field_bytes(field_id, json, num_docs, dim, c, graph).len() == end + 8
                + graph.len() - pos
        }),
{
    let head = file::field_head_bytes(field_id, json, num_docs, dim, c.padded as u32);
    let body = file::codes_bytes(c);
    let size = bytes::u64_bytes(graph.len() as u64);
    let all = head + body + size + graph;
    lemma_codes_parts(c, num_docs as nat);
    let h = head.len() as int;
    let l = body.len() as int;
    let g = graph.len() as int;
    assert(all.subrange(0, h) =~= head);
    assert(all.subrange(h, h + l) =~= body);
    assert(all.subrange(h + l, h + l + 8) =~= size);
    assert(all.subrange(h + l + 8, h + l + 8 + g) =~= graph);
    lemma_part(b, pos, all, 0, head);
    lemma_part(b, pos, all, h, body);
    lemma_part(b, pos, all, h + l, size);
    lemma_part(b, pos, all, h + l + 8, graph);
    lemma_head_reads_back(b, pos, field_id, json, num_docs, dim, c.padded as u32);
    let p = (4 * c.padded) as int;
    let k = c.packed.len() as int;
    bytes::lemma_u32s_bytes_len(c.tqplus.shift);
    bytes::lemma_u32s_bytes_len(c.tqplus.scale);
    bytes::lemma_u32s_bytes_len(c.renorm);
    lemma_part(b, pos + h, body, 0, bytes::u32s_bytes(c.tqplus.shift));
    lemma_part(b, pos + h, body, p, bytes::u32s_bytes(c.tqplus.scale));
    lemma_part(b, pos + h, body, 2 * p, c.packed);
    lemma_part(b, pos + h, body, 2 * p + k, bytes::u32s_bytes(c.renorm));
    bytes::u64_round_trip(b, pos + h + l, graph.len() as u64);
}

/// A field that stands somewhere in a file is found there.
proof fn lemma_field_reads_back(
    b: Seq<u8>,
    pos: int,
    field_id: u32,
    json: Seq<u8>,
    options: VectorOptions,
    num_docs: u32,
    dim: u32,
    c: Codes,
    graph: Seq<u8>,
    parse: spec_fn(Seq<u8>) -> Option<VectorOptions>,
)
    requires
        0 <= pos,
        json.len() <= u32::MAX,
        graph.len() <= u64::MAX,
        codes_fit(c, num_docs as nat),
        parse(json) == Some(options),
        ({
            let all = file::field_bytes(field_id, json, num_docs, dim, c, graph);
            pos + all.len() <= b.len() && b.subrange(pos, pos + all.len()) == all
        }),
    ensures
        file::field_error(b, pos, parse) is None,
        file::field_at(b, pos, parse) == stored(field_id, options, num_docs, dim, c, graph),
        file::field_end(b, pos) == pos + file::field_bytes(
            field_id,
            json,
            num_docs,
            dim,
            c,
            graph,
        ).len(),
{
    lemma_field_layout(b, pos, field_id, json, num_docs, dim, c, graph);
    let at = pos + 20 + json.len();
    let p = (4 * c.padded) as int;
    assert(file::shift_at(b, pos) == at);
    assert(file::codes_at(b, pos) == at + 2 * p);
    assert(file::renorm_at(b, pos) == at + 2 * p + c.packed.len());
    assert(file::graph_len_at(b, pos) == at + 2 * p + c.packed.len() + 4 * num_docs);
    assert(file::field_error(b, pos, parse) is None) by {
        reveal(file::field_error);
    }
    assert(file::field_at(b, pos, parse) == stored(
        field_id,
        options,
        num_docs,
        dim,
        c,
        graph,
    )) by {
        reveal(file::field_at);
    }
}

proof fn lemma_packed_rows_len(
    m: Calc,
    rows: Seq<Seq<u32>>,
    n: nat,
    t: Calibration,
    c: Levels,
    padded: nat,
)
    requires
        n <= rows.len(),
        forall|i: int| 0 <= i < rows.len() ==> (#[trigger] rows[i]).len() == padded,
    ensures
        turboquant::packed_rows(m, rows, n, t, c).len() == n * (padded / 2),
    decreases n,
{
    if n > 0 {
        lemma_packed_rows_len(m, rows, (n - 1) as nat, t, c, padded);
        assert(rows[n - 1].len() == padded);
        let half = padded / 2;
        assert((n - 1) * half + half == n * half) by (nonlinear_arith);
    } else {
        assert(n * (padded / 2) == 0) by (nonlinear_arith)
            requires
                n == 0,
        ;
    }
}

/// The codes of a field have the lengths that its number of rows and their filled-up
/// length ask for.
pub proof fn codes_have_their_sizes(
    m: Calc,
    w: WideCalc,
    n: nat,
    dim: nat,
    flat: Seq<u32>,
    c: Levels,
)
    requires
        turboquant::padded_of(dim) <= u32::MAX,
    ensures
        codes_fit(turboquant::encoded(m, w, n, dim, flat, c), n),
{
    let padded = turboquant::padded_of(dim);
    let rows = turboquant::rotated_rows(m, flat, n, dim);
    assert forall|i: int| 0 <= i < rows.len() implies (#[trigger] rows[i]).len() == padded by {
        rotation::lemma_rotated_len(
            m,
            turboquant::row_at(flat, dim, i),
            padded,
            rotation::signs_of(padded as usize),
        );
    }
    let t = turboquant::calibrated(m, w, rows, padded, c.centroids);
    lemma_packed_rows_len(m, rows, n, t, c, padded);
}

/// Whether the sizes of a field fit in the file.
pub open spec fn fits_file(f: VectorFieldBundle) -> bool {
    &&& f.options_json@.len() <= u32::MAX
    &&& f.options.dimension <= u32::MAX
    &&& turboquant::padded_of(f.options.dimension as nat) <= u32::MAX
    &&& f.graph@.len() <= u64::MAX
}

/// A field as it is found in a file that it was written to.
#[verifier::opaque]
pub open spec fn stored_bundle(
    m: Calc,
    w: WideCalc,
    f: VectorFieldBundle,
) -> StoredField {
    stored(
        f.field_id,
        f.options,
        f.num_docs,
        f.options.dimension as u32,
        file::bundle_codes(m, w, f),
        f.graph@,
    )
}

proof fn lemma_bundles_part(
    m: Calc,
    w: WideCalc,
    fields: Seq<VectorFieldBundle>,
    n: nat,
    i: int,
)
    requires
        0 <= i < n <= fields.len(),
    ensures
        ({
            let all = file::bundles_bytes(m, w, fields, n);
            let from = file::bundles_bytes(m, w, fields, i as nat).len() as int;
            let part = file::bundle_bytes(m, w, fields[i]);
            &&& from + part.len() <= all.len()
            &&& all.subrange(from, from + part.len()) == part
            &&& file::bundles_bytes(m, w, fields, (i + 1) as nat).len() == from + part.len()
        }),
    decreases n,
{
    let init = file::bundles_bytes(m, w, fields, (n - 1) as nat);
    let last = file::bundle_bytes(m, w, fields[n - 1]);
    lemma_pair(init, last);
    if i < n - 1 {
        lemma_bundles_part(m, w, fields, (n - 1) as nat, i);
        let from = file::bundles_bytes(m, w, fields, i as nat).len() as int;
        let part = file::bundle_bytes(m, w, fields[i]);
        lemma_part(init + last, 0, init, from, part);
    }
}

proof fn lemma_bundle_reads_back(
    b: Seq<u8>,
    at: int,
    m: Calc,
    w: WideCalc,
    f: VectorFieldBundle,
    parse: spec_fn(Seq<u8>) -> Option<VectorOptions>,
)
    requires
        0 <= at,
        at + file::bundle_bytes(m, w, f).len() <= b.len(),
        b.subrange(at, at + file::bundle_bytes(m, w, f).len()) == file::bundle_bytes(m, w, f),
        fits_file(f),
        parse(f.options_json@) == Some(f.options),
    ensures
        file::field_error(b, at, parse) is None,
        file::field_at(b, at, parse) == stored_bundle(m, w, f),
        file::field_end(b, at) == at + file::bundle_bytes(m, w, f).len(),
{
    reveal(file::bundle_bytes);
    reveal(stored_bundle);
    codes_have_their_sizes(
        m,
        w,
        f.num_docs as nat,
        f.options.dimension as nat,
        f.flat@,
        file::field_levels(m, w, f.options),
    );
    lemma_field_reads_back(
        b,
        at,
        f.field_id,
        f.options_json@,
        f.options,
        f.num_docs,
        f.options.dimension as u32,
        file::bundle_codes(m, w, f),
        f.graph@,
        parse,
    );
}

proof fn lemma_bundle_place(
    b: Seq<u8>,
    m: Calc,
    w: WideCalc,
    fields: Seq<VectorFieldBundle>,
    i: int,
)
    requires
        0 <= i < fields.len(),
        b == file::vec_file(m, w, fields),
    ensures
        ({
            let at = (16 + file::bundles_bytes(m, w, fields, i as nat).len()) as int;
            let part = file::bundle_bytes(m, w, fields[i]);
            &&& at + part.len() <= b.len()
            &&& b.subrange(at, at + part.len()) == part
            &&& at + part.len() == 16 + file::bundles_bytes(m, w, fields, (i + 1) as nat).len()
        }),
{
    let n = fields.len();
    let head = file::file_head_bytes(n);
    let all = file::bundles_bytes(m, w, fields, n);
    let at = (16 + file::bundles_bytes(m, w, fields, i as nat).len()) as int;
    assert(head.len() == 16);
    lemma_bundles_part(m, w, fields, n, i);
    lemma_pair(head, all);
    lemma_part(b, 16, all, at - 16, file::bundle_bytes(m, w, fields[i]));
}

proof fn lemma_fields_step(
    b: Seq<u8>,
    at: int,
    left: nat,
    parse: spec_fn(Seq<u8>) -> Option<VectorOptions>,
)
    requires
        left > 0,
        file::field_error(b, at, parse) is None,
    ensures
        file::fields_error(b, at, left, parse) == file::fields_error(
            b,
            file::field_end(b, at),
            (left - 1) as nat,
            parse,
        ),
        file::fields_at(b, at, left, parse) == seq![file::field_at(b, at, parse)]
            + file::fields_at(b, file::field_end(b, at), (left - 1) as nat, parse),
{
}

/// The fields from `i` on, as they are found in a file that they were written to.
pub open spec fn stored_from(
    m: Calc,
    w: WideCalc,
    fields: Seq<VectorFieldBundle>,
    i: nat,
) -> Seq<StoredField> {
    Seq::new((fields.len() - i) as nat, |k: int| stored_bundle(m, w, fields[i + k]))
}

proof fn lemma_stored_from(
    m: Calc,
    w: WideCalc,
    fields: Seq<VectorFieldBundle>,
    i: nat,
)
    requires
        i < fields.len(),
    ensures
        stored_from(m, w, fields, i) == seq![stored_bundle(m, w, fields[i as int])]
            + stored_from(m, w, fields, i + 1),
{
    let rest = stored_from(m, w, fields, i + 1);
    assert(seq![stored_bundle(m, w, fields[i as int])] + rest =~= stored_from(m, w, fields, i));
}

/// The field at `i` is found behind those before it.
proof fn lemma_field_in_place(
    b: Seq<u8>,
    m: Calc,
    w: WideCalc,
    fields: Seq<VectorFieldBundle>,
    i: nat,
    parse: spec_fn(Seq<u8>) -> Option<VectorOptions>,
)
    requires
        i < fields.len(),
        b == file::vec_file(m, w, fields),
        fits_file(fields[i as int]),
        parse(fields[i as int].options_json@) == Some(fields[i as int].options),
    ensures
        ({
            let at = (16 + file::bundles_bytes(m, w, fields, i).len()) as int;
            &&& file::field_error(b, at, parse) is None
            &&& file::field_at(b, at, parse) == stored_bundle(m, w, fields[i as int])
            &&& file::field_end(b, at) == 16 + file::bundles_bytes(m, w, fields, i + 1).len()
        }),
{
    let at = (16 + file::bundles_bytes(m, w, fields, i).len()) as int;
    lemma_bundle_place(b, m, w, fields, i as int);
    lemma_bundle_reads_back(b, at, m, w, fields[i as int], parse);
}

proof fn lemma_fields_read_back(
    b: Seq<u8>,
    m: Calc,
    w: WideCalc,
    fields: Seq<VectorFieldBundle>,
    i: nat,
    parse: spec_fn(Seq<u8>) -> Option<VectorOptions>,
)
    requires
        i <= fields.len(),
        b == file::vec_file(m, w, fields),
        forall|k: int|
            0 <= k < fields.len() ==> fits_file(#[trigger] fields[k]) && parse(
                fields[k].options_json@,
            ) == Some(fields[k].options),
    ensures
        ({
            let at = (16 + file::bundles_bytes(m, w, fields, i).len()) as int;
            let left = (fields.len() - i) as nat;
            &&& file::fields_error(b, at, left, parse) is None
            &&& file::fields_at(b, at, left, parse) == stored_from(m, w, fields, i)
        }),
    decreases fields.len() - i,
{
    let at = (16 + file::bundles_bytes(m, w, fields, i).len()) as int;
    let left = (fields.len() - i) as nat;
    if left == 0 {
        assert(file::fields_at(b, at, left, parse) =~= stored_from(m, w, fields, i));
    } else {
        assert(fits_file(fields[i as int]));
        lemma_field_in_place(b, m, w, fields, i, parse);
        lemma_fields_step(b, at, left, parse);
        lemma_fields_read_back(b, m, w, fields, i + 1, parse);
        lemma_stored_from(m, w, fields, i);
    }
}

/// What is read from a file that was written is what was written: every field, in
/// order, with its options, its codes and its graph.
pub proof fn written_file_reads_back(
    m: Calc,
    w: WideCalc,
    fields: Seq<VectorFieldBundle>,
    parse: spec_fn(Seq<u8>) -> Option<VectorOptions>,
)
    requires
        fields.len() <= u32::MAX,
        forall|k: int|
            0 <= k < fields.len() ==> fits_file(#[trigger] fields[k]) && parse(
                fields[k].options_json@,
            ) == Some(fields[k].options),
    ensures
        file::file_error(file::vec_file(m, w, fields), parse) is None,
        file::file_fields(file::vec_file(m, w, fields), parse) == fields.map_values(
            |f: VectorFieldBundle| stored_bundle(m, w, f),
        ),
{
    let b = file::vec_file(m, w, fields);
    let n = fields.len();
    let head = file::file_head_bytes(n);
    let all = file::bundles_bytes(m, w, fields, n);
    lemma_pair(head, all);
    assert(head.len() == 16);
    assert(b.take(8) =~= file::magic());
    assert(b.subrange(12, 16) =~= bytes::u32_bytes(n as u32));
    bytes::u32_round_trip(b, 12, n as u32);
    lemma_fields_read_back(b, m, w, fields, 0, parse);
    assert(stored_from(m, w, fields, 0) =~= fields.map_values(
        |f: VectorFieldBundle| stored_bundle(m, w, f),
    ));
}

/// A field that is found in the first bytes of a file is the same in the whole file, and
/// ends within them.
proof fn lemma_field_in_prefix(
    b: Seq<u8>,
    cut: int,
    pos: int,
    parse: spec_fn(Seq<u8>) -> Option<VectorOptions>,
)
    requires
        0 <= pos,
        0 <= cut <= b.len(),
        file::field_error(b.take(cut), pos, parse) is None,
    ensures
        file::field_end(b.take(cut), pos) == file::field_end(b, pos),
        file::field_end(b, pos) <= cut,
{
    reveal(file::field_error);
    let c = b.take(cut);
    assert(file::options_len(c, pos) == file::options_len(b, pos));
    assert(file::docs_of(c, pos) == file::docs_of(b, pos));
    assert(file::padded_at(c, pos) == file::padded_at(b, pos));
    let at = file::graph_len_at(b, pos);
    assert(file::graph_len_at(c, pos) == at);
    assert(0 <= file::docs_of(b, pos) * (file::padded_at(b, pos) / 2)) by (nonlinear_arith)
        requires
            0 <= file::docs_of(b, pos),
            0 <= file::padded_at(b, pos) / 2,
    ;
    assert(bytes::u64_at(c, at) == bytes::u64_at(b, at));
}

/// Where a field ends does not depend on how options are read.
proof fn lemma_field_ends_in_place(
    b: Seq<u8>,
    m: Calc,
    w: WideCalc,
    fields: Seq<VectorFieldBundle>,
    i: nat,
)
    requires
        i < fields.len(),
        b == file::vec_file(m, w, fields),
        fits_file(fields[i as int]),
    ensures
        file::field_end(b, (16 + file::bundles_bytes(m, w, fields, i).len()) as int) == 16
            + file::bundles_bytes(m, w, fields, i + 1).len(),
{
    let options = fields[i as int].options;
    lemma_field_in_place(b, m, w, fields, i, |json: Seq<u8>| Some(options));
}

proof fn lemma_fields_in_prefix(
    b: Seq<u8>,
    cut: int,
    m: Calc,
    w: WideCalc,
    fields: Seq<VectorFieldBundle>,
    i: nat,
    parse: spec_fn(Seq<u8>) -> Option<VectorOptions>,
)
    requires
        i <= fields.len(),
        b == file::vec_file(m, w, fields),
        forall|k: int| 0 <= k < fields.len() ==> fits_file(#[trigger] fields[k]),
        16 + file::bundles_bytes(m, w, fields, i).len() <= cut < b.len(),
    ensures
        file::fields_error(
            b.take(cut),
            (16 + file::bundles_bytes(m, w, fields, i).len()) as int,
            (fields.len() - i) as nat,
            parse,
        ) is Some,
    decreases fields.len() - i,
{
    let at = (16 + file::bundles_bytes(m, w, fields, i).len()) as int;
    let left = (fields.len() - i) as nat;
    assert(file::file_head_bytes(fields.len()).len() == 16);
    assert(left > 0);
    if file::field_error(b.take(cut), at, parse) is None {
        assert(fits_file(fields[i as int]));
        lemma_field_in_prefix(b, cut, at, parse);
        lemma_field_ends_in_place(b, m, w, fields, i);
        lemma_fields_in_prefix(b, cut, m, w, fields, i + 1, parse);
        lemma_fields_step(b.take(cut), at, left, parse);
    }
}

proof fn lemma_fields_error_kind(
    b: Seq<u8>,
    pos: int,
    n: nat,
    parse: spec_fn(Seq<u8>) -> Option<VectorOptions>,
)
    ensures
        file::fields_error(b, pos, n, parse) is Some ==> file::fields_error(
            b,
            pos,
            n,
            parse,
        )->0.spec_kind() == ErrorKind::DataCorruption,
    decreases n,
{
    reveal(file::field_error);
    if n > 0 {
        lemma_fields_error_kind(b, file::field_end(b, pos), (n - 1) as nat, parse);
    }
}

/// Bytes that are no file are refused as corrupt.
pub proof fn unreadable_files_are_corrupt(
    b: Seq<u8>,
    parse: spec_fn(Seq<u8>) -> Option<VectorOptions>,
)
    ensures
        file::file_error(b, parse) is Some ==> file::file_error(b, parse)->0.spec_kind()
            == ErrorKind::DataCorruption,
{
    lemma_fields_error_kind(b, 16, file::field_count(b), parse);
}

/// A file that was written is not read where its end is missing: however options are
/// read, each of its first parts is refused as corrupt.
pub proof fn cut_file_is_refused(
    m: Calc,
    w: WideCalc,
    fields: Seq<VectorFieldBundle>,
    cut: int,
    parse: spec_fn(Seq<u8>) -> Option<VectorOptions>,
)
    requires
        fields.len() <= u32::MAX,
        forall|k: int| 0 <= k < fields.len() ==> fits_file(#[trigger] fields[k]),
        0 <= cut < file::vec_file(m, w, fields).len(),
    ensures
        file::file_error(file::vec_file(m, w, fields).take(cut), parse) is Some,
        file::file_error(file::vec_file(m, w, fields).take(cut), parse)->0.spec_kind()
            == ErrorKind::DataCorruption,
{
    let b = file::vec_file(m, w, fields);
    let c = b.take(cut);
    let n = fields.len();
    let head = file::file_head_bytes(n);
    assert(head.len() == 16);
    unreadable_files_are_corrupt(c, parse);
    if cut >= 16 {
        lemma_pair(head, file::bundles_bytes(m, w, fields, n));
        assert(c.subrange(12, 16) =~= bytes::u32_bytes(n as u32));
        bytes::u32_round_trip(c, 12, n as u32);
        lemma_fields_in_prefix(b, cut, m, w, fields, 0, parse);
    }
}

/// The numbers of a stored field are the numbers that were written.
pub proof fn stored_numbers_read_back(
    field_id: u32,
    options: VectorOptions,
    num_docs: u32,
    dim: u32,
    c: Codes,
    graph: Seq<u8>,
)
    requires
        codes_fit(c, num_docs as nat),
    ensures
        ({
            let f = stored(field_id, options, num_docs, dim, c, graph);
            &&& file::well_sized(f)
            &&& file::words(f.shift) == c.tqplus.shift
            &&& file::words(f.scale) == c.tqplus.scale
            &&& file::words(f.renorm) == c.renorm
        }),
{
    lemma_words(c.tqplus.shift);
    lemma_words(c.tqplus.scale);
    lemma_words(c.renorm);
}

proof fn lemma_words(values: Seq<u32>)
    ensures
        bytes::u32s_bytes(values).len() == 4 * values.len(),
        file::words(bytes::u32s_bytes(values)) == values,
{
    let b = bytes::u32s_bytes(values);
    bytes::lemma_u32s_bytes_len(values);
    assert(b.subrange(0, 4 * values.len() as int) =~= b);
    bytes::u32s_round_trip(b, 0, values);
}

} // verus!
