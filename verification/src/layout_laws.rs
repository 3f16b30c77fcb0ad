//! Where everything stands in a `.vec` file, byte by byte.

use vstd::prelude::*;

use crate::arith::Calc;
use crate::bytes;
use crate::codebook;
use crate::error::{Section, VectorError};
use crate::file;
use crate::file::VectorFieldBundle;
use crate::file_laws;
use crate::graph;
use crate::options::VectorOptions;
use crate::turboquant;
use crate::turboquant::Codes;
use crate::wide::WideCalc;

verus! {

/// The number that four bytes make, the lowest byte first.
pub open spec fn four(b: Seq<u8>, pos: int) -> int {
    b[pos] + 256 * b[pos + 1] + 65536 * b[pos + 2] + 16777216 * b[pos + 3]
}

/// The number that eight bytes make, the lowest byte first.
pub open spec fn eight(b: Seq<u8>, pos: int) -> int {
    four(b, pos) + 4294967296 * four(b, pos + 4)
}

proof fn lemma_four(b: Seq<u8>, pos: int)
    ensures
        bytes::u32_at(b, pos) == four(b, pos),
        0 <= four(b, pos) <= u32::MAX,
{
}

/// Numbers are written and read with the lowest byte first, in four bytes or in eight; and
/// several numbers stand one behind the other.
pub proof fn numbers_start_with_their_lowest_byte(
    short: u32,
    long: u64,
    values: Seq<u32>,
    i: int,
    b: Seq<u8>,
    pos: int,
)
    requires
        0 <= i < values.len(),
    ensures
        bytes::u32_bytes(short).len() == 4,
        four(bytes::u32_bytes(short), 0) == short,
        bytes::u64_bytes(long).len() == 8,
        eight(bytes::u64_bytes(long), 0) == long,
        bytes::u32s_bytes(values).len() == 4 * values.len(),
        four(bytes::u32s_bytes(values), 4 * i) == values[i],
        bytes::u32_at(b, pos) == four(b, pos),
        bytes::u64_at(b, pos) == eight(b, pos),
{
    let s = bytes::u32_bytes(short);
    bytes::u32_round_trip(s, 0, short);
    assert(s.subrange(0, 4) =~= s);
    lemma_four(s, 0);
    let l = bytes::u64_bytes(long);
    assert(l.subrange(0, 8) =~= l);
    bytes::u64_round_trip(l, 0, long);
    lemma_four(l, 0);
    lemma_four(l, 4);
    let all = bytes::u32s_bytes(values);
    bytes::lemma_u32s_bytes_len(values);
    assert(all.subrange(0, 4 * values.len() as int) =~= all);
    bytes::u32s_round_trip(all, 0, values);
    assert(bytes::u32s_at(all, 0, values.len())[i] == values[i]);
    lemma_four(all, 4 * i);
    lemma_four(b, pos);
    lemma_four(b, pos + 4);
}

/// A file starts with eight letters, the version 4 and the number of its fields. The fields
/// follow from byte 16 on, one behind the other.
pub proof fn files_start_with_their_head(
    m: Calc,
    w: WideCalc,
    fields: Seq<VectorFieldBundle>,
    k: nat,
)
    requires
        fields.len() <= u32::MAX,
        k < fields.len(),
    ensures
        ({
            let b = file::vec_file(m, w, fields);
            &&& b.len() >= 16
            &&& b.subrange(0, 8) == seq![
                0x54u8,
                0x4eu8,
                0x56u8,
                0x59u8,
                0x56u8,
                0x45u8,
                0x43u8,
                0x34u8,
            ]
            &&& four(b, 8) == 4
            &&& four(b, 12) == fields.len()
            &&& b.skip(16) == file::bundles_bytes(m, w, fields, fields.len())
            &&& file::bundles_bytes(m, w, fields, 0).len() == 0
            &&& file::bundles_bytes(m, w, fields, k + 1) == file::bundles_bytes(m, w, fields, k)
                + file::bundle_bytes(m, w, fields[k as int])
        }),
{
    let b = file::vec_file(m, w, fields);
    let n = fields.len() as u32;
    let head = file::file_head_bytes(fields.len());
    assert(head.len() == 16);
    assert(b.subrange(0, 8) =~= file::magic());
    assert(b.subrange(8, 12) =~= bytes::u32_bytes(4));
    assert(b.subrange(12, 16) =~= bytes::u32_bytes(n));
    bytes::u32_round_trip(b, 8, 4);
    bytes::u32_round_trip(b, 12, n);
    lemma_four(b, 8);
    lemma_four(b, 12);
    assert(b.skip(16) =~= file::bundles_bytes(m, w, fields, fields.len()));
}

/// A field stands in a file as its id, the length of its options, the options, the number
/// of documents, the dimension, the filled-up length, all shifts, all scales, all codes,
/// all lengths, the length of the graph, and the graph.
#[verifier::rlimit(30)]
pub proof fn fields_are_laid_out_in_order(
    b: Seq<u8>,
    pos: int,
    field_id: u32,
    options: Seq<u8>,
    num_docs: u32,
    dim: u32,
    c: Codes,
    graph: Seq<u8>,
    i: int,
)
    requires
        0 <= pos,
        options.len() <= u32::MAX,
        graph.len() <= u64::MAX,
        file_laws::codes_fit(c, num_docs as nat),
        ({
            let all = file::field_bytes(field_id, options, num_docs, dim, c, graph);
            pos + all.len() <= b.len() && b.subrange(pos, pos + all.len()) == all
        }),
    ensures
        ({
            let (o, p, n) = (options.len() as int, c.padded as int, num_docs as int);
            let shifts = pos + 20 + o;
            let codes = shifts + 8 * p;
            let lengths = codes + n * (p / 2);
            let end = lengths + 4 * n;
            &&& four(b, pos) == field_id
            &&& four(b, pos + 4) == o
            &&& b.subrange(pos + 8, pos + 8 + o) == options
            &&& four(b, pos + 8 + o) == num_docs
            &&& four(b, pos + 12 + o) == dim
            &&& four(b, pos + 16 + o) == p
            &&& 0 <= i < p ==> four(b, shifts + 4 * i) == c.tqplus.shift[i]
            &&& 0 <= i < p ==> four(b, shifts + 4 * p + 4 * i) == c.tqplus.scale[i]
            &&& b.subrange(codes, lengths) == c.packed
            &&& 0 <= i < n ==> four(b, lengths + 4 * i) == c.renorm[i]
            &&& eight(b, end) == graph.len()
            &&& b.subrange(end + 8, end + 8 + graph.len()) == graph
            &&& file::field_bytes(field_id, options, num_docs, dim, c, graph).len() == end + 8
                + graph.len() - pos
        }),
{
    file_laws::lemma_field_layout(b, pos, field_id, options, num_docs, dim, c, graph);
    lemma_numbers_in_field(b, pos, options.len(), num_docs, c, i);
    assert((c.padded / 2) as int == c.padded as int / 2);
    lemma_four(b, pos);
    lemma_four(b, pos + 4);
}

proof fn lemma_numbers_in_field(b: Seq<u8>, pos: int, o: nat, num_docs: u32, c: Codes, i: int)
    requires
        0 <= pos,
        file_laws::codes_fit(c, num_docs as nat),
        ({
            let at = pos + 20 + o;
            let p = 4 * c.padded;
            let k = c.packed.len();
            &&& at + 2 * p + k + 4 * num_docs + 8 <= b.len()
            &&& b.subrange(at, at + p) == bytes::u32s_bytes(c.tqplus.shift)
            &&& b.subrange(at + p, at + 2 * p) == bytes::u32s_bytes(c.tqplus.scale)
            &&& b.subrange(at + 2 * p + k, at + 2 * p + k + 4 * num_docs) == bytes::u32s_bytes(
                c.renorm,
            )
        }),
    ensures
        ({
            let (p, n) = (c.padded as int, num_docs as int);
            let shifts = pos + 20 + o;
            let lengths = shifts + 8 * p + c.packed.len();
            &&& bytes::u32_at(b, pos + 8 + o) == four(b, pos + 8 + o)
            &&& bytes::u32_at(b, pos + 8 + o + 4) == four(b, pos + 12 + o)
            &&& bytes::u32_at(b, pos + 8 + o + 8) == four(b, pos + 16 + o)
            &&& bytes::u64_at(b, lengths + 4 * n) == eight(b, lengths + 4 * n)
            &&& 0 <= i < p ==> four(b, shifts + 4 * i) == c.tqplus.shift[i]
            &&& 0 <= i < p ==> four(b, shifts + 4 * p + 4 * i) == c.tqplus.scale[i]
            &&& 0 <= i < n ==> four(b, lengths + 4 * i) == c.renorm[i]
        }),
{
    let p = c.padded as int;
    let shifts = pos + 20 + o;
    let lengths = shifts + 8 * p + c.packed.len();
    lemma_four(b, pos + 8 + o);
    lemma_four(b, pos + 12 + o);
    lemma_four(b, pos + 16 + o);
    lemma_four(b, lengths + 4 * num_docs);
    lemma_four(b, lengths + 4 * num_docs + 4);
    lemma_words_at(b, shifts, c.tqplus.shift, i);
    lemma_words_at(b, shifts + 4 * p, c.tqplus.scale, i);
    lemma_words_at(b, lengths, c.renorm, i);
}

proof fn lemma_words_at(b: Seq<u8>, pos: int, values: Seq<u32>, i: int)
    requires
        0 <= pos,
        pos + 4 * values.len() <= b.len(),
        b.subrange(pos, pos + 4 * values.len()) == bytes::u32s_bytes(values),
    ensures
        0 <= i < values.len() ==> four(b, pos + 4 * i) == values[i],
{
    if 0 <= i < values.len() {
        bytes::u32s_round_trip(b, pos, values);
        assert(bytes::u32s_at(b, pos, values.len())[i] == values[i]);
        lemma_four(b, pos + 4 * i);
    }
}

/// A field is read from where it was written: each part from behind the part before. It is
/// refused at the first part that does not lie within the file, by that part's name, and
/// for options that cannot be read.
pub proof fn fields_are_read_in_order(
    b: Seq<u8>,
    pos: int,
    parse: spec_fn(Seq<u8>) -> Option<VectorOptions>,
)
    requires
        0 <= pos,
    ensures
        ({
            let len = b.len() as int;
            let options = pos + 8;
            let sizes = options + four(b, pos + 4);
            let (n, p) = (four(b, sizes), four(b, sizes + 8));
            let shift = sizes + 12;
            let scale = shift + 4 * p;
            let codes = scale + 4 * p;
            let lengths = codes + n * (p / 2);
            let size = lengths + 4 * n;
            let graph = size + 8;
            let end = graph + eight(b, size);
            let parsed = parse(b.subrange(options, sizes));
            let error = file::field_error(b, pos, parse);
            let f = file::field_at(b, pos, parse);
            let cut = |part: Section| Some(VectorError::Truncated(part));
            &&& len < options ==> error == cut(Section::U32)
            &&& options <= len < sizes ==> error == cut(Section::Options)
            &&& options <= sizes <= len && parsed is None ==> error == Some(
                VectorError::BadOptions,
            )
            &&& options <= sizes <= len && parsed is Some ==> {
                &&& len < shift ==> error == cut(Section::U32)
                &&& shift <= len < scale ==> error == cut(Section::TqplusShift)
                &&& scale <= len < codes ==> error == cut(Section::TqplusScale)
                &&& codes <= len < lengths ==> error == cut(Section::PackedCodes)
                &&& lengths <= len < size ==> error == cut(Section::Renorm)
                &&& size <= len < graph ==> error == cut(Section::U64)
                &&& graph <= len < end ==> error == cut(Section::Graph)
                &&& end <= len ==> {
                    &&& error is None
                    &&& f.field_id == four(b, pos)
                    &&& f.options == parsed->0
                    &&& f.num_docs == n
                    &&& f.dimension == four(b, sizes + 4)
                    &&& f.padded == p
                    &&& f.shift == b.subrange(shift, scale)
                    &&& f.scale == b.subrange(scale, codes)
                    &&& f.codes == b.subrange(codes, lengths)
                    &&& f.renorm == b.subrange(lengths, size)
                    &&& f.graph == b.subrange(graph, end)
                    &&& file::field_end(b, pos) == end
                }
            }
        }),
{
    reveal(file::field_error);
    reveal(file::field_at);
    let sizes = pos + 8 + four(b, pos + 4);
    lemma_four(b, pos);
    lemma_four(b, pos + 4);
    lemma_four(b, sizes);
    lemma_four(b, sizes + 4);
    lemma_four(b, sizes + 8);
    let (n, p) = (four(b, sizes), four(b, sizes + 8));
    assert(file::padded_at(b, pos) == p);
    assert((file::padded_at(b, pos) / 2) as int == p / 2);
    let size = sizes + 12 + 8 * p + n * (p / 2) + 4 * n;
    assert(0 <= n * (p / 2)) by (nonlinear_arith)
        requires
            0 <= n,
            0 <= p,
    ;
    assert(file::graph_len_at(b, pos) == size);
    lemma_four(b, size);
    lemma_four(b, size + 4);
}

/// The fields of a file are read one behind the other: from byte 16 on, as many as the file
/// says. A file that does not start with the eight letters is refused as of another format,
/// and for the first field that is refused.
pub proof fn files_are_read_field_by_field(
    b: Seq<u8>,
    pos: int,
    n: nat,
    parse: spec_fn(Seq<u8>) -> Option<VectorOptions>,
)
    ensures
        ({
            let error = file::file_error(b, parse);
            let letters = seq![
                0x54u8,
                0x4eu8,
                0x56u8,
                0x59u8,
                0x56u8,
                0x45u8,
                0x43u8,
                0x34u8,
            ];
            &&& b.len() < 8 ==> error == Some(VectorError::Truncated(Section::Magic))
            &&& b.len() >= 8 && b.subrange(0, 8) != letters ==> error == Some(
                VectorError::UnsupportedFormat,
            )
            &&& 8 <= b.len() < 16 && b.subrange(0, 8) == letters ==> error == Some(
                VectorError::Truncated(Section::U32),
            )
            &&& b.len() >= 16 && b.subrange(0, 8) == letters ==> error == file::fields_error(
                b,
                16,
                four(b, 12) as nat,
                parse,
            )
            &&& file::file_fields(b, parse) == file::fields_at(b, 16, four(b, 12) as nat, parse)
        }),
        file::fields_error(b, pos, 0, parse) is None,
        file::fields_at(b, pos, 0, parse).len() == 0,
        file::field_error(b, pos, parse) is Some ==> file::fields_error(b, pos, n + 1, parse)
            == file::field_error(b, pos, parse),
        file::field_error(b, pos, parse) is None ==> file::fields_error(b, pos, n + 1, parse)
            == file::fields_error(b, file::field_end(b, pos), n, parse),
        file::fields_at(b, pos, n + 1, parse) == seq![file::field_at(b, pos, parse)]
            + file::fields_at(b, file::field_end(b, pos), n, parse),
{
    lemma_four(b, 12);
    if b.len() >= 8 {
        assert(b.take(8) =~= b.subrange(0, 8));
    }
}

/// The neighbours of a point are read from the point's lists, one for each of its layers,
/// each with its length in front. The lists start where the table of places says, which
/// stands behind the layer counts at the next multiple of four.
pub proof fn neighbor_lists_are_read_in_order(b: Seq<u8>, point: u32, layer: nat)
    requires
        graph::is_graph(b),
    ensures
        graph::entry_point_of(b) == four(b, 0),
        graph::entry_layer_of(b) == b[4],
        graph::num_points_of(b) == four(b, 5),
        ({
            let n = four(b, 5);
            let table = (9 + n) + (if (9 + n) % 4 == 0 {
                0int
            } else {
                4 - (9 + n) % 4
            });
            let start = table + 4 * n + four(b, table + 4 * point);
            let at = graph::skip_lists(b, start, layer);
            let ids = graph::neighbor_ids(b, point, layer);
            let whole = at + 4 <= b.len() && at + 4 + 4 * four(b, at) <= b.len();
            &&& table + 4 * n <= b.len()
            &&& point >= n || layer >= b[9 + point] ==> ids.len() == 0
            &&& point < n && layer < b[9 + point] && !whole ==> ids.len() == 0
            &&& point < n && layer < b[9 + point] && whole ==> {
                &&& ids.len() == four(b, at)
                &&& forall|k: int| 0 <= k < ids.len()
                    ==> #[trigger] ids[k] == four(b, at + 4 + 4 * k)
            }
            &&& graph::skip_lists(b, start, 0) == start
            &&& at + 4 <= b.len() ==> graph::skip_lists(b, start, layer + 1) == at + 4 + 4 * four(
                b,
                at,
            )
        }),
{
    let n = four(b, 5);
    let table = graph::offsets_start(b);
    let start = table + 4 * n + four(b, table + 4 * point);
    let at = graph::skip_lists(b, start, layer);
    lemma_four(b, 0);
    lemma_four(b, 5);
    lemma_four(b, table + 4 * point);
    lemma_four(b, at);
    lemma_skip_one_more(b, start, layer);
    let ids = graph::neighbor_ids(b, point, layer);
    assert forall|k: int| 0 <= k < ids.len() implies #[trigger] ids[k] == four(
        b,
        at + 4 + 4 * k,
    ) by {
        lemma_four(b, at + 4 + 4 * k);
    }
}

proof fn lemma_skip_one_more(b: Seq<u8>, off: int, lists: nat)
    ensures
        ({
            let at = graph::skip_lists(b, off, lists);
            at + 4 <= b.len() ==> graph::skip_lists(b, off, lists + 1) == at + 4 + 4
                * bytes::u32_at(b, at)
        }),
    decreases lists,
{
    if lists > 0 && off + 4 <= b.len() {
        lemma_skip_one_more(b, off + 4 + 4 * bytes::u32_at(b, off), (lists - 1) as nat);
    } else if lists == 0 && off + 4 <= b.len() {
        let next = off + 4 + 4 * bytes::u32_at(b, off);
        assert(graph::skip_lists(b, next, 0) == next);
    }
}

/// A field is written with its own id, options, number of documents, dimension and graph,
/// and with the codes of its rows by the levels for their filled-up length.
pub proof fn fields_are_written_with_their_own_parts(
    m: Calc,
    w: WideCalc,
    f: VectorFieldBundle,
)
    ensures
        file::bundle_bytes(m, w, f) == file::field_bytes(
            f.field_id,
            f.options_json@,
            f.num_docs,
            f.options.dimension as u32,
            turboquant::encoded(
                m,
                w,
                f.num_docs as nat,
                f.options.dimension as nat,
                f.flat@,
                codebook::codebook_of(
                    m,
                    w,
                    turboquant::padded_of(f.options.dimension as nat) as usize,
                ),
            ),
            f.graph@,
        ),
{
    reveal(file::bundle_bytes);
}

/// A graph is refused at the first part that its bytes lack: the entry point, its layer, the
/// number of points, the layer counts, or the table of places. Where it has them all it
/// is read.
pub proof fn graphs_are_refused_at_their_first_missing_part(b: Seq<u8>)
    ensures
        ({
            let n = four(b, 5);
            let table = (9 + n) + (if (9 + n) % 4 == 0 {
                0int
            } else {
                4 - (9 + n) % 4
            });
            let len = b.len() as int;
            let error = graph::graph_error(b);
            let cut = |part: Section| Some(VectorError::Truncated(part));
            &&& len < 4 ==> error == cut(Section::U32)
            &&& len == 4 ==> error == Some(VectorError::TruncatedEntryLayer)
            &&& 4 < len < 9 ==> error == cut(Section::U32)
            &&& 9 <= len < 9 + n ==> error == cut(Section::LayerCounts)
            &&& 9 <= 9 + n <= len < table + 4 * n ==> error == cut(Section::AdjOffsets)
            &&& 9 <= len && table + 4 * n <= len ==> error is None
        }),
{
    lemma_four(b, 5);
}

} // verus!
