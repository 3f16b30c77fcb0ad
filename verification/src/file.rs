//! The `.vec` file of a segment.
//!
//! The file starts with a magic, a version and the number of fields. Each field is
//! its id, its options, the number of documents, the dimension and the length of a
//! filled-up row, the shifts and the scales of the rotated components, the packed
//! codes, the corrected lengths of the rows, and the packed neighbour graph. Reading
//! a file cuts it up and copies nothing.

use vstd::prelude::*;

use crate::arith;
use crate::arith::{Calc, Op};
use crate::bytes;
use crate::bytes::{
    check_len, get_u32, put_bytes, put_u32, put_u32s, put_u64, read_u32_le, read_u64_le,
    OwnedBytes,
};
use crate::codebook;
use crate::codebook::codebook_for_dim;
use crate::error::{Section, VectorError};
use crate::graph;
use crate::graph::CompactHnswGraph;
use crate::options::VectorOptions;
use crate::rotation;
use crate::turboquant;
use crate::turboquant::{
    encode_flat, packed_bytes, Calibration, Codebook, Codes, EncodedFlat, Levels, TqPlus,
};
use crate::wide;
use crate::wide::{WideCalc, WideOp};

verus! {

/// What the file starts with.
pub open spec fn magic() -> Seq<u8> {
    seq![0x54u8, 0x4e, 0x56, 0x59, 0x56, 0x45, 0x43, 0x34]
}

/// The version that is written.
pub const VERSION: u32 = 4;

/// The bytes that the file starts with: `TNVYVEC4`.
fn magic_bytes() -> (r: [u8; 8])
    ensures
        r@ == magic(),
{
    let r: [u8; 8] = [0x54, 0x4e, 0x56, 0x59, 0x56, 0x45, 0x43, 0x34];
    assert(r@ =~= magic());
    r
}

// ---------------------------------------------------------------------------
// Writing
// ---------------------------------------------------------------------------

/// A field as it is handed over for writing.
pub struct VectorFieldBundle {
    /// Schema field id.
    pub field_id: u32,
    /// Field options.
    pub options: VectorOptions,
    /// The options as they are stored.
    pub options_json: Vec<u8>,
    /// Number of documents.
    pub num_docs: u32,
    /// Row-major components.
    pub flat: Vec<u32>,
    /// The neighbour graph.
    pub graph: CompactHnswGraph,
}

/// A field up to its codes.
pub open spec fn field_head_bytes(
    field_id: u32,
    options: Seq<u8>,
    num_docs: u32,
    dim: u32,
    padded: u32,
) -> Seq<u8> {
    bytes::u32_bytes(field_id) + bytes::u32_bytes(options.len() as u32) + options
        + bytes::u32_bytes(num_docs) + bytes::u32_bytes(dim) + bytes::u32_bytes(padded)
}

/// The codes of a field.
pub open spec fn codes_bytes(c: Codes) -> Seq<u8> {
    bytes::u32s_bytes(c.tqplus.shift) + bytes::u32s_bytes(c.tqplus.scale) + c.packed
        + bytes::u32s_bytes(c.renorm)
}

/// A field.
pub open spec fn field_bytes(
    field_id: u32,
    options: Seq<u8>,
    num_docs: u32,
    dim: u32,
    c: Codes,
    graph: Seq<u8>,
) -> Seq<u8> {
    field_head_bytes(field_id, options, num_docs, dim, c.padded as u32) + codes_bytes(c)
        + bytes::u64_bytes(graph.len() as u64) + graph
}

/// The levels of a field's codes.
pub open spec fn field_levels(m: Calc, w: WideCalc, options: VectorOptions) -> Levels {
    codebook::codebook_of(m, w, turboquant::padded_of(options.dimension as nat) as usize)
}

/// The codes of a field's rows.
pub open spec fn bundle_codes(
    m: Calc,
    w: WideCalc,
    f: VectorFieldBundle,
) -> Codes {
    turboquant::encoded(
        m,
        w,
        f.num_docs as nat,
        f.options.dimension as nat,
        f.flat@,
        field_levels(m, w, f.options),
    )
}

/// A field as it is written.
#[verifier::opaque]
pub open spec fn bundle_bytes(
    m: Calc,
    w: WideCalc,
    f: VectorFieldBundle,
) -> Seq<u8> {
    field_bytes(
        f.field_id,
        f.options_json@,
        f.num_docs,
        f.options.dimension as u32,
        bundle_codes(m, w, f),
        f.graph@,
    )
}

/// The first `n` fields as they are written.
pub open spec fn bundles_bytes(
    m: Calc,
    w: WideCalc,
    fields: Seq<VectorFieldBundle>,
    n: nat,
) -> Seq<u8>
    decreases n,
{
    if n == 0 {
        Seq::empty()
    } else {
        bundles_bytes(m, w, fields, (n - 1) as nat) + bundle_bytes(m, w, fields[n - 1])
    }
}

/// What stands before the first field.
pub open spec fn file_head_bytes(n: nat) -> Seq<u8> {
    magic() + bytes::u32_bytes(VERSION) + bytes::u32_bytes(n as u32)
}

/// A file as it is written.
pub open spec fn vec_file(
    m: Calc,
    w: WideCalc,
    fields: Seq<VectorFieldBundle>,
) -> Seq<u8> {
    file_head_bytes(fields.len()) + bundles_bytes(m, w, fields, fields.len())
}

/// Whether a field's rows can be encoded: there is a row of the right dimension for
/// each document, and a rotation for them.
pub open spec fn encodable(f: VectorFieldBundle) -> bool {
    let padded = turboquant::padded_of(f.options.dimension as nat);
    &&& f.flat@.len() == f.num_docs * f.options.dimension
    &&& turboquant::paddable(f.options.dimension as int)
    &&& f.num_docs > 0 ==> rotation::has_rotation(padded as int)
}

/// Appends a field up to its codes.
fn put_head(
    out: &mut Vec<u8>,
    field_id: u32,
    options: &Vec<u8>,
    num_docs: u32,
    dim: u32,
    padded: u32,
)
    ensures
        final(out)@ == old(out)@ + field_head_bytes(field_id, options@, num_docs, dim, padded),
{
    put_u32(out, field_id);
    put_u32(out, options.len() as u32);
    put_bytes(out, options.as_slice());
    put_u32(out, num_docs);
    put_u32(out, dim);
    put_u32(out, padded);
    assert(out@ =~= old(out)@ + field_head_bytes(field_id, options@, num_docs, dim, padded));
}

/// Appends the codes of a field.
fn put_codes(out: &mut Vec<u8>, encoded: &EncodedFlat)
    ensures
        final(out)@ == old(out)@ + codes_bytes(encoded@),
{
    put_u32s(out, encoded.tqplus.shift.as_slice());
    put_u32s(out, encoded.tqplus.scale.as_slice());
    put_bytes(out, encoded.packed.as_slice());
    put_u32s(out, encoded.renorm.as_slice());
    assert(out@ =~= old(out)@ + codes_bytes(encoded@));
}

/// Appends the graph of a field.
fn put_graph(out: &mut Vec<u8>, graph: &CompactHnswGraph)
    ensures
        final(out)@ == old(out)@ + (bytes::u64_bytes(graph@.len() as u64) + graph@),
{
    let graph_raw: Vec<u8> = graph.serialize();
    put_u64(out, graph_raw.len() as u64);
    put_bytes(out, graph_raw.as_slice());
    assert(out@ =~= old(out)@ + (bytes::u64_bytes(graph@.len() as u64) + graph@));
}

/// Appends a field.
fn put_bundle<A: Fn(Op, u32, u32) -> u32, W: Fn(WideOp, u64, u64) -> u64>(
    arith: &A,
    wide: &W,
    out: &mut Vec<u8>,
    f: &VectorFieldBundle,
)
    requires
        arith::is_arithmetic(*arith),
        wide::is_arithmetic(*wide),
        encodable(*f),
    ensures
        final(out)@ == old(out)@ + bundle_bytes(
            arith::calc(*arith),
            wide::calc(*wide),
            *f,
        ),
{
    let encoded: EncodedFlat = encode_flat(
        arith,
        wide,
        f.num_docs as usize,
        f.options.dimension,
        f.flat.as_slice(),
    );
    let ghost c = encoded@;
    put_head(
        out,
        f.field_id,
        &f.options_json,
        f.num_docs,
        f.options.dimension as u32,
        encoded.padded_dim as u32,
    );
    put_codes(out, &encoded);
    put_graph(out, &f.graph);
    proof {
        reveal(bundle_bytes);
        let head = field_head_bytes(
            f.field_id,
            f.options_json@,
            f.num_docs,
            f.options.dimension as u32,
            c.padded as u32,
        );
        let body = codes_bytes(c);
        let size = bytes::u64_bytes(f.graph@.len() as u64);
        lemma_append_three(old(out)@, head, body, size, f.graph@);
    }
}

proof fn lemma_append_three(
    start: Seq<u8>,
    head: Seq<u8>,
    body: Seq<u8>,
    size: Seq<u8>,
    tail: Seq<u8>,
)
    ensures
        start + head + body + (size + tail) == start + (head + body + size + tail),
{
    assert(start + head + body + (size + tail) =~= start + (head + body + size + tail));
}

/// The bytes of a file with the given fields.
pub fn write_vec_file<
    A: Fn(Op, u32, u32) -> u32,
    W: Fn(WideOp, u64, u64) -> u64,
>(arith: &A, wide: &W, fields: &Vec<VectorFieldBundle>) -> (r: Vec<u8>)
    requires
        arith::is_arithmetic(*arith),
        wide::is_arithmetic(*wide),
        forall|i: int| 0 <= i < fields@.len() ==> encodable(#[trigger] fields@[i]),
    ensures
        r@ == vec_file(arith::calc(*arith), wide::calc(*wide), fields@),
{
    let ghost m = arith::calc(*arith);
    let ghost w = wide::calc(*wide);
    let n: usize = fields.len();
    let mut out: Vec<u8> = Vec::new();
    let start: [u8; 8] = magic_bytes();
    put_bytes(&mut out, start.as_slice());
    put_u32(&mut out, VERSION);
    put_u32(&mut out, n as u32);
    let ghost head = file_head_bytes(n as nat);
    assert(out@ =~= head + bundles_bytes(m, w, fields@, 0));
    for i in 0..n
        invariant
            arith::is_arithmetic(*arith),
            wide::is_arithmetic(*wide),
            m == arith::calc(*arith),
            w == wide::calc(*wide),
            n == fields@.len(),
            forall|i: int| 0 <= i < fields@.len() ==> encodable(#[trigger] fields@[i]),
            out@ == head + bundles_bytes(m, w, fields@, i as nat),
    {
        let f = &fields[i];
        put_bundle(arith, wide, &mut out, f);
        proof {
            let done = bundles_bytes(m, w, fields@, i as nat);
            let next = bundle_bytes(m, w, fields@[i as int]);
            assert(head + done + next =~= head + (done + next));
        }
    }
    out
}

// ---------------------------------------------------------------------------
// What a file holds
// ---------------------------------------------------------------------------

/// Bytes of the stored options of the field at `pos`.
pub open spec fn options_len(b: Seq<u8>, pos: int) -> int {
    bytes::u32_at(b, pos + 4) as int
}

/// The stored options of the field at `pos`.
pub open spec fn options_part(b: Seq<u8>, pos: int) -> Seq<u8> {
    b.subrange(pos + 8, sizes_at(b, pos))
}

/// Where the three sizes of the field at `pos` stand.
pub open spec fn sizes_at(b: Seq<u8>, pos: int) -> int {
    pos + 8 + options_len(b, pos)
}

/// Number of documents of the field at `pos`.
pub open spec fn docs_of(b: Seq<u8>, pos: int) -> u32 {
    bytes::u32_at(b, sizes_at(b, pos))
}

/// Dimension of the field at `pos`.
pub open spec fn dim_of(b: Seq<u8>, pos: int) -> u32 {
    bytes::u32_at(b, sizes_at(b, pos) + 4)
}

/// Length of a filled-up row of the field at `pos`.
pub open spec fn padded_at(b: Seq<u8>, pos: int) -> u32 {
    bytes::u32_at(b, sizes_at(b, pos) + 8)
}

/// Where the shifts of the field at `pos` start.
pub open spec fn shift_at(b: Seq<u8>, pos: int) -> int {
    sizes_at(b, pos) + 12
}

/// Where the scales of the field at `pos` start.
pub open spec fn scale_at(b: Seq<u8>, pos: int) -> int {
    shift_at(b, pos) + 4 * padded_at(b, pos)
}

/// Where the packed codes of the field at `pos` start.
pub open spec fn codes_at(b: Seq<u8>, pos: int) -> int {
    scale_at(b, pos) + 4 * padded_at(b, pos)
}

/// Where the corrected lengths of the field at `pos` start.
pub open spec fn renorm_at(b: Seq<u8>, pos: int) -> int {
    codes_at(b, pos) + docs_of(b, pos) * (padded_at(b, pos) / 2)
}

/// Where the size of the graph of the field at `pos` stands.
pub open spec fn graph_len_at(b: Seq<u8>, pos: int) -> int {
    renorm_at(b, pos) + 4 * docs_of(b, pos)
}

/// Where the graph of the field at `pos` starts.
pub open spec fn graph_at(b: Seq<u8>, pos: int) -> int {
    graph_len_at(b, pos) + 8
}

/// Where the field at `pos` ends.
pub open spec fn field_end(b: Seq<u8>, pos: int) -> int {
    graph_at(b, pos) + bytes::u64_at(b, graph_len_at(b, pos))
}

/// Why the bytes at `pos` are no field, if they are none.
#[verifier::opaque]
pub open spec fn field_error(
    b: Seq<u8>,
    pos: int,
    parse: spec_fn(Seq<u8>) -> Option<VectorOptions>,
) -> Option<VectorError> {
    if b.len() < pos + 8 {
        Some(VectorError::Truncated(Section::U32))
    } else if b.len() < sizes_at(b, pos) {
        Some(VectorError::Truncated(Section::Options))
    } else if parse(options_part(b, pos)) is None {
        Some(VectorError::BadOptions)
    } else if b.len() < shift_at(b, pos) {
        Some(VectorError::Truncated(Section::U32))
    } else if b.len() < scale_at(b, pos) {
        Some(VectorError::Truncated(Section::TqplusShift))
    } else if b.len() < codes_at(b, pos) {
        Some(VectorError::Truncated(Section::TqplusScale))
    } else if b.len() < renorm_at(b, pos) {
        Some(VectorError::Truncated(Section::PackedCodes))
    } else if b.len() < graph_len_at(b, pos) {
        Some(VectorError::Truncated(Section::Renorm))
    } else if b.len() < graph_at(b, pos) {
        Some(VectorError::Truncated(Section::U64))
    } else if b.len() < field_end(b, pos) {
        Some(VectorError::Truncated(Section::Graph))
    } else {
        None
    }
}

/// A field as it is found in a file.
#[verifier::ext_equal]
pub struct StoredField {
    pub field_id: u32,
    pub options: VectorOptions,
    pub num_docs: u32,
    pub dimension: u32,
    pub padded: u32,
    pub shift: Seq<u8>,
    pub scale: Seq<u8>,
    pub codes: Seq<u8>,
    pub renorm: Seq<u8>,
    pub graph: Seq<u8>,
}

/// The field at `pos`.
#[verifier::opaque]
pub open spec fn field_at(
    b: Seq<u8>,
    pos: int,
    parse: spec_fn(Seq<u8>) -> Option<VectorOptions>,
) -> StoredField {
    StoredField {
        field_id: bytes::u32_at(b, pos),
        options: parse(options_part(b, pos))->0,
        num_docs: docs_of(b, pos),
        dimension: dim_of(b, pos),
        padded: padded_at(b, pos),
        shift: b.subrange(shift_at(b, pos), scale_at(b, pos)),
        scale: b.subrange(scale_at(b, pos), codes_at(b, pos)),
        codes: b.subrange(codes_at(b, pos), renorm_at(b, pos)),
        renorm: b.subrange(renorm_at(b, pos), graph_len_at(b, pos)),
        graph: b.subrange(graph_at(b, pos), field_end(b, pos)),
    }
}

/// Why the bytes from `pos` on are not `n` fields, if they are not.
pub open spec fn fields_error(
    b: Seq<u8>,
    pos: int,
    n: nat,
    parse: spec_fn(Seq<u8>) -> Option<VectorOptions>,
) -> Option<VectorError>
    decreases n,
{
    if n == 0 {
        None
    } else if field_error(b, pos, parse) is Some {
        field_error(b, pos, parse)
    } else {
        fields_error(b, field_end(b, pos), (n - 1) as nat, parse)
    }
}

/// The `n` fields from `pos` on.
pub open spec fn fields_at(
    b: Seq<u8>,
    pos: int,
    n: nat,
    parse: spec_fn(Seq<u8>) -> Option<VectorOptions>,
) -> Seq<StoredField>
    decreases n,
{
    if n == 0 {
        Seq::empty()
    } else {
        seq![field_at(b, pos, parse)] + fields_at(
            b,
            field_end(b, pos),
            (n - 1) as nat,
            parse,
        )
    }
}

/// Number of fields that a file announces.
pub open spec fn field_count(b: Seq<u8>) -> nat {
    bytes::u32_at(b, 12) as nat
}

/// Why the bytes are no file, if they are none. The version is not looked at.
pub open spec fn file_error(
    b: Seq<u8>,
    parse: spec_fn(Seq<u8>) -> Option<VectorOptions>,
) -> Option<VectorError> {
    if b.len() < 8 {
        Some(VectorError::Truncated(Section::Magic))
    } else if b.take(8) != magic() {
        Some(VectorError::UnsupportedFormat)
    } else if b.len() < 16 {
        Some(VectorError::Truncated(Section::U32))
    } else {
        fields_error(b, 16, field_count(b), parse)
    }
}

/// The fields of a file.
pub open spec fn file_fields(
    b: Seq<u8>,
    parse: spec_fn(Seq<u8>) -> Option<VectorOptions>,
) -> Seq<StoredField> {
    fields_at(b, 16, field_count(b), parse)
}

// ---------------------------------------------------------------------------
// Reading
// ---------------------------------------------------------------------------

/// A field of a file, its parts left in the file's buffer.
pub struct LazyVectorField {
    field_id: u32,
    options: VectorOptions,
    num_docs: u32,
    dimension: u32,
    padded_dim: u32,
    shift: OwnedBytes,
    scale: OwnedBytes,
    codes: OwnedBytes,
    renorm: OwnedBytes,
    graph: OwnedBytes,
}

impl View for LazyVectorField {
    type V = StoredField;

    closed spec fn view(&self) -> StoredField {
        StoredField {
            field_id: self.field_id,
            options: self.options,
            num_docs: self.num_docs,
            dimension: self.dimension,
            padded: self.padded_dim,
            shift: self.shift@,
            scale: self.scale@,
            codes: self.codes@,
            renorm: self.renorm@,
            graph: self.graph@,
        }
    }
}

/// Whether the parts of a field have the lengths that its sizes ask for.
pub open spec fn well_sized(f: StoredField) -> bool {
    &&& f.shift.len() == 4 * f.padded
    &&& f.scale.len() == 4 * f.padded
    &&& f.codes.len() == f.num_docs * (f.padded / 2)
    &&& f.renorm.len() == 4 * f.num_docs
}

/// The integers that a run of bytes holds.
pub open spec fn words(b: Seq<u8>) -> Seq<u32> {
    bytes::u32s_at(b, 0, b.len() / 4)
}

/// Reads a run of `n` numbers.
pub fn f32_slice_from_bytes(buf: &[u8], n: usize) -> (r: Result<Vec<u32>, VectorError>)
    ensures
        buf@.len() == 4 * n ==> r is Ok && r->Ok_0@ == words(buf@),
        buf@.len() != 4 * n ==> r == Err::<Vec<u32>, VectorError>(
            VectorError::ComponentLengthMismatch,
        ),
{
    if buf.len() % 4 != 0 || buf.len() / 4 != n {
        return Err(VectorError::ComponentLengthMismatch);
    }
    assert(buf.len() == buf@.len());
    let mut out: Vec<u32> = Vec::new();
    for i in 0..n
        invariant
            buf@.len() == 4 * n,
            buf@.len() <= usize::MAX,
            out@.len() == i,
            forall|k: int| 0 <= k < i ==> #[trigger] out@[k] == words(buf@)[k],
    {
        out.push(get_u32(buf, 4 * i));
    }
    assert(out@ =~= words(buf@));
    Ok(out)
}

impl LazyVectorField {
    #[verifier::type_invariant]
    spec fn sized(&self) -> bool {
        &&& self.shift@.len() == 4 * self.padded_dim
        &&& self.scale@.len() == 4 * self.padded_dim
        &&& self.codes@.len() == self.num_docs * (self.padded_dim / 2)
        &&& self.renorm@.len() == 4 * self.num_docs
    }

    /// Schema field id.
    pub fn field_id(&self) -> (r: u32)
        ensures
            r == self@.field_id,
    {
        self.field_id
    }

    /// Field options.
    pub fn options(&self) -> (r: VectorOptions)
        ensures
            r == self@.options,
    {
        self.options
    }

    /// Number of documents.
    pub fn num_docs(&self) -> (r: u32)
        ensures
            r == self@.num_docs,
    {
        self.num_docs
    }

    /// Dimension of the rows.
    pub fn dimension(&self) -> (r: usize)
        ensures
            r == self@.dimension,
    {
        self.dimension as usize
    }

    /// Length of a filled-up row.
    pub fn padded_dim(&self) -> (r: usize)
        ensures
            r == self@.padded,
    {
        self.padded_dim as usize
    }

    /// The packed codes of all rows.
    pub fn packed_codes(&self) -> (r: &[u8])
        ensures
            r@ == self@.codes,
            well_sized(self@),
    {
        proof {
            use_type_invariant(self);
        }
        self.codes.as_slice()
    }

    /// Bytes of a row of packed codes.
    pub fn packed_stride(&self) -> (r: usize)
        ensures
            r == self@.padded / 2,
    {
        packed_bytes(self.padded_dim as usize)
    }

    /// The shifts and scales.
    pub fn parse_tqplus(&self) -> (r: Result<TqPlus, VectorError>)
        ensures
            r is Ok,
            r->Ok_0@ == (Calibration { shift: words(self@.shift), scale: words(self@.scale) }),
            well_sized(self@),
    {
        proof {
            use_type_invariant(self);
        }
        let padded: usize = self.padded_dim as usize;
        match f32_slice_from_bytes(self.shift.as_slice(), padded) {
            Ok(shift) => match f32_slice_from_bytes(self.scale.as_slice(), padded) {
                Ok(scale) => Ok(TqPlus { shift, scale }),
                Err(e) => Err(e),
            },
            Err(e) => Err(e),
        }
    }

    /// The corrected lengths of the rows.
    pub fn parse_renorm(&self) -> (r: Result<Vec<u32>, VectorError>)
        ensures
            r is Ok,
            r->Ok_0@ == words(self@.renorm),
            well_sized(self@),
    {
        proof {
            use_type_invariant(self);
        }
        f32_slice_from_bytes(self.renorm.as_slice(), self.num_docs as usize)
    }

    /// The levels of the codes.
    pub fn codebook<A: Fn(Op, u32, u32) -> u32, W: Fn(WideOp, u64, u64) -> u64>(
        &self,
        arith: &A,
        wide: &W,
    ) -> (r: Codebook)
        requires
            arith::is_arithmetic(*arith),
            wide::is_arithmetic(*wide),
        ensures
            r@ == codebook::codebook_of(
                arith::calc(*arith),
                wide::calc(*wide),
                self@.padded as usize,
            ),
    {
        codebook_for_dim(arith, wide, self.padded_dim())
    }

    /// The neighbour graph.
    pub fn parse_graph(&self) -> (r: Result<CompactHnswGraph, VectorError>)
        ensures
            match r {
                Ok(g) => graph::graph_error(self@.graph) is None && g@ == self@.graph,
                Err(e) => graph::graph_error(self@.graph) == Some(e),
            },
    {
        CompactHnswGraph::from_bytes(self.graph.share())
    }
}

/// Whether reading options gives the same answer for the same bytes each time.
pub open spec fn is_parser<P: Fn(&[u8]) -> Option<VectorOptions>>(p: P) -> bool {
    &&& forall|b: &[u8]| #[trigger] p.requires((b,))
    &&& forall|b1: &[u8], b2: &[u8], r1: Option<VectorOptions>, r2: Option<VectorOptions>|
        #[trigger]
        p.ensures((b1,), r1) && #[trigger] p.ensures((b2,), r2) && b1@ == b2@ ==> r1 == r2
}

/// The options that bytes are read as.
pub open spec fn parsed<P: Fn(&[u8]) -> Option<VectorOptions>>(p: P) -> spec_fn(Seq<u8>) -> Option<
    VectorOptions,
> {
    |b: Seq<u8>|
        {
            let (x, r) = choose|x: &[u8], r: Option<VectorOptions>|
                x@ == b && #[trigger] p.ensures((x,), r);
            r
        }
}

/// Cuts off the part of `need` bytes at `pos` and moves `pos` behind it.
fn cut(raw: &OwnedBytes, pos: &mut usize, need: u64, what: Section) -> (r: Result<
    OwnedBytes,
    VectorError,
>)
    requires
        *old(pos) <= raw@.len(),
    ensures
        match r {
            Ok(part) => *old(pos) + need <= raw@.len() && *final(pos) == *old(pos) + need && part@
                == raw@.subrange(*old(pos) as int, *old(pos) + need),
            Err(e) => *old(pos) + need > raw@.len() && e == VectorError::Truncated(what),
        },
{
    let room: usize = raw.len() - *pos;
    if need > room as u64 {
        return Err(VectorError::Truncated(what));
    }
    let start: usize = *pos;
    let end: usize = start + need as usize;
    *pos = end;
    Ok(raw.slice(start, end))
}

/// Reads the stored options at `pos` and moves `pos` behind them.
fn read_options<P: Fn(&[u8]) -> Option<VectorOptions>>(
    raw: &OwnedBytes,
    pos: &mut usize,
    parse: &P,
) -> (r: Result<(u32, VectorOptions), VectorError>)
    requires
        *old(pos) <= raw@.len(),
        is_parser(*parse),
    ensures
        match r {
            Ok(v) => raw@.len() >= sizes_at(raw@, *old(pos) as int) && *final(pos) == sizes_at(
                raw@,
                *old(pos) as int,
            ) && v.0 == bytes::u32_at(raw@, *old(pos) as int) && parsed(*parse)(
                options_part(raw@, *old(pos) as int),
            ) == Some(v.1),
            Err(e) => field_error(raw@, *old(pos) as int, parsed(*parse)) == Some(e),
        },
{
    proof {
        reveal(field_error);
    }
    let buf = raw.as_slice();
    let ghost start = *pos as int;
    let field_id: u32 = match read_u32_le(buf, pos) {
        Ok(v) => v,
        Err(e) => return Err(e),
    };
    let opt_len: u32 = match read_u32_le(buf, pos) {
        Ok(v) => v,
        Err(e) => return Err(e),
    };
    let json: OwnedBytes = match cut(raw, pos, opt_len as u64, Section::Options) {
        Ok(v) => v,
        Err(e) => return Err(e),
    };
    assert(json@ =~= options_part(raw@, start));
    match parse(json.as_slice()) {
        Some(options) => Ok((field_id, options)),
        None => Err(VectorError::BadOptions),
    }
}

/// Reads the field at `pos` and moves `pos` behind it.
fn read_field<P: Fn(&[u8]) -> Option<VectorOptions>>(
    raw: &OwnedBytes,
    pos: &mut usize,
    parse: &P,
) -> (r: Result<LazyVectorField, VectorError>)
    requires
        *old(pos) <= raw@.len(),
        is_parser(*parse),
    ensures
        match r {
            Ok(f) => field_error(raw@, *old(pos) as int, parsed(*parse)) is None && f@ == field_at(
                raw@,
                *old(pos) as int,
                parsed(*parse),
            ) && *final(pos) == field_end(raw@, *old(pos) as int) && *final(pos) <= raw@.len(),
            Err(e) => field_error(raw@, *old(pos) as int, parsed(*parse)) == Some(e),
        },
{
    proof {
        reveal(field_error);
        reveal(field_at);
    }
    let ghost start = *pos as int;
    let (field_id, options) = match read_options(raw, pos, parse) {
        Ok(v) => v,
        Err(e) => return Err(e),
    };
    let buf = raw.as_slice();
    let num_docs: u32 = match read_u32_le(buf, pos) {
        Ok(v) => v,
        Err(e) => return Err(e),
    };
    let dimension: u32 = match read_u32_le(buf, pos) {
        Ok(v) => v,
        Err(e) => return Err(e),
    };
    let padded_dim: u32 = match read_u32_le(buf, pos) {
        Ok(v) => v,
        Err(e) => return Err(e),
    };
    assert(*pos == shift_at(raw@, start));
    let shift: OwnedBytes = match cut(raw, pos, 4 * padded_dim as u64, Section::TqplusShift) {
        Ok(v) => v,
        Err(e) => return Err(e),
    };
    let scale: OwnedBytes = match cut(raw, pos, 4 * padded_dim as u64, Section::TqplusScale) {
        Ok(v) => v,
        Err(e) => return Err(e),
    };
    assert(num_docs * (padded_dim / 2) <= u64::MAX) by (nonlinear_arith)
        requires
            num_docs <= u32::MAX,
            padded_dim / 2 <= u32::MAX,
    ;
    let codes: OwnedBytes = match cut(
        raw,
        pos,
        num_docs as u64 * (padded_dim / 2) as u64,
        Section::PackedCodes,
    ) {
        Ok(v) => v,
        Err(e) => return Err(e),
    };
    let renorm: OwnedBytes = match cut(raw, pos, 4 * num_docs as u64, Section::Renorm) {
        Ok(v) => v,
        Err(e) => return Err(e),
    };
    let graph_len: u64 = match read_u64_le(buf, pos) {
        Ok(v) => v,
        Err(e) => return Err(e),
    };
    let graph: OwnedBytes = match cut(raw, pos, graph_len, Section::Graph) {
        Ok(v) => v,
        Err(e) => return Err(e),
    };
    let f = LazyVectorField {
        field_id,
        options,
        num_docs,
        dimension,
        padded_dim,
        shift,
        scale,
        codes,
        renorm,
        graph,
    };
    assert(f@ =~= field_at(raw@, start, parsed(*parse)));
    Ok(f)
}

/// The fields of a file.
pub open spec fn views(fields: Seq<LazyVectorField>) -> Seq<StoredField> {
    fields.map_values(|f: LazyVectorField| f@)
}

/// Reads a file. Stored options are handed to `parse`.
pub fn read_vec_file_lazy<P: Fn(&[u8]) -> Option<VectorOptions>>(
    data: OwnedBytes,
    parse: &P,
) -> (r: Result<Vec<LazyVectorField>, VectorError>)
    requires
        is_parser(*parse),
    ensures
        match r {
            Ok(v) => file_error(data@, parsed(*parse)) is None && views(v@) == file_fields(
                data@,
                parsed(*parse),
            ),
            Err(e) => file_error(data@, parsed(*parse)) == Some(e),
        },
{
    let ghost p = parsed(*parse);
    let buf = data.as_slice();
    let ghost b = data@;
    assert(buf.len() == buf@.len());
    match check_len(buf, 0, 8, Section::Magic) {
        Ok(()) => {},
        Err(e) => return Err(e),
    }
    let start: [u8; 8] = magic_bytes();
    for i in 0..8usize
        invariant
            start@ == magic(),
            data@ == b,
            buf@ == b,
            b.len() >= 8,
            forall|k: int| 0 <= k < i ==> #[trigger] b[k] == magic()[k],
    {
        if buf[i] != start[i] {
            assert(b.take(8)[i as int] != magic()[i as int]);
            return Err(VectorError::UnsupportedFormat);
        }
    }
    assert(b.take(8) =~= magic());
    let mut pos: usize = 8;
    let _version: u32 = match read_u32_le(buf, &mut pos) {
        Ok(v) => v,
        Err(e) => return Err(e),
    };
    let n_fields: u32 = match read_u32_le(buf, &mut pos) {
        Ok(v) => v,
        Err(e) => return Err(e),
    };
    let mut out: Vec<LazyVectorField> = Vec::new();
    assert(views(out@) + fields_at(b, 16, n_fields as nat, p) =~= file_fields(b, p));
    for i in 0..n_fields
        invariant
            is_parser(*parse),
            p == parsed(*parse),
            data@ == b,
            pos <= b.len(),
            file_error(b, p) == fields_error(b, pos as int, (n_fields - i) as nat, p),
            views(out@) + fields_at(b, pos as int, (n_fields - i) as nat, p) == file_fields(b, p),
    {
        let ghost at = pos as int;
        let f: LazyVectorField = match read_field(&data, &mut pos, parse) {
            Ok(f) => f,
            Err(e) => return Err(e),
        };
        let ghost before = views(out@);
        out.push(f);
        proof {
            let rest = fields_at(b, pos as int, (n_fields - i - 1) as nat, p);
            assert(views(out@) =~= before.push(field_at(b, at, p)));
            assert(views(out@) + rest =~= before + (seq![field_at(b, at, p)] + rest));
        }
    }
    assert(views(out@) =~= file_fields(b, p));
    Ok(out)
}

} // verus!
