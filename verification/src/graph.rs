//! The neighbour graph in its packed form.
//!
//! A packed graph is one run of bytes: the entry point (4 bytes), its layer
//! (1 byte), the number of points (4 bytes), one layer count per point, zeros up
//! to a multiple of four, one 4-byte offset per point, and the neighbour lists.
//! A point's lists stand one behind the other from its offset on, lowest layer
//! first, each as a 4-byte count followed by that many 4-byte ids.

use vstd::prelude::*;

use crate::bytes;
use crate::bytes::{
    check_len, get_u32, put_bytes, put_u32, put_u32s, read_u32_le, OwnedBytes,
};
use crate::error::{Section, VectorError};

verus! {

// ---------------------------------------------------------------------------
// What a packed graph holds
// ---------------------------------------------------------------------------

/// The next multiple of four.
pub open spec fn aligned(pos: int) -> int {
    (pos + 3) / 4 * 4
}

/// The point that a search starts from.
pub open spec fn entry_point_of(b: Seq<u8>) -> u32 {
    bytes::u32_at(b, 0)
}

/// The highest layer of the entry point.
pub open spec fn entry_layer_of(b: Seq<u8>) -> u8 {
    b[4]
}

/// The number of points.
pub open spec fn num_points_of(b: Seq<u8>) -> u32 {
    bytes::u32_at(b, 5)
}

/// Where the table of offsets starts.
pub open spec fn offsets_start(b: Seq<u8>) -> int {
    aligned(9 + num_points_of(b))
}

/// Where the neighbour lists start.
pub open spec fn lists_start(b: Seq<u8>) -> int {
    offsets_start(b) + 4 * num_points_of(b)
}

/// Why the bytes are no packed graph, if they are none.
pub open spec fn graph_error(b: Seq<u8>) -> Option<VectorError> {
    if b.len() < 4 {
        Some(VectorError::Truncated(Section::U32))
    } else if b.len() < 5 {
        Some(VectorError::TruncatedEntryLayer)
    } else if b.len() < 9 {
        Some(VectorError::Truncated(Section::U32))
    } else if b.len() < 9 + num_points_of(b) {
        Some(VectorError::Truncated(Section::LayerCounts))
    } else if b.len() < lists_start(b) {
        Some(VectorError::Truncated(Section::AdjOffsets))
    } else {
        None
    }
}

/// Whether the bytes hold the header and both tables of a packed graph.
pub open spec fn is_graph(b: Seq<u8>) -> bool {
    graph_error(b) is None
}

/// The list that starts at `off`, empty if it does not end within the bytes.
pub open spec fn list_at(b: Seq<u8>, off: int) -> Seq<u32> {
    if off + 4 <= b.len() && off + 4 + 4 * bytes::u32_at(b, off) <= b.len() {
        bytes::u32s_at(b, off + 4, bytes::u32_at(b, off) as nat)
    } else {
        Seq::empty()
    }
}

/// Where the list stands that follows `lists` others from `off` on. Where a
/// count lies outside the bytes, so does the result.
pub open spec fn skip_lists(b: Seq<u8>, off: int, lists: nat) -> int
    decreases lists,
{
    if lists == 0 || off + 4 > b.len() {
        off
    } else {
        skip_lists(b, off + 4 + 4 * bytes::u32_at(b, off), (lists - 1) as nat)
    }
}

/// Where the lists of a point start.
pub open spec fn point_start(b: Seq<u8>, point: int) -> int {
    lists_start(b) + bytes::u32_at(b, offsets_start(b) + 4 * point)
}

/// The neighbours of a point on a layer; none where the graph has no such point
/// or the point no such layer.
pub open spec fn neighbor_ids(b: Seq<u8>, point: u32, layer: nat) -> Seq<u32> {
    if point < num_points_of(b) && layer < b[9 + point] {
        list_at(b, skip_lists(b, point_start(b, point as int), layer))
    } else {
        Seq::empty()
    }
}

// ---------------------------------------------------------------------------
// Packing
// ---------------------------------------------------------------------------

/// The neighbour lists of a point, lowest layer first.
pub open spec fn layers_of(adjacency: Seq<Seq<Seq<u32>>>, point: int) -> Seq<Seq<u32>> {
    if point < adjacency.len() {
        adjacency[point]
    } else {
        Seq::empty()
    }
}

/// A list: its length, then its ids.
pub open spec fn list_bytes(ids: Seq<u32>) -> Seq<u8> {
    bytes::u32_bytes(ids.len() as u32) + bytes::u32s_bytes(ids)
}

/// The lists of one point.
pub open spec fn layers_bytes(layers: Seq<Seq<u32>>) -> Seq<u8>
    decreases layers.len(),
{
    if layers.len() == 0 {
        Seq::empty()
    } else {
        layers_bytes(layers.drop_last()) + list_bytes(layers.last())
    }
}

/// The lists of the first `n` points.
pub open spec fn lists_bytes(adjacency: Seq<Seq<Seq<u32>>>, n: nat) -> Seq<u8>
    decreases n,
{
    if n == 0 {
        Seq::empty()
    } else {
        lists_bytes(adjacency, (n - 1) as nat) + layers_bytes(
            layers_of(adjacency, n - 1),
        )
    }
}

/// The layer count of each of the first `n` points, kept to one byte.
pub open spec fn layer_counts_bytes(adjacency: Seq<Seq<Seq<u32>>>, n: nat) -> Seq<u8> {
    Seq::new(n, |i: int| layers_of(adjacency, i).len() as u8)
}

/// Where the lists of each of the first `n` points start, kept to four bytes.
pub open spec fn list_offsets(adjacency: Seq<Seq<Seq<u32>>>, n: nat) -> Seq<u32> {
    Seq::new(n, |i: int| lists_bytes(adjacency, i as nat).len() as u32)
}

/// The bytes in front of the offset table, without the zeros.
pub open spec fn head_bytes(
    entry_point: u32,
    entry_layer: u8,
    num_points: u32,
    adjacency: Seq<Seq<Seq<u32>>>,
) -> Seq<u8> {
    bytes::u32_bytes(entry_point) + seq![entry_layer] + bytes::u32_bytes(num_points)
        + layer_counts_bytes(adjacency, num_points as nat)
}

/// `n` zero bytes.
pub open spec fn zeros(n: int) -> Seq<u8> {
    Seq::new(n as nat, |i: int| 0u8)
}

/// The packed form of a graph.
pub open spec fn packed_graph(
    entry_point: u32,
    entry_layer: u8,
    num_points: u32,
    adjacency: Seq<Seq<Seq<u32>>>,
) -> Seq<u8> {
    head_bytes(entry_point, entry_layer, num_points, adjacency) + zeros(
        aligned(9 + num_points) - (9 + num_points),
    ) + bytes::u32s_bytes(list_offsets(adjacency, num_points as nat)) + lists_bytes(
        adjacency,
        num_points as nat,
    )
}

/// The bytes in front of the offset table, zeros included.
spec fn padded_head(
    entry_point: u32,
    entry_layer: u8,
    num_points: u32,
    adjacency: Seq<Seq<Seq<u32>>>,
) -> Seq<u8> {
    head_bytes(entry_point, entry_layer, num_points, adjacency) + zeros(
        aligned(9 + num_points) - (9 + num_points),
    )
}

proof fn lemma_packed_parts(
    entry_point: u32,
    entry_layer: u8,
    num_points: u32,
    adjacency: Seq<Seq<Seq<u32>>>,
)
    ensures
        ({
            let b = packed_graph(entry_point, entry_layer, num_points, adjacency);
            let n = num_points as nat;
            let offsets = aligned(9 + n as int);
            let lists = offsets + 4 * n;
            &&& is_graph(b)
            &&& entry_point_of(b) == entry_point
            &&& entry_layer_of(b) == entry_layer
            &&& num_points_of(b) == num_points
            &&& offsets_start(b) == offsets
            &&& lists_start(b) == lists
            &&& b.len() == lists + lists_bytes(adjacency, n).len()
            &&& forall|i: int|
                0 <= i < n ==> b[9 + i] == #[trigger] layers_of(adjacency, i).len() as u8
            &&& b.subrange(offsets, lists) == bytes::u32s_bytes(list_offsets(adjacency, n))
            &&& b.subrange(lists, b.len() as int) == lists_bytes(adjacency, n)
        }),
{
    let b = packed_graph(entry_point, entry_layer, num_points, adjacency);
    let n = num_points as nat;
    let counts = layer_counts_bytes(adjacency, n);
    let head = head_bytes(entry_point, entry_layer, num_points, adjacency);
    let padded = padded_head(entry_point, entry_layer, num_points, adjacency);
    let table = bytes::u32s_bytes(list_offsets(adjacency, n));
    let data = lists_bytes(adjacency, n);
    let offsets = aligned(9 + n as int);
    bytes::lemma_u32s_bytes_len(list_offsets(adjacency, n));
    assert(head.len() == 9 + n);
    assert(padded.len() == offsets);
    assert(b == padded + table + data);
    assert(b.subrange(0, 4) =~= bytes::u32_bytes(entry_point));
    bytes::u32_round_trip(b, 0, entry_point);
    assert(b.subrange(5, 9) =~= bytes::u32_bytes(num_points));
    bytes::u32_round_trip(b, 5, num_points);
    assert(b[4] == entry_layer);
    assert forall|i: int| 0 <= i < n implies b[9 + i] == #[trigger] layers_of(
        adjacency,
        i,
    ).len() as u8 by {
        assert(b[9 + i] == head[9 + i]);
        assert(head[9 + i] == counts[i]);
    }
    assert(b.subrange(offsets, offsets + 4 * n) =~= table);
    assert(b.subrange(offsets + 4 * n, b.len() as int) =~= data);
}

/// A point's list on layer `j` stands behind those of the layers below.
proof fn lemma_list_in_layers(layers: Seq<Seq<u32>>, j: int)
    requires
        0 <= j < layers.len(),
    ensures
        ({
            let from = layers_bytes(layers.take(j)).len() as int;
            let to = from + list_bytes(layers[j]).len();
            &&& layers_bytes(layers.take(j + 1)).len() == to
            &&& to <= layers_bytes(layers).len()
            &&& layers_bytes(layers).subrange(from, to) == list_bytes(layers[j])
        }),
    decreases layers.len(),
{
    let from = layers_bytes(layers.take(j)).len() as int;
    let to = from + list_bytes(layers[j]).len();
    assert(layers.take(j + 1).drop_last() =~= layers.take(j));
    assert(layers.take(j + 1).last() == layers[j]);
    if j + 1 == layers.len() {
        assert(layers.take(j + 1) =~= layers);
        assert(layers.drop_last() =~= layers.take(j));
        assert(layers_bytes(layers).subrange(from, to) =~= list_bytes(layers[j]));
    } else {
        let init = layers.drop_last();
        lemma_list_in_layers(init, j);
        assert(init.take(j) =~= layers.take(j));
        assert(init.take(j + 1) =~= layers.take(j + 1));
        assert(layers_bytes(layers).subrange(from, to) =~= layers_bytes(init).subrange(from, to));
    }
}

/// The lists of a point stand behind those of the points before it.
proof fn lemma_layers_in_lists(adjacency: Seq<Seq<Seq<u32>>>, n: nat, p: int)
    requires
        0 <= p < n,
    ensures
        ({
            let from = lists_bytes(adjacency, p as nat).len() as int;
            let to = from + layers_bytes(layers_of(adjacency, p)).len();
            &&& to <= lists_bytes(adjacency, n).len()
            &&& lists_bytes(adjacency, n).subrange(from, to) == layers_bytes(
                layers_of(adjacency, p),
            )
        }),
    decreases n,
{
    let from = lists_bytes(adjacency, p as nat).len() as int;
    let to = from + layers_bytes(layers_of(adjacency, p)).len();
    let m = (n - 1) as nat;
    if p == m {
        assert(lists_bytes(adjacency, n).subrange(from, to) =~= layers_bytes(
            layers_of(adjacency, p),
        ));
    } else {
        lemma_layers_in_lists(adjacency, m, p);
        assert(lists_bytes(adjacency, n).subrange(from, to) =~= lists_bytes(
            adjacency,
            m,
        ).subrange(from, to));
    }
}

/// What is read of a packed list.
proof fn lemma_list_read(b: Seq<u8>, off: int, ids: Seq<u32>)
    requires
        0 <= off,
        ids.len() <= u32::MAX,
        off + list_bytes(ids).len() <= b.len(),
        b.subrange(off, off + list_bytes(ids).len()) == list_bytes(ids),
    ensures
        list_bytes(ids).len() == 4 + 4 * ids.len(),
        bytes::u32_at(b, off) == ids.len(),
        list_at(b, off) == ids,
{
    bytes::lemma_u32s_bytes_len(ids);
    let s = b.subrange(off, off + list_bytes(ids).len());
    assert(b.subrange(off, off + 4) =~= s.subrange(0, 4));
    assert(s.subrange(0, 4) =~= bytes::u32_bytes(ids.len() as u32));
    bytes::u32_round_trip(b, off, ids.len() as u32);
    assert(b.subrange(off + 4, off + 4 + 4 * ids.len()) =~= s.subrange(4, s.len() as int));
    assert(s.subrange(4, s.len() as int) =~= bytes::u32s_bytes(ids));
    bytes::u32s_round_trip(b, off + 4, ids);
}

proof fn lemma_skip_layers(b: Seq<u8>, start: int, layers: Seq<Seq<u32>>, j: int, k: nat)
    requires
        0 <= start,
        0 <= j,
        j + k < layers.len(),
        start + layers_bytes(layers).len() <= b.len(),
        b.subrange(start, start + layers_bytes(layers).len()) == layers_bytes(layers),
        forall|i: int| j <= i <= j + k ==> #[trigger] layers[i].len() <= u32::MAX,
    ensures
        skip_lists(b, start + layers_bytes(layers.take(j)).len(), k) == start + layers_bytes(
            layers.take(j + k),
        ).len(),
        list_at(b, start + layers_bytes(layers.take(j + k)).len()) == layers[j + k],
    decreases k,
{
    let off = start + layers_bytes(layers.take(j)).len();
    lemma_list_in_layers(layers, j);
    let to = off + list_bytes(layers[j]).len();
    assert(b.subrange(off, to) =~= b.subrange(
        start,
        start + layers_bytes(layers).len(),
    ).subrange(off - start, to - start));
    lemma_list_read(b, off, layers[j]);
    if k > 0 {
        lemma_skip_layers(b, start, layers, j + 1, (k - 1) as nat);
    }
}

pub(crate) proof fn lemma_lists_bytes_grow(adjacency: Seq<Seq<Seq<u32>>>, i: nat, n: nat)
    requires
        i <= n,
    ensures
        lists_bytes(adjacency, i).len() <= lists_bytes(adjacency, n).len(),
    decreases n,
{
    if i < n {
        lemma_lists_bytes_grow(adjacency, i, (n - 1) as nat);
    }
}

proof fn lemma_list_len(layers: Seq<Seq<u32>>, i: int)
    requires
        0 <= i < layers.len(),
    ensures
        layers[i].len() <= layers_bytes(layers).len(),
    decreases layers.len(),
{
    bytes::lemma_u32s_bytes_len(layers.last());
    if i < layers.len() - 1 {
        lemma_list_len(layers.drop_last(), i);
        assert(layers.drop_last()[i] == layers[i]);
    }
}

pub(crate) proof fn lemma_list_within(
    adjacency: Seq<Seq<Seq<u32>>>,
    point: int,
    i: int,
    n: nat,
)
    requires
        0 <= point < n,
        0 <= i < layers_of(adjacency, point).len(),
    ensures
        layers_of(adjacency, point)[i].len() <= lists_bytes(adjacency, n).len(),
{
    lemma_list_len(layers_of(adjacency, point), i);
    lemma_lists_bytes_grow(adjacency, (point + 1) as nat, n);
}

/// A packed graph gives back the neighbour lists it was made of: the list of a
/// layer that the point has, and none for any other layer or point.
///
/// A point's layer count is kept in one byte, and list lengths and list
/// positions in four; a point beyond these is not given back.
pub proof fn neighbors_of_packed_graph(
    entry_point: u32,
    entry_layer: u8,
    num_points: u32,
    adjacency: Seq<Seq<Seq<u32>>>,
    point: u32,
    layer: nat,
)
    requires
        layers_of(adjacency, point as int).len() <= u8::MAX,
        lists_bytes(adjacency, point as nat).len() <= u32::MAX,
        forall|i: int|
            0 <= i <= layer && i < layers_of(adjacency, point as int).len()
                ==> #[trigger] layers_of(adjacency, point as int)[i].len() <= u32::MAX,
    ensures
        neighbor_ids(
            packed_graph(entry_point, entry_layer, num_points, adjacency),
            point,
            layer,
        ) == if point < num_points && layer < layers_of(adjacency, point as int).len() {
            layers_of(adjacency, point as int)[layer as int]
        } else {
            Seq::empty()
        },
{
    let b = packed_graph(entry_point, entry_layer, num_points, adjacency);
    let n = num_points as nat;
    let p = point as int;
    lemma_packed_parts(entry_point, entry_layer, num_points, adjacency);
    if p < n {
        let layers = layers_of(adjacency, p);
        let offsets = list_offsets(adjacency, n);
        assert(b[9 + p] == layers.len());
        bytes::lemma_u32s_bytes_len(offsets);
        bytes::u32s_round_trip(b, offsets_start(b), offsets);
        assert(bytes::u32s_at(b, offsets_start(b), n)[p] == offsets[p]);
        let from = lists_bytes(adjacency, p as nat).len() as int;
        let to = from + layers_bytes(layers).len();
        lemma_layers_in_lists(adjacency, n, p);
        let start = lists_start(b) + from;
        assert(point_start(b, p) == start);
        assert(b.subrange(start, start + layers_bytes(layers).len()) =~= b.subrange(
            lists_start(b),
            b.len() as int,
        ).subrange(from, to));
        if layer < layers.len() {
            assert(layers.take(0) =~= Seq::empty());
            lemma_skip_layers(b, start, layers, 0, layer);
        }
    }
}

/// Packing keeps the entry point, its layer and the number of points, and its
/// result is a graph.
pub proof fn header_of_packed_graph(
    entry_point: u32,
    entry_layer: u8,
    num_points: u32,
    adjacency: Seq<Seq<Seq<u32>>>,
)
    ensures
        ({
            let b = packed_graph(entry_point, entry_layer, num_points, adjacency);
            &&& is_graph(b)
            &&& entry_point_of(b) == entry_point
            &&& entry_layer_of(b) == entry_layer
            &&& num_points_of(b) == num_points
        }),
{
    lemma_packed_parts(entry_point, entry_layer, num_points, adjacency);
}

// ---------------------------------------------------------------------------
// The graph and its neighbour lists
// ---------------------------------------------------------------------------

/// The next multiple of four.
pub fn align4(pos: usize) -> (r: usize)
    requires
        aligned(pos as int) <= usize::MAX,
    ensures
        r == aligned(pos as int),
{
    let rest: usize = pos % 4;
    if rest == 0 {
        pos
    } else {
        pos + (4 - rest)
    }
}

/// Walks a neighbour list in place.
pub struct NeighborIter<'a> {
    bytes: &'a [u8],
    remaining: usize,
}

impl<'a> View for NeighborIter<'a> {
    type V = Seq<u32>;

    /// The ids that are still to come.
    closed spec fn view(&self) -> Seq<u32> {
        bytes::u32s_at(
            self.bytes@,
            0,
            if 4 * self.remaining <= self.bytes@.len() {
                self.remaining as nat
            } else {
                self.bytes@.len() / 4
            },
        )
    }
}

impl<'a> NeighborIter<'a> {
    /// The next id, or `None` at the end of the list.
    pub fn next(&mut self) -> (r: Option<u32>)
        ensures
            old(self)@.len() == 0 ==> r is None && final(self)@ == old(self)@,
            old(self)@.len() > 0 ==> r == Some(old(self)@[0]) && final(self)@ == old(
                self,
            )@.drop_first(),
    {
        if self.remaining == 0 {
            return None;
        }
        if self.bytes.len() < 4 {
            self.remaining = 0;
            assert(self@ =~= old(self)@);
            return None;
        }
        let id: u32 = get_u32(self.bytes, 0);
        let n: usize = self.bytes.len();
        self.bytes = &self.bytes[4..n];
        self.remaining = self.remaining - 1;
        assert(self@ =~= old(self)@.drop_first());
        Some(id)
    }

    /// The ids that are still to come, as a vector.
    pub fn collect(self) -> (r: Vec<u32>)
        ensures
            r@ == self@,
    {
        let ghost all = self@;
        let mut it = self;
        let mut out: Vec<u32> = Vec::new();
        assert(out@ + it@ =~= all);
        loop
            invariant
                all == self@,
                out@ + it@ == all,
            decreases it@.len(),
        {
            match it.next() {
                Some(id) => {
                    out.push(id);
                    assert(out@ + it@ =~= all);
                },
                None => {
                    assert(out@ =~= all);
                    return out;
                },
            }
        }
    }
}

/// A neighbour graph, read in place from its packed form.
pub struct CompactHnswGraph {
    entry_point: u32,
    entry_layer: u8,
    num_points: u32,
    raw: OwnedBytes,
    layer_counts_off: usize,
    adj_offsets_off: usize,
    adj_data_off: usize,
}

impl View for CompactHnswGraph {
    type V = Seq<u8>;

    /// The packed form.
    closed spec fn view(&self) -> Seq<u8> {
        self.raw@
    }
}

impl CompactHnswGraph {
    #[verifier::type_invariant]
    spec fn reads_header(&self) -> bool {
        &&& is_graph(self.raw@)
        &&& self.entry_point == entry_point_of(self.raw@)
        &&& self.entry_layer == entry_layer_of(self.raw@)
        &&& self.num_points == num_points_of(self.raw@)
        &&& self.layer_counts_off == 9
        &&& self.adj_offsets_off == offsets_start(self.raw@)
        &&& self.adj_data_off == lists_start(self.raw@)
    }

    /// Packs a graph given by each point's neighbour lists, lowest layer first.
    /// Points without an entry have no layer.
    pub fn new(
        entry_point: u32,
        entry_layer: u8,
        num_points: u32,
        adjacency: Vec<Vec<Vec<u32>>>,
    ) -> (r: Self)
        ensures
            r@ == packed_graph(entry_point, entry_layer, num_points, adjacency.deep_view()),
    {
        let packed: Vec<u8> = pack_graph(entry_point, entry_layer, num_points, &adjacency);
        proof {
            header_of_packed_graph(entry_point, entry_layer, num_points, adjacency.deep_view());
        }
        match Self::from_bytes(OwnedBytes::new(packed)) {
            Ok(graph) => graph,
            Err(_) => vstd::pervasive::unreached(),
        }
    }

    /// Reads the header of a packed graph and keeps the bytes.
    pub fn from_bytes(raw: OwnedBytes) -> (r: Result<Self, VectorError>)
        ensures
            match r {
                Ok(graph) => is_graph(raw@) && graph@ == raw@,
                Err(e) => graph_error(raw@) == Some(e),
            },
    {
        let buf = raw.as_slice();
        assert(buf.len() == buf@.len());
        let mut pos: usize = 0;
        let entry_point: u32 = match read_u32_le(buf, &mut pos) {
            Ok(v) => v,
            Err(e) => return Err(e),
        };
        if buf.len() <= pos {
            return Err(VectorError::TruncatedEntryLayer);
        }
        let entry_layer: u8 = buf[pos];
        pos = pos + 1;
        let num_points: u32 = match read_u32_le(buf, &mut pos) {
            Ok(v) => v,
            Err(e) => return Err(e),
        };
        match check_len(buf, pos, num_points as usize, Section::LayerCounts) {
            Ok(()) => {},
            Err(e) => return Err(e),
        }
        let layer_counts_off: usize = pos;
        let counts_end: usize = pos + num_points as usize;
        // The table starts at the next multiple of four; `gap` zeros lie before it.
        let gap: usize = (4 - counts_end % 4) % 4;
        let left: usize = buf.len() - counts_end;
        assert(aligned(counts_end as int) == counts_end + gap);
        if left < gap || (left - gap) / 4 < num_points as usize {
            return Err(VectorError::Truncated(Section::AdjOffsets));
        }
        let adj_offsets_off: usize = align4(counts_end);
        let adj_data_off: usize = adj_offsets_off + 4 * num_points as usize;
        Ok(
            CompactHnswGraph {
                entry_point,
                entry_layer,
                num_points,
                raw,
                layer_counts_off,
                adj_offsets_off,
                adj_data_off,
            },
        )
    }

    /// The point that a search starts from.
    pub fn entry_point(&self) -> (r: u32)
        ensures
            r == entry_point_of(self@),
            is_graph(self@),
    {
        proof {
            use_type_invariant(self);
        }
        self.entry_point
    }

    /// The highest layer of the entry point.
    pub fn entry_layer(&self) -> (r: u8)
        ensures
            r == entry_layer_of(self@),
            is_graph(self@),
    {
        proof {
            use_type_invariant(self);
        }
        self.entry_layer
    }

    /// The number of points.
    pub fn num_points(&self) -> (r: u32)
        ensures
            r == num_points_of(self@),
            is_graph(self@),
    {
        proof {
            use_type_invariant(self);
        }
        self.num_points
    }

    /// The number of layers of each point.
    pub fn layer_counts(&self) -> (r: &[u8])
        ensures
            r@ == self@.subrange(9, 9 + num_points_of(self@)),
    {
        proof {
            use_type_invariant(self);
        }
        let buf = self.raw.as_slice();
        assert(buf.len() == buf@.len());
        &buf[self.layer_counts_off..self.layer_counts_off + self.num_points as usize]
    }

    /// Where the lists of a point start, counted from the first list.
    pub fn adj_offset(&self, point: usize) -> (r: Option<u32>)
        ensures
            r == if point < num_points_of(self@) {
                Some(bytes::u32_at(self@, offsets_start(self@) + 4 * point))
            } else {
                None
            },
    {
        proof {
            use_type_invariant(self);
        }
        if point >= self.num_points as usize {
            return None;
        }
        let buf = self.raw.as_slice();
        assert(buf.len() == buf@.len());
        Some(get_u32(buf, self.adj_offsets_off + 4 * point))
    }

    /// The neighbours of `point` on `layer`.
    pub fn neighbors(&self, point: u32, layer: usize) -> (r: NeighborIter<'_>)
        ensures
            r@ == neighbor_ids(self@, point, layer as nat),
    {
        proof {
            use_type_invariant(self);
        }
        let buf = self.raw.as_slice();
        let n: usize = buf.len();
        let none = NeighborIter { bytes: &buf[0..0], remaining: 0 };
        assert(none@ =~= Seq::<u32>::empty());
        let counts = self.layer_counts();
        let idx: usize = point as usize;
        if idx >= counts.len() {
            return none;
        }
        assert(counts@[idx as int] == self@[9 + point]);
        if layer >= counts[idx] as usize {
            return none;
        }
        let rel: usize = match self.adj_offset(idx) {
            Some(rel) => rel as usize,
            None => return none,
        };
        let ghost start = point_start(self@, point as int);
        if rel > n - self.adj_data_off {
            assert(skip_lists(self@, start, layer as nat) == start);
            return none;
        }
        let mut off: usize = self.adj_data_off + rel;
        for skipped in 0..layer
            invariant
                n == buf@.len(),
                buf@ == self@,
                off <= n,
                skip_lists(self@, start, layer as nat) == skip_lists(
                    self@,
                    off as int,
                    (layer - skipped) as nat,
                ),
                point < num_points_of(self@),
                layer < self@[9 + point],
                start == point_start(self@, point as int),
                none@ == Seq::<u32>::empty(),
        {
            if n - off < 4 {
                return none;
            }
            let count: usize = get_u32(buf, off) as usize;
            if count > (n - off - 4) / 4 {
                assert(skip_lists(
                    self@,
                    off + 4 + 4 * count,
                    (layer - skipped - 1) as nat,
                ) == off + 4 + 4 * count);
                return none;
            }
            off = off + 4 + 4 * count;
        }
        if n - off < 4 {
            return none;
        }
        let count: usize = get_u32(buf, off) as usize;
        if count > (n - off - 4) / 4 {
            return none;
        }
        let r = NeighborIter { bytes: &buf[off + 4..off + 4 + 4 * count], remaining: count };
        assert(r@ =~= list_at(self@, off as int));
        r
    }

    /// The packed form.
    pub fn serialize(&self) -> (r: Vec<u8>)
        ensures
            r@ == self@,
    {
        let mut out: Vec<u8> = Vec::new();
        put_bytes(&mut out, self.raw.as_slice());
        assert(out@ =~= self@);
        out
    }
}

/// Packs a graph given by each point's neighbour lists, lowest layer first.
fn pack_graph(
    entry_point: u32,
    entry_layer: u8,
    num_points: u32,
    adjacency: &Vec<Vec<Vec<u32>>>,
) -> (r: Vec<u8>)
    ensures
        r@ == packed_graph(entry_point, entry_layer, num_points, adjacency.deep_view()),
{
    let n: usize = num_points as usize;
    let ghost adj = adjacency.deep_view();
    let mut layer_counts: Vec<u8> = Vec::new();
    let mut adj_data: Vec<u8> = Vec::new();
    let mut adj_offsets: Vec<u32> = Vec::new();
    for i in 0..n
        invariant
            adj == adjacency.deep_view(),
            layer_counts@ == layer_counts_bytes(adj, i as nat),
            adj_data@ == lists_bytes(adj, i as nat),
            adj_offsets@ == list_offsets(adj, i as nat),
    {
        adj_offsets.push(adj_data.len() as u32);
        if i < adjacency.len() {
            let layers = &adjacency[i];
            assert(layers.deep_view() == layers_of(adj, i as int));
            layer_counts.push(layers.len() as u8);
            put_layers(&mut adj_data, layers);
        } else {
            layer_counts.push(0);
        }
        assert(layer_counts@ =~= layer_counts_bytes(adj, (i + 1) as nat));
        assert(adj_offsets@ =~= list_offsets(adj, (i + 1) as nat));
        assert(adj_data@ =~= lists_bytes(adj, (i + 1) as nat));
    }
    let mut buf: Vec<u8> = pack_head(
        entry_point,
        entry_layer,
        num_points,
        layer_counts.as_slice(),
        Ghost(adj),
    );
    put_u32s(&mut buf, adj_offsets.as_slice());
    put_bytes(&mut buf, adj_data.as_slice());
    buf
}

/// Packs the header and the layer counts, and fills up with zeros.
fn pack_head(
    entry_point: u32,
    entry_layer: u8,
    num_points: u32,
    layer_counts: &[u8],
    Ghost(adjacency): Ghost<Seq<Seq<Seq<u32>>>>,
) -> (r: Vec<u8>)
    requires
        layer_counts@ == layer_counts_bytes(adjacency, num_points as nat),
    ensures
        r@ == padded_head(entry_point, entry_layer, num_points, adjacency),
{
    let mut buf: Vec<u8> = Vec::new();
    let ghost first = bytes::u32_bytes(entry_point);
    let ghost third = bytes::u32_bytes(num_points);
    let ghost head = head_bytes(entry_point, entry_layer, num_points, adjacency);
    assert(first.len() == 4 && third.len() == 4);
    put_u32(&mut buf, entry_point);
    assert(buf@ =~= first);
    buf.push(entry_layer);
    assert(buf@ =~= first + seq![entry_layer]);
    put_u32(&mut buf, num_points);
    put_bytes(&mut buf, layer_counts);
    assert(buf@ == head);
    pad4(&mut buf);
    buf
}

/// Appends zeros up to a multiple of four.
fn pad4(buf: &mut Vec<u8>)
    ensures
        final(buf)@ == old(buf)@ + zeros(aligned(old(buf)@.len() as int) - old(buf)@.len()),
{
    let ghost head = buf@;
    let ghost end = aligned(head.len() as int);
    assert(head + zeros(0) =~= head);
    while buf.len() % 4 != 0
        invariant
            end == aligned(head.len() as int),
            head.len() <= buf@.len() <= end,
            buf@ == head + zeros(buf@.len() - head.len()),
        decreases end - buf@.len(),
    {
        buf.push(0);
        assert(buf@ =~= head + zeros(buf@.len() - head.len()));
    }
    assert(buf@.len() == end);
}

/// Appends the neighbour lists of one point.
fn put_layers(out: &mut Vec<u8>, layers: &Vec<Vec<u32>>)
    ensures
        final(out)@ == old(out)@ + layers_bytes(layers.deep_view()),
{
    let ghost start = out@;
    let ghost all = layers.deep_view();
    let n: usize = layers.len();
    assert(out@ =~= start + layers_bytes(all.take(0)));
    for j in 0..n
        invariant
            n == layers@.len(),
            all == layers.deep_view(),
            out@ == start + layers_bytes(all.take(j as int)),
    {
        let ids = &layers[j];
        put_u32(out, ids.len() as u32);
        put_u32s(out, ids.as_slice());
        proof {
            assert(ids@ =~= all[j as int]);
            assert(all.take(j + 1).drop_last() =~= all.take(j as int));
            assert(all.take(j + 1).last() == all[j as int]);
            assert(out@ =~= start + layers_bytes(all.take(j + 1)));
        }
    }
    assert(all.take(n as int) =~= all);
}

} // verus!
