//! 4-bit codes of vectors.
//!
//! A row is scaled to unit length and rotated. Each component of the result is
//! shifted and scaled by numbers fitted to the segment, and becomes the number of
//! the level that it falls in. Two such codes share a byte. What a row's length has
//! to be multiplied by to make inner products with its codes come out right is kept
//! beside them.

use vstd::arithmetic::power2::is_pow2;
use vstd::prelude::*;

use crate::arith;
use crate::arith::{minus, over, plus, times, Calc, Op};
use crate::codebook;
use crate::codebook::{codebook_for_dim, quantile_positions};
use crate::floatbits;
use crate::floatbits::{abs, finite, ge, lt, neg, ONE_BITS, TINY_BITS};
use crate::hits;
use crate::hits::sort_values;
use crate::rotation;
use crate::rotation::{rotate_row, rotation_signs};
use crate::wide;
use crate::wide::{WideCalc, WideOp};

verus! {

/// Bits of a code.
pub const BITS: usize = 4;

/// Number of levels.
pub const N_LEVELS: usize = 16;

/// Number of rows that are scored at once.
pub const FASTSCAN_N: usize = 16;

/// Number of rows that the shifts and scales are fitted to, at most.
pub const CALIBRATION_ROWS: usize = 1024;

// ---------------------------------------------------------------------------
// Sizes
// ---------------------------------------------------------------------------

/// The first of `p`, `2 * p`, `4 * p` and so on that is at least `dim`.
pub open spec fn doubled(p: nat, dim: nat) -> nat
    decreases if p < dim { dim - p } else { 0 },
{
    if 0 < p < dim {
        doubled(2 * p, dim)
    } else {
        p
    }
}

/// The least power of two that is at least `dim` and at least 4.
pub open spec fn padded_of(dim: nat) -> nat {
    doubled(4, dim)
}

proof fn lemma_doubled(p: nat, dim: nat)
    ensures
        doubled(p, dim) >= p,
        p > 0 ==> doubled(p, dim) >= dim,
    decreases if p < dim { dim - p } else { 0 },
{
    if 0 < p < dim {
        lemma_doubled(2 * p, dim);
    }
}

/// Whether a row can be filled up: whether it is not longer than the largest power of
/// two that a length can be.
pub open spec fn paddable(dim: int) -> bool {
    dim <= usize::MAX / 2 + 1
}

/// Twice a power of two is not above a larger one.
proof fn lemma_next_power(p: int, q: int)
    requires
        is_pow2(p),
        is_pow2(q),
        p < q,
    ensures
        2 * p <= q,
    decreases p,
{
    reveal(is_pow2);
    if p > 1 {
        lemma_next_power(p / 2, q / 2);
    }
}

pub(crate) proof fn lemma_doubled_below(p: nat, dim: nat, q: nat)
    requires
        0 < p <= q,
        dim <= q,
        is_pow2(p as int),
        is_pow2(q as int),
    ensures
        doubled(p, dim) <= q,
    decreases if p < dim { dim - p } else { 0 },
{
    if p < dim {
        lemma_next_power(p as int, q as int);
        reveal(is_pow2);
        lemma_doubled_below(2 * p, dim, q);
    }
}

/// The filled-up length of a row that can be filled up is a length.
pub(crate) proof fn lemma_paddable(dim: nat)
    requires
        paddable(dim as int),
    ensures
        padded_of(dim) <= usize::MAX,
{
    let q: nat = (usize::MAX / 2 + 1) as nat;
    vstd::arithmetic::power2::lemma2_to64();
    vstd::arithmetic::power2::lemma2_to64_rest();
    let e: nat = if usize::BITS == 32 {
        31
    } else {
        63
    };
    assert(vstd::arithmetic::power2::pow2(e) == q);
    vstd::arithmetic::power2::is_pow2_equiv(q as int);
    assert(vstd::arithmetic::power2::is_pow2_exists(q as int)) by {
        vstd::arithmetic::power2::lemma_pow2(e);
    }
    assert(is_pow2(4)) by {
        reveal(is_pow2);
        reveal_with_fuel(is_pow2, 4);
    }
    lemma_doubled_below(4, dim, q);
}

/// Length of a row once it is filled up for the rotation. At least 4, so that codes
/// always pair up.
pub fn padded_dim(dim: usize) -> (r: usize)
    requires
        paddable(dim as int),
    ensures
        r == padded_of(dim as nat),
{
    proof {
        lemma_paddable(dim as nat);
    }
    let mut p: usize = 4;
    while p < dim
        invariant
            4 <= p,
            doubled(p as nat, dim as nat) == padded_of(dim as nat),
            padded_of(dim as nat) <= usize::MAX,
        decreases if p < dim { dim - p } else { 0 },
    {
        proof {
            lemma_doubled((2 * p) as nat, dim as nat);
        }
        p = p * 2;
    }
    p
}

/// Bytes of a row of `padded` codes.
pub fn packed_bytes(padded: usize) -> (r: usize)
    ensures
        r == padded / 2,
{
    padded / 2
}

/// The filled-up length is the least power of two that a row fits in.
pub proof fn padded_is_least_power_of_two(dim: nat)
    ensures
        is_pow2(padded_of(dim) as int),
        padded_of(dim) >= dim,
        padded_of(dim) >= 4,
        padded_of(dim) == 4 || padded_of(dim) < 2 * dim,
        padded_of(dim) % 2 == 0,
{
    reveal(is_pow2);
    reveal_with_fuel(is_pow2, 4);
    lemma_doubled_pow2(4, dim);
    lemma_doubled(4, dim);
}

proof fn lemma_doubled_pow2(p: nat, dim: nat)
    requires
        p >= 4,
        is_pow2(p as int),
    ensures
        is_pow2(doubled(p, dim) as int),
        doubled(p, dim) == p || doubled(p, dim) < 2 * dim,
    decreases if p < dim { dim - p } else { 0 },
{
    if p < dim {
        reveal(is_pow2);
        lemma_doubled_pow2(2 * p, dim);
    } else {
        reveal(is_pow2);
    }
}

// ---------------------------------------------------------------------------
// Packing
// ---------------------------------------------------------------------------

/// Two codes to a byte, the first in the low half.
pub open spec fn packed_nibbles(codes: Seq<u8>) -> Seq<u8> {
    Seq::new(
        codes.len() / 2,
        |i: int| (codes[2 * i] % 16 + 16 * (codes[2 * i + 1] % 16)) as u8,
    )
}

/// Code `k` of packed bytes.
pub open spec fn code_at(packed: Seq<u8>, k: int) -> u8 {
    if k % 2 == 0 {
        packed[k / 2] % 16
    } else {
        packed[k / 2] / 16
    }
}

/// The codes of packed bytes.
pub open spec fn unpacked(packed: Seq<u8>) -> Seq<u8> {
    Seq::new(2 * packed.len(), |k: int| code_at(packed, k))
}

/// Packed codes are read back as they were.
pub proof fn codes_survive_packing(codes: Seq<u8>)
    requires
        codes.len() % 2 == 0,
        forall|k: int| 0 <= k < codes.len() ==> #[trigger] codes[k] < N_LEVELS,
    ensures
        unpacked(packed_nibbles(codes)) == codes,
{
    let packed = packed_nibbles(codes);
    assert forall|k: int| 0 <= k < codes.len() implies #[trigger] unpacked(packed)[k]
        == codes[k] by {
        let i = k / 2;
        let c0 = codes[2 * i];
        let c1 = codes[2 * i + 1];
        lemma_pair(c0, c1);
        assert(packed[i] == (c0 % 16 + 16 * (c1 % 16)) as u8);
        if k % 2 == 0 {
            assert(k == 2 * i);
        } else {
            assert(k == 2 * i + 1);
        }
    }
    assert(unpacked(packed) =~= codes);
}

proof fn lemma_pair(c0: u8, c1: u8)
    requires
        c0 < 16,
        c1 < 16,
    ensures
        ((c0 % 16 + 16 * (c1 % 16)) as u8) % 16 == c0,
        ((c0 % 16 + 16 * (c1 % 16)) as u8) / 16 == c1,
{
}

/// Packing the codes of some bytes gives the bytes.
pub proof fn bytes_survive_unpacking(packed: Seq<u8>)
    ensures
        packed_nibbles(unpacked(packed)) == packed,
{
    let codes = unpacked(packed);
    assert forall|i: int| 0 <= i < packed.len() implies packed_nibbles(codes)[i]
        == packed[i] by {
        assert(codes[2 * i] == packed[i] % 16);
        assert(codes[2 * i + 1] == packed[i] / 16);
        assert(packed[i] == packed[i] % 16 + 16 * (packed[i] / 16));
    }
    assert(packed_nibbles(codes) =~= packed);
}

/// Packs two codes to a byte.
pub fn pack_nibbles(codes: &[u8], out: &mut [u8])
    requires
        old(out)@.len() == codes@.len() / 2,
    ensures
        final(out)@ == packed_nibbles(codes@),
{
    let n: usize = out.len();
    assert(codes.len() == codes@.len());
    for i in 0..n
        invariant
            n == out@.len(),
            n == codes@.len() / 2,
            codes@.len() <= usize::MAX,
            forall|j: int| 0 <= j < i ==> #[trigger] out@[j] == packed_nibbles(codes@)[j],
    {
        let c0: u8 = codes[i * 2];
        let c1: u8 = codes[i * 2 + 1];
        let lo: u8 = c0 & 0x0f;
        let hi: u8 = c1 & 0x0f;
        out[i] = lo | (hi << 4);
        assert((c0 & 0x0f) | ((c1 & 0x0f) << 4) == c0 % 16 + 16 * (c1 % 16)) by (bit_vector);
    }
    assert(out@ =~= packed_nibbles(codes@));
}

/// Code `k` of packed bytes.
pub fn nibble(packed: &[u8], k: usize) -> (r: u8)
    requires
        k < 2 * packed@.len(),
    ensures
        r == code_at(packed@, k as int),
        r < N_LEVELS,
{
    let byte: u8 = packed[k / 2];
    assert(byte & 0x0f == byte % 16) by (bit_vector);
    assert(byte >> 4 == byte / 16) by (bit_vector);
    if k % 2 == 0 {
        byte & 0x0f
    } else {
        byte >> 4
    }
}

// ---------------------------------------------------------------------------
// Levels and calibration
// ---------------------------------------------------------------------------

/// The levels: where one ends and the next begins, and the number each stands for.
#[derive(Clone, Debug)]
pub struct Codebook {
    pub boundaries: Vec<u32>,
    pub centroids: Vec<u32>,
}

/// What each rotated component is shifted by, and then scaled by.
#[derive(Clone, Debug)]
pub struct TqPlus {
    pub shift: Vec<u32>,
    pub scale: Vec<u32>,
}

/// The codes of all rows of a field.
#[derive(Clone, Debug)]
pub struct EncodedFlat {
    pub padded_dim: usize,
    pub packed: Vec<u8>,
    pub renorm: Vec<u32>,
    pub tqplus: TqPlus,
}

/// What a [`Codebook`] holds.
#[verifier::ext_equal]
pub struct Levels {
    pub boundaries: Seq<u32>,
    pub centroids: Seq<u32>,
}

impl View for Codebook {
    type V = Levels;

    open spec fn view(&self) -> Levels {
        Levels { boundaries: self.boundaries@, centroids: self.centroids@ }
    }
}

/// What a [`TqPlus`] holds.
#[verifier::ext_equal]
pub struct Calibration {
    pub shift: Seq<u32>,
    pub scale: Seq<u32>,
}

impl View for TqPlus {
    type V = Calibration;

    open spec fn view(&self) -> Calibration {
        Calibration { shift: self.shift@, scale: self.scale@ }
    }
}

/// What an [`EncodedFlat`] holds.
#[verifier::ext_equal]
pub struct Codes {
    pub padded: nat,
    pub packed: Seq<u8>,
    pub renorm: Seq<u32>,
    pub tqplus: Calibration,
}

impl View for EncodedFlat {
    type V = Codes;

    open spec fn view(&self) -> Codes {
        Codes {
            padded: self.padded_dim as nat,
            packed: self.packed@,
            renorm: self.renorm@,
            tqplus: self.tqplus@,
        }
    }
}

/// Shifts of zero and scales of one.
pub open spec fn no_change(padded: nat) -> Calibration {
    Calibration {
        shift: Seq::new(padded, |d: int| 0u32),
        scale: Seq::new(padded, |d: int| ONE_BITS),
    }
}

impl TqPlus {
    /// Shifts by nothing and scales by one.
    pub fn identity(padded: usize) -> (r: Self)
        ensures
            r@ == no_change(padded as nat),
    {
        let r = TqPlus { shift: vec![0u32; padded], scale: vec![ONE_BITS; padded] };
        assert(r@ =~= no_change(padded as nat));
        r
    }
}

/// The level that a number falls in: how many boundaries it is at or above, up to
/// the first that it is not.
pub open spec fn level_of(x: u32, boundaries: Seq<u32>) -> nat
    decreases boundaries.len(),
{
    if boundaries.len() == 0 || !floatbits::at_least(x, boundaries[0]) {
        0
    } else {
        1 + level_of(x, boundaries.drop_first())
    }
}

/// The level that a number falls in.
pub fn quantize_scalar(x: u32, boundaries: &[u32]) -> (r: u8)
    requires
        boundaries@.len() <= u8::MAX,
    ensures
        r == level_of(x, boundaries@),
        r <= boundaries@.len(),
{
    let n: usize = boundaries.len();
    let mut c: u8 = 0;
    assert(boundaries@.skip(0) =~= boundaries@);
    while (c as usize) < n && ge(x, boundaries[c as usize])
        invariant
            n == boundaries@.len(),
            n <= u8::MAX,
            c <= n,
            level_of(x, boundaries@) == c + level_of(x, boundaries@.skip(c as int)),
        decreases n - c,
    {
        assert(boundaries@.skip(c as int).drop_first() =~= boundaries@.skip(c + 1));
        c = c + 1;
    }
    c
}

/// The numbers that the first levels stand for, as a table of full size; zero for
/// levels that the codebook lacks.
pub open spec fn level_table(centroids: Seq<u32>) -> Seq<u32> {
    Seq::new(
        N_LEVELS as nat,
        |i: int|
            if i < centroids.len() {
                centroids[i]
            } else {
                0
            },
    )
}

/// The codebook's numbers as a table of full size.
pub fn codebook_centroids(codebook: &Codebook) -> (r: [u32; 16])
    ensures
        r@ == level_table(codebook.centroids@),
{
    let mut out: [u32; 16] = [0u32; 16];
    let n: usize = if codebook.centroids.len() < N_LEVELS {
        codebook.centroids.len()
    } else {
        N_LEVELS
    };
    for i in 0..n
        invariant
            n <= N_LEVELS,
            n <= codebook.centroids@.len(),
            out@.len() == 16,
            forall|j: int| 0 <= j < i ==> #[trigger] out@[j] == codebook.centroids@[j],
            forall|j: int| i <= j < 16 ==> #[trigger] out@[j] == 0,
    {
        out[i] = codebook.centroids[i];
    }
    assert(out@ =~= level_table(codebook.centroids@));
    out
}

/// The rotated component that a level stands for.
pub open spec fn level_value(m: Calc, centroid: u32, shift: u32, scale: u32) -> u32 {
    if floatbits::less(0, scale) {
        m(Op::Sub, m(Op::Div, centroid, scale), shift)
    } else {
        0
    }
}

/// The rotated component that a level stands for.
pub(crate) fn decode_level<A: Fn(Op, u32, u32) -> u32>(
    arith: &A,
    centroid: u32,
    shift: u32,
    scale: u32,
) -> (r: u32)
    requires
        arith::is_arithmetic(*arith),
    ensures
        r == level_value(arith::calc(*arith), centroid, shift, scale),
{
    if lt(0, scale) {
        minus(arith, over(arith, centroid, scale), shift)
    } else {
        0
    }
}

/// The largest absolute value among numbers.
pub open spec fn outermost(centroids: Seq<u32>) -> u32
    decreases centroids.len(),
{
    if centroids.len() == 0 {
        0
    } else {
        let before = outermost(centroids.drop_last());
        let c = floatbits::absolute(centroids.last());
        if floatbits::less(before, c) {
            c
        } else {
            before
        }
    }
}

fn outer_level(centroids: &[u32]) -> (r: u32)
    ensures
        r == outermost(centroids@),
{
    let n: usize = centroids.len();
    let mut outer: u32 = 0;
    for i in 0..n
        invariant
            n == centroids@.len(),
            outer == outermost(centroids@.take(i as int)),
    {
        let c: u32 = abs(centroids[i]);
        assert(centroids@.take(i + 1).drop_last() =~= centroids@.take(i as int));
        if lt(outer, c) {
            outer = c;
        }
    }
    assert(centroids@.take(n as int) =~= centroids@);
    outer
}

/// How many of `n` rows the shifts and scales are fitted to.
pub open spec fn sample_size(n: nat) -> nat {
    if n < CALIBRATION_ROWS {
        n
    } else {
        CALIBRATION_ROWS as nat
    }
}

/// One component of every sampled row: of as many rows as are sampled, spread evenly
/// over all rows.
pub open spec fn sampled(rows: Seq<Seq<u32>>, d: int) -> Seq<u32> {
    let count = sample_size(rows.len());
    Seq::new(count, |j: int| rows[j * (rows.len() / count)][d])
}

/// The entry at a position of a sample, or its last entry; zero in an empty sample.
pub open spec fn quantile_of(sorted: Seq<u32>, at: int) -> u32 {
    if sorted.len() == 0 {
        0
    } else if at < sorted.len() {
        sorted[at]
    } else {
        sorted.last()
    }
}

/// The shift and the scale that map the quantiles of a sorted sample to the outermost
/// levels, where there are such.
pub open spec fn fitted(
    m: Calc,
    sorted: Seq<u32>,
    outer: u32,
    at: (usize, usize),
) -> Option<(u32, u32)> {
    let lo = quantile_of(sorted, at.0 as int);
    let hi = quantile_of(sorted, at.1 as int);
    let gap = m(Op::Sub, hi, lo);
    let scale = m(Op::Div, m(Op::Sub, outer, floatbits::opposite(outer)), gap);
    let shift = m(Op::Sub, m(Op::Div, floatbits::opposite(outer), scale), lo);
    if floatbits::less(gap, TINY_BITS) || !floatbits::is_finite(scale) || !floatbits::less(
        0,
        scale,
    ) || !floatbits::is_finite(shift) {
        None
    } else {
        Some((shift, scale))
    }
}

/// The shift and the scale of a component; those that change nothing for a single
/// row, or where none fit.
pub open spec fn calibration(
    m: Calc,
    rows: Seq<Seq<u32>>,
    outer: u32,
    at: (usize, usize),
    d: int,
) -> (u32, u32) {
    if rows.len() < 2 {
        (0, ONE_BITS)
    } else {
        match fitted(m, hits::ordered(sampled(rows, d)), outer, at) {
            Some(c) => c,
            None => (0, ONE_BITS),
        }
    }
}

/// The shift and the scale for one sorted sample.
fn fit_column<A: Fn(Op, u32, u32) -> u32>(
    arith: &A,
    sorted: &[u32],
    outer: u32,
    at: (usize, usize),
) -> (r: Option<(u32, u32)>)
    requires
        arith::is_arithmetic(*arith),
    ensures
        r == fitted(arith::calc(*arith), sorted@, outer, at),
{
    let lo: u32 = quantile_sorted(sorted, at.0);
    let hi: u32 = quantile_sorted(sorted, at.1);
    let gap: u32 = minus(arith, hi, lo);
    if lt(gap, TINY_BITS) {
        return None;
    }
    let scale: u32 = over(arith, minus(arith, outer, neg(outer)), gap);
    if !finite(scale) || !lt(0, scale) {
        return None;
    }
    let shift: u32 = minus(arith, over(arith, neg(outer), scale), lo);
    if finite(shift) {
        Some((shift, scale))
    } else {
        None
    }
}

/// The entry at a position of a sorted sample, or its last entry; zero in an empty
/// sample.
pub fn quantile_sorted(sorted: &[u32], at: usize) -> (r: u32)
    ensures
        r == quantile_of(sorted@, at as int),
{
    let n: usize = sorted.len();
    if n == 0 {
        0
    } else if at < n {
        sorted[at]
    } else {
        sorted[n - 1]
    }
}

/// Collects one component of the sampled rows.
fn sample_column(rows: &Vec<Vec<u32>>, d: usize) -> (r: Vec<u32>)
    requires
        rows@.len() > 0,
        forall|i: int| 0 <= i < rows@.len() ==> d < (#[trigger] rows@[i])@.len(),
    ensures
        r@ == sampled(rows.deep_view(), d as int),
{
    let n: usize = rows.len();
    let count: usize = if n < CALIBRATION_ROWS {
        n
    } else {
        CALIBRATION_ROWS
    };
    let stride: usize = n / count;
    let mut col: Vec<u32> = Vec::new();
    for j in 0..count
        invariant
            n == rows@.len(),
            0 < count <= n,
            stride == n / count,
            forall|i: int| 0 <= i < rows@.len() ==> d < (#[trigger] rows@[i])@.len(),
            col@.len() == j,
            forall|k: int| 0 <= k < j ==> #[trigger] col@[k] == rows@[k * stride]@[d as int],
    {
        assert(j * stride < n) by (nonlinear_arith)
            requires
                j < count,
                stride == n / count,
                0 < count <= n,
        ;
        col.push(rows[j * stride][d]);
    }
    proof {
        let whole = rows.deep_view();
        assert forall|k: int| 0 <= k < count implies #[trigger] col@[k] == sampled(
            whole,
            d as int,
        )[k] by {
            assert(k * stride < n) by (nonlinear_arith)
                requires
                    0 <= k < count,
                    stride == n / count,
                    0 < count <= n,
            ;
            assert(0 <= k * stride) by (nonlinear_arith)
                requires
                    0 <= k,
                    0 <= stride,
            ;
            assert(whole[k * stride] == rows@[k * stride]@);
        }
        assert(col@ =~= sampled(whole, d as int));
    }
    col
}

/// Fits a shift and a scale to each component of rotated rows.
pub fn fit_tqplus<A: Fn(Op, u32, u32) -> u32, W: Fn(WideOp, u64, u64) -> u64>(
    arith: &A,
    wide: &W,
    rows: &Vec<Vec<u32>>,
    padded: usize,
    codebook: &Codebook,
) -> (r: TqPlus)
    requires
        arith::is_arithmetic(*arith),
        wide::is_arithmetic(*wide),
        forall|i: int| 0 <= i < rows@.len() ==> (#[trigger] rows@[i])@.len() == padded,
    ensures
        r@ == calibrated(
            arith::calc(*arith),
            wide::calc(*wide),
            rows.deep_view(),
            padded as nat,
            codebook@.centroids,
        ),
{
    let n: usize = rows.len();
    let ghost m = arith::calc(*arith);
    let ghost all = rows.deep_view();
    if n < 2 {
        let r = TqPlus::identity(padded);
        proof {
            lemma_calibrated_few(
                m,
                wide::calc(*wide),
                all,
                padded as nat,
                codebook@.centroids,
            );
        }
        return r;
    }
    let outer: u32 = outer_level(codebook.centroids.as_slice());
    let count: usize = if n < CALIBRATION_ROWS {
        n
    } else {
        CALIBRATION_ROWS
    };
    let at: (usize, usize) = quantile_positions(wide, outer, padded, count);
    let mut shift: Vec<u32> = Vec::new();
    let mut scale: Vec<u32> = Vec::new();
    for d in 0..padded
        invariant
            arith::is_arithmetic(*arith),
            m == arith::calc(*arith),
            n >= 2,
            n == rows@.len(),
            all == rows.deep_view(),
            forall|i: int| 0 <= i < rows@.len() ==> (#[trigger] rows@[i])@.len() == padded,
            shift@.len() == d,
            scale@.len() == d,
            forall|k: int|
                0 <= k < d ==> #[trigger] shift@[k] == calibration(m, all, outer, at, k).0,
            forall|k: int|
                0 <= k < d ==> #[trigger] scale@[k] == calibration(m, all, outer, at, k).1,
    {
        let col: Vec<u32> = sample_column(rows, d);
        let sorted: Vec<u32> = sort_values(col.as_slice());
        match fit_column(arith, sorted.as_slice(), outer, at) {
            Some(c) => {
                shift.push(c.0);
                scale.push(c.1);
            },
            None => {
                shift.push(0);
                scale.push(ONE_BITS);
            },
        }
    }
    let r = TqPlus { shift, scale };
    assert(r@ =~= calibrated(
        m,
        wide::calc(*wide),
        all,
        padded as nat,
        codebook@.centroids,
    ));
    r
}

/// The shifts and scales fitted to rotated rows.
pub open spec fn calibrated(
    m: Calc,
    w: WideCalc,
    rows: Seq<Seq<u32>>,
    padded: nat,
    centroids: Seq<u32>,
) -> Calibration {
    let outer = outermost(centroids);
    let at = codebook::positions_of(
        w,
        outer,
        padded as usize,
        sample_size(rows.len()) as usize,
    );
    Calibration {
        shift: Seq::new(padded, |d: int| calibration(m, rows, outer, at, d).0),
        scale: Seq::new(padded, |d: int| calibration(m, rows, outer, at, d).1),
    }
}

proof fn lemma_calibrated_few(
    m: Calc,
    w: WideCalc,
    rows: Seq<Seq<u32>>,
    padded: nat,
    centroids: Seq<u32>,
)
    requires
        rows.len() < 2,
    ensures
        calibrated(m, w, rows, padded, centroids) == no_change(padded),
{
    assert(calibrated(m, w, rows, padded, centroids) =~= no_change(padded));
}

// ---------------------------------------------------------------------------
// Encoding
// ---------------------------------------------------------------------------

/// The codes of a rotated row.
pub open spec fn row_codes(m: Calc, u: Seq<u32>, t: Calibration, c: Levels) -> Seq<u8> {
    Seq::new(
        u.len(),
        |d: int|
            level_of(
                m(Op::Mul, m(Op::Add, u[d], t.shift[d]), t.scale[d]),
                c.boundaries,
            ) as u8,
    )
}

/// The components of a rotated row, multiplied by what their codes stand for.
pub open spec fn overlaps(m: Calc, u: Seq<u32>, t: Calibration, c: Levels) -> Seq<u32> {
    Seq::new(
        u.len(),
        |d: int|
            m(
                Op::Mul,
                u[d],
                level_value(
                    m,
                    c.centroids[row_codes(m, u, t, c)[d] as int],
                    t.shift[d],
                    t.scale[d],
                ),
            ),
    )
}

/// A row's length, corrected by how far its codes overlap with it.
pub open spec fn row_renorm(m: Calc, u: Seq<u32>, norm: u32, t: Calibration, c: Levels) -> u32 {
    let overlap = arith::total(m, 0, overlaps(m, u, t, c));
    if floatbits::less(TINY_BITS, floatbits::absolute(overlap)) {
        m(Op::Div, norm, overlap)
    } else {
        norm
    }
}

/// Whether the codebook has a number for every level that its boundaries tell apart,
/// and no more levels than a code can hold before it is packed.
pub open spec fn covers_levels(c: Levels) -> bool {
    c.boundaries.len() <= u8::MAX && c.boundaries.len() < c.centroids.len()
}

/// The packed codes of a rotated row, and its corrected length.
pub fn encode_rotated_row<A: Fn(Op, u32, u32) -> u32>(
    arith: &A,
    u_rot: &[u32],
    orig_norm: u32,
    codebook: &Codebook,
    tqplus: &TqPlus,
) -> (r: (Vec<u8>, u32))
    requires
        arith::is_arithmetic(*arith),
        covers_levels(codebook@),
        tqplus.shift@.len() >= u_rot@.len(),
        tqplus.scale@.len() >= u_rot@.len(),
    ensures
        r.0@ == packed_nibbles(row_codes(arith::calc(*arith), u_rot@, tqplus@, codebook@)),
        r.1 == row_renorm(arith::calc(*arith), u_rot@, orig_norm, tqplus@, codebook@),
{
    let ghost m = arith::calc(*arith);
    let ghost goal = row_codes(m, u_rot@, tqplus@, codebook@);
    let ghost terms = overlaps(m, u_rot@, tqplus@, codebook@);
    let padded: usize = u_rot.len();
    let mut codes: Vec<u8> = Vec::new();
    let mut overlap: u32 = 0;
    for d in 0..padded
        invariant
            arith::is_arithmetic(*arith),
            m == arith::calc(*arith),
            covers_levels(codebook@),
            padded == u_rot@.len(),
            tqplus.shift@.len() >= padded,
            tqplus.scale@.len() >= padded,
            goal == row_codes(m, u_rot@, tqplus@, codebook@),
            terms == overlaps(m, u_rot@, tqplus@, codebook@),
            codes@ == goal.take(d as int),
            overlap == arith::total(m, 0, terms.take(d as int)),
    {
        let cal: u32 = times(arith, plus(arith, u_rot[d], tqplus.shift[d]), tqplus.scale[d]);
        let code: u8 = quantize_scalar(cal, codebook.boundaries.as_slice());
        assert(goal[d as int] == code);
        codes.push(code);
        assert(codes@ =~= goal.take(d + 1));
        let x_hat: u32 = decode_level(
            arith,
            codebook.centroids[code as usize],
            tqplus.shift[d],
            tqplus.scale[d],
        );
        let term: u32 = times(arith, u_rot[d], x_hat);
        assert(term == terms[d as int]);
        overlap = plus(arith, overlap, term);
        proof {
            arith::lemma_total_next(m, 0, terms, d as int);
        }
    }
    assert(goal.take(padded as int) =~= goal);
    assert(terms.take(padded as int) =~= terms);
    let renorm: u32 = if lt(TINY_BITS, abs(overlap)) {
        over(arith, orig_norm, overlap)
    } else {
        orig_norm
    };
    let half: usize = packed_bytes(padded);
    let mut packed: Vec<u8> = vec![0u8; half];
    pack_nibbles(codes.as_slice(), packed.as_mut_slice());
    (packed, renorm)
}

/// Row `i` of row-major components.
pub open spec fn row_at(flat: Seq<u32>, dim: nat, i: int) -> Seq<u32> {
    flat.subrange(i * dim, i * dim + dim)
}

/// All rows, rotated.
pub open spec fn rotated_rows(m: Calc, flat: Seq<u32>, n: nat, dim: nat) -> Seq<Seq<u32>> {
    let padded = padded_of(dim);
    Seq::new(
        n,
        |i: int|
            rotation::rotated(
                m,
                row_at(flat, dim, i),
                padded,
                rotation::signs_of(padded as usize),
            ),
    )
}

/// The packed codes of the first `n` rotated rows.
pub open spec fn packed_rows(
    m: Calc,
    rows: Seq<Seq<u32>>,
    n: nat,
    t: Calibration,
    c: Levels,
) -> Seq<u8>
    decreases n,
{
    if n == 0 {
        Seq::empty()
    } else {
        packed_rows(m, rows, (n - 1) as nat, t, c) + packed_nibbles(
            row_codes(m, rows[n - 1], t, c),
        )
    }
}

/// The codes of row-major components, `n` rows of `dim`.
pub open spec fn encoded(
    m: Calc,
    w: WideCalc,
    n: nat,
    dim: nat,
    flat: Seq<u32>,
    c: Levels,
) -> Codes {
    let rows = rotated_rows(m, flat, n, dim);
    let t = calibrated(m, w, rows, padded_of(dim), c.centroids);
    Codes {
        padded: padded_of(dim),
        packed: packed_rows(m, rows, n, t, c),
        renorm: Seq::new(
            n,
            |i: int| row_renorm(m, rows[i], rotation::norm_of(m, row_at(flat, dim, i)), t, c),
        ),
        tqplus: t,
    }
}

pub(crate) proof fn lemma_row_range(n: int, dim: int, i: int)
    requires
        0 <= i < n,
        0 <= dim,
    ensures
        0 <= i * dim,
        i * dim + dim <= n * dim,
{
    assert(0 <= i * dim && i * dim + dim <= n * dim) by (nonlinear_arith)
        requires
            0 <= i < n,
            0 <= dim,
    ;
}

/// Encodes row-major components, `n` rows of `dim`.
pub fn encode_flat<A: Fn(Op, u32, u32) -> u32, W: Fn(WideOp, u64, u64) -> u64>(
    arith: &A,
    wide: &W,
    n: usize,
    dim: usize,
    flat: &[u32],
) -> (r: EncodedFlat)
    requires
        arith::is_arithmetic(*arith),
        wide::is_arithmetic(*wide),
        flat@.len() == n * dim,
        paddable(dim as int),
        n > 0 ==> rotation::has_rotation(padded_of(dim as nat) as int),
    ensures
        r@ == encoded(
            arith::calc(*arith),
            wide::calc(*wide),
            n as nat,
            dim as nat,
            flat@,
            codebook::codebook_of(
                arith::calc(*arith),
                wide::calc(*wide),
                padded_of(dim as nat) as usize,
            ),
        ),
{
    let codebook: Codebook = codebook_for_dim(arith, wide, padded_dim(dim));
    encode_rows(arith, wide, n, dim, flat, &codebook)
}

/// Encodes row-major components by the levels of a codebook.
fn encode_rows<A: Fn(Op, u32, u32) -> u32, W: Fn(WideOp, u64, u64) -> u64>(
    arith: &A,
    wide: &W,
    n: usize,
    dim: usize,
    flat: &[u32],
    codebook: &Codebook,
) -> (r: EncodedFlat)
    requires
        arith::is_arithmetic(*arith),
        wide::is_arithmetic(*wide),
        flat@.len() == n * dim,
        paddable(dim as int),
        n > 0 ==> rotation::has_rotation(padded_of(dim as nat) as int),
        n > 0 ==> covers_levels(codebook@),
    ensures
        r@ == encoded(
            arith::calc(*arith),
            wide::calc(*wide),
            n as nat,
            dim as nat,
            flat@,
            codebook@,
        ),
{
    let ghost m = arith::calc(*arith);
    let ghost goal = rotated_rows(m, flat@, n as nat, dim as nat);
    let padded: usize = padded_dim(dim);
    if n == 0 {
        let r = EncodedFlat {
            padded_dim: padded,
            packed: Vec::new(),
            renorm: Vec::new(),
            tqplus: TqPlus::identity(padded),
        };
        proof {
            lemma_calibrated_few(
                m,
                wide::calc(*wide),
                goal,
                padded as nat,
                codebook@.centroids,
            );
        }
        assert(r@ =~= encoded(
            m,
            wide::calc(*wide),
            0,
            dim as nat,
            flat@,
            codebook@,
        ));
        return r;
    }
    proof {
        lemma_doubled(4, dim as nat);
    }
    assert(flat.len() == flat@.len());
    let signs: Vec<u32> = rotation_signs(padded);
    proof {
        rotation::lemma_rotation_is_pow2(padded as int);
    }
    let mut rows: Vec<Vec<u32>> = Vec::new();
    let mut norms: Vec<u32> = Vec::new();
    for i in 0..n
        invariant
            arith::is_arithmetic(*arith),
            m == arith::calc(*arith),
            flat@.len() == n * dim,
            flat@.len() <= usize::MAX,
            dim <= padded,
            padded == padded_of(dim as nat),
            rotation::has_rotation(padded as int),
            is_pow2(padded as int),
            signs@ == rotation::signs_of(padded),
            goal == rotated_rows(m, flat@, n as nat, dim as nat),
            rows@.len() == i,
            norms@.len() == i,
            forall|k: int| 0 <= k < i ==> (#[trigger] rows@[k])@ == goal[k],
            forall|k: int| 0 <= k < i ==> (#[trigger] rows@[k])@.len() == padded,
            forall|k: int|
                0 <= k < i ==> #[trigger] norms@[k] == rotation::norm_of(
                    m,
                    row_at(flat@, dim as nat, k),
                ),
    {
        proof {
            lemma_row_range(n as int, dim as int, i as int);
        }
        let start: usize = i * dim;
        let src = &flat[start..start + dim];
        assert(src@ =~= row_at(flat@, dim as nat, i as int));
        let (row, norm) = rotate_row(arith, src, padded, signs.as_slice());
        proof {
            rotation::lemma_rotated_len(m, src@, padded as nat, signs@);
        }
        rows.push(row);
        norms.push(norm);
    }
    assert(rows.deep_view() =~~= goal);
    let tqplus: TqPlus = fit_tqplus(arith, wide, &rows, padded, codebook);
    let mut packed: Vec<u8> = Vec::new();
    let mut renorm: Vec<u32> = Vec::new();
    for i in 0..n
        invariant
            arith::is_arithmetic(*arith),
            m == arith::calc(*arith),
            covers_levels(codebook@),
            rows@.len() == n,
            norms@.len() == n,
            tqplus.shift@.len() == padded,
            tqplus.scale@.len() == padded,
            forall|k: int| 0 <= k < n ==> (#[trigger] rows@[k])@ == goal[k],
            forall|k: int| 0 <= k < n ==> (#[trigger] rows@[k])@.len() == padded,
            forall|k: int|
                0 <= k < n ==> #[trigger] norms@[k] == rotation::norm_of(
                    m,
                    row_at(flat@, dim as nat, k),
                ),
            packed@ == packed_rows(m, goal, i as nat, tqplus@, codebook@),
            renorm@.len() == i,
            forall|k: int|
                0 <= k < i ==> #[trigger] renorm@[k] == row_renorm(
                    m,
                    goal[k],
                    rotation::norm_of(m, row_at(flat@, dim as nat, k)),
                    tqplus@,
                    codebook@,
                ),
    {
        let (bytes, factor) = encode_rotated_row(
            arith,
            rows[i].as_slice(),
            norms[i],
            codebook,
            &tqplus,
        );
        packed.extend_from_slice(bytes.as_slice());
        assert(packed@ =~= packed_rows(m, goal, (i + 1) as nat, tqplus@, codebook@));
        renorm.push(factor);
    }
    let r = EncodedFlat { padded_dim: padded, packed, renorm, tqplus };
    assert(r@ =~= encoded(
        m,
        wide::calc(*wide),
        n as nat,
        dim as nat,
        flat@,
        codebook@,
    ));
    r
}

} // verus!
