//! 1-bit codes of vectors.
//!
//! Each component of a row, less the field's centroid, becomes one bit: whether it
//! is at or above the row's median. A row keeps the mean of the components on either
//! side. Distances to what such codes stand for come out of sums over the set bits.

use vstd::prelude::*;

use crate::arith;
use crate::arith::{minus, over, plus, root, times, whole, Calc, Op};
use crate::floatbits;
use crate::floatbits::{ge, max_zero, ONE_BITS, TWO_BITS};
use crate::hits;
use crate::hits::sort_values;
use crate::metric;
use crate::metric::dot;
use crate::options::{Metric, VectorDistance};
use crate::turboquant;

verus! {

// ---------------------------------------------------------------------------
// Bits of a row
// ---------------------------------------------------------------------------

/// Bytes that `dim` bits take.
pub open spec fn row_bytes(dim: nat) -> nat {
    (dim + 7) / 8
}

/// Bytes of a row of `dim` bits.
pub fn bbq_bytes_per_row(dim: usize) -> (r: usize)
    ensures
        r == row_bytes(dim as nat),
{
    dim / 8 + if dim % 8 == 0 {
        0usize
    } else {
        1usize
    }
}

/// Bit `d` of a row.
pub open spec fn row_bit(bits: Seq<u8>, d: int) -> bool {
    (bits[d / 8] >> ((d % 8) as u8)) & 1 != 0
}

/// Bit `d` of a row.
pub fn bit_at(bits: &[u8], d: usize) -> (r: bool)
    requires
        d / 8 < bits@.len(),
    ensures
        r == row_bit(bits@, d as int),
{
    (bits[d / 8] >> ((d % 8) as u8)) & 1 != 0
}

/// The first `dim` bits of a row.
pub open spec fn row_flags(bits: Seq<u8>, dim: nat) -> Seq<bool> {
    Seq::new(dim, |d: int| row_bit(bits, d))
}

/// A weight where a flag is set, zero where it is not or there is none.
pub open spec fn weighed(flags: Seq<bool>, d: int, weight: u8) -> u8 {
    if 0 <= d < flags.len() && flags[d] {
        weight
    } else {
        0
    }
}

/// Eight flags in a byte, the first in the lowest bit.
pub open spec fn flag_byte(flags: Seq<bool>, i: int) -> u8 {
    weighed(flags, 8 * i, 1) | weighed(flags, 8 * i + 1, 2) | weighed(flags, 8 * i + 2, 4)
        | weighed(flags, 8 * i + 3, 8) | weighed(flags, 8 * i + 4, 16) | weighed(
        flags,
        8 * i + 5,
        32,
    ) | weighed(flags, 8 * i + 6, 64) | weighed(flags, 8 * i + 7, 128)
}

/// Flags packed into bytes; bits beyond the flags are clear.
pub open spec fn flag_bytes(flags: Seq<bool>) -> Seq<u8> {
    Seq::new(row_bytes(flags.len()), |i: int| flag_byte(flags, i))
}

/// A bit of packed flags is set where there is a flag and it is set.
pub(crate) proof fn lemma_packed_bit(flags: Seq<bool>, d: int)
    requires
        0 <= d < 8 * row_bytes(flags.len()),
    ensures
        row_bit(flag_bytes(flags), d) == (d < flags.len() && flags[d]),
{
    let i = d / 8;
    let k = (d % 8) as u8;
    let a = weighed(flags, 8 * i, 1);
    let b = weighed(flags, 8 * i + 1, 2);
    let c = weighed(flags, 8 * i + 2, 4);
    let e = weighed(flags, 8 * i + 3, 8);
    let f = weighed(flags, 8 * i + 4, 16);
    let g = weighed(flags, 8 * i + 5, 32);
    let h = weighed(flags, 8 * i + 6, 64);
    let j = weighed(flags, 8 * i + 7, 128);
    let byte = a | b | c | e | f | g | h | j;
    assert(byte == flag_bytes(flags)[i]);
    assert((k == 0 ==> ((byte >> k) & 1 != 0) == (a != 0)) && (k == 1 ==> ((byte >> k) & 1
        != 0) == (b != 0)) && (k == 2 ==> ((byte >> k) & 1 != 0) == (c != 0)) && (k == 3 ==> ((
    byte >> k) & 1 != 0) == (e != 0)) && (k == 4 ==> ((byte >> k) & 1 != 0) == (f != 0)) && (k
        == 5 ==> ((byte >> k) & 1 != 0) == (g != 0)) && (k == 6 ==> ((byte >> k) & 1 != 0) == (h
        != 0)) && (k == 7 ==> ((byte >> k) & 1 != 0) == (j != 0))) by (bit_vector)
        requires
            byte == a | b | c | e | f | g | h | j,
            a == 0 || a == 1,
            b == 0 || b == 2,
            c == 0 || c == 4,
            e == 0 || e == 8,
            f == 0 || f == 16,
            g == 0 || g == 32,
            h == 0 || h == 64,
            j == 0 || j == 128,
    ;
    assert(d == 8 * i + k);
}

/// Packed flags are read back as they were.
pub proof fn flags_survive_packing(flags: Seq<bool>)
    ensures
        row_flags(flag_bytes(flags), flags.len()) == flags,
{
    assert forall|d: int| 0 <= d < flags.len() implies #[trigger] row_flags(
        flag_bytes(flags),
        flags.len(),
    )[d] == flags[d] by {
        lemma_packed_bit(flags, d);
    }
    assert(row_flags(flag_bytes(flags), flags.len()) =~= flags);
}

/// A weight where a flag is set.
fn weigh(flags: &Vec<bool>, d: usize, weight: u8) -> (r: u8)
    ensures
        r == weighed(flags@, d as int, weight),
{
    if d < flags.len() && flags[d] {
        weight
    } else {
        0
    }
}

/// Packs flags into bytes.
fn pack_flags(flags: &Vec<bool>) -> (r: Vec<u8>)
    requires
        flags@.len() + 7 <= usize::MAX,
    ensures
        r@ == flag_bytes(flags@),
{
    let n: usize = bbq_bytes_per_row(flags.len());
    let mut out: Vec<u8> = Vec::new();
    for i in 0..n
        invariant
            n == row_bytes(flags@.len()),
            flags@.len() + 7 <= usize::MAX,
            out@.len() == i,
            forall|j: int| 0 <= j < i ==> #[trigger] out@[j] == flag_byte(flags@, j),
    {
        let d: usize = 8 * i;
        out.push(
            weigh(flags, d, 1) | weigh(flags, d + 1, 2) | weigh(flags, d + 2, 4) | weigh(
                flags,
                d + 3,
                8,
            ) | weigh(flags, d + 4, 16) | weigh(flags, d + 5, 32) | weigh(flags, d + 6, 64)
                | weigh(flags, d + 7, 128),
        );
    }
    assert(out@ =~= flag_bytes(flags@));
    out
}

/// How many of some flags are set.
pub open spec fn set_count(flags: Seq<bool>) -> nat
    decreases flags.len(),
{
    if flags.len() == 0 {
        0
    } else {
        set_count(flags.drop_last()) + if flags.last() {
            1nat
        } else {
            0
        }
    }
}

/// How many of the first `dim` bits of a row are set.
pub fn popcount_row(bits: &[u8], dim: usize) -> (r: u32)
    requires
        row_bytes(dim as nat) <= bits@.len(),
        dim <= u32::MAX,
    ensures
        r == set_count(row_flags(bits@, dim as nat)),
        r <= dim,
{
    let ghost flags = row_flags(bits@, dim as nat);
    let mut c: u32 = 0;
    for d in 0..dim
        invariant
            row_bytes(dim as nat) <= bits@.len(),
            dim <= u32::MAX,
            flags == row_flags(bits@, dim as nat),
            c == set_count(flags.take(d as int)),
            c <= d,
    {
        assert(flags.take(d + 1).drop_last() =~= flags.take(d as int));
        if bit_at(bits, d) {
            c = c + 1;
        }
    }
    assert(flags.take(dim as int) =~= flags);
    c
}

/// Row `i` of packed bits.
pub open spec fn bit_row(bits: Seq<u8>, bytes_per_row: nat, i: int) -> Seq<u8> {
    bits.subrange(i * bytes_per_row, i * bytes_per_row + bytes_per_row)
}

/// The rows with the given ids, one behind the other.
pub open spec fn gathered_rows(bits: Seq<u8>, bytes_per_row: nat, ids: Seq<u32>) -> Seq<u8>
    decreases ids.len(),
{
    if ids.len() == 0 {
        Seq::empty()
    } else {
        gathered_rows(bits, bytes_per_row, ids.drop_last()) + bit_row(
            bits,
            bytes_per_row,
            ids.last() as int,
        )
    }
}

/// Row `i` of what was collected is the row with the id at `i`.
pub proof fn gathered_row_is_the_row(
    bits: Seq<u8>,
    bytes_per_row: nat,
    ids: Seq<u32>,
    i: int,
)
    requires
        0 <= i < ids.len(),
        forall|j: int|
            0 <= j < ids.len() ==> ((#[trigger] ids[j]) + 1) * bytes_per_row <= bits.len(),
    ensures
        gathered_rows(bits, bytes_per_row, ids).len() == ids.len() * bytes_per_row,
        bit_row(gathered_rows(bits, bytes_per_row, ids), bytes_per_row, i) == bit_row(
            bits,
            bytes_per_row,
            ids[i] as int,
        ),
    decreases ids.len(),
{
    let init = ids.drop_last();
    let last = ids.len() - 1;
    let w = bytes_per_row as int;
    let row = bit_row(bits, bytes_per_row, ids.last() as int);
    let head = gathered_rows(bits, bytes_per_row, init);
    let all = gathered_rows(bits, bytes_per_row, ids);
    assert(ids[last] * w + w == (ids[last] + 1) * w) by (nonlinear_arith);
    assert(0 <= ids[last] * w) by (nonlinear_arith)
        requires
            0 <= w,
    ;
    assert(row.len() == w);
    assert((last + 1) * w == last * w + w) by (nonlinear_arith);
    if init.len() > 0 {
        gathered_row_is_the_row(
            bits,
            bytes_per_row,
            init,
            if i < last {
                i
            } else {
                0
            },
        );
    } else {
        assert(last * w == 0) by (nonlinear_arith)
            requires
                last == 0,
        ;
    }
    assert(head.len() == last * w);
    if i < last {
        turboquant::lemma_row_range(last, w, i);
        assert(bit_row(all, bytes_per_row, i) =~= bit_row(head, bytes_per_row, i));
    } else {
        assert(bit_row(all, bytes_per_row, i) =~= row);
    }
}

/// Collects the rows with the given ids, one behind the other.
pub fn gather_bbq_rows(
    bbq_bits: &[u8],
    bytes_per_row: usize,
    doc_ids: &[u32],
    out: &mut Vec<u8>,
)
    requires
        forall|i: int|
            0 <= i < doc_ids@.len() ==> ((#[trigger] doc_ids@[i]) + 1) * bytes_per_row
                <= bbq_bits@.len(),
    ensures
        final(out)@ == gathered_rows(bbq_bits@, bytes_per_row as nat, doc_ids@),
{
    let n: usize = doc_ids.len();
    out.clear();
    for i in 0..n
        invariant
            n == doc_ids@.len(),
            forall|i: int|
                0 <= i < doc_ids@.len() ==> ((#[trigger] doc_ids@[i]) + 1) * bytes_per_row
                    <= bbq_bits@.len(),
            out@ == gathered_rows(bbq_bits@, bytes_per_row as nat, doc_ids@.take(i as int)),
    {
        let row = bits_slice(bbq_bits, bytes_per_row, doc_ids[i] as usize);
        let ghost before = out@;
        out.extend_from_slice(row);
        assert(out@ =~= before + row@);
        assert(doc_ids@.take(i + 1).drop_last() =~= doc_ids@.take(i as int));
    }
    assert(doc_ids@.take(n as int) =~= doc_ids@);
}

/// Row `i` of packed bits.
fn bits_slice(bits: &[u8], bytes_per_row: usize, i: usize) -> (r: &[u8])
    requires
        (i + 1) * bytes_per_row <= bits@.len(),
    ensures
        r@ == bit_row(bits@, bytes_per_row as nat, i as int),
        r@.len() == bytes_per_row,
{
    assert(bits.len() == bits@.len());
    assert(i * bytes_per_row + bytes_per_row == (i + 1) * bytes_per_row) by (nonlinear_arith);
    assert(0 <= i * bytes_per_row) by (nonlinear_arith);
    let start: usize = i * bytes_per_row;
    &bits[start..start + bytes_per_row]
}

// ---------------------------------------------------------------------------
// Coding rows
// ---------------------------------------------------------------------------

/// One component of every row.
pub open spec fn column(flat: Seq<u32>, dim: nat, n: nat, d: int) -> Seq<u32> {
    Seq::new(n, |row: int| flat[row * dim + d])
}

/// The mean of all rows; zeros where there is none.
pub open spec fn centroid_of(m: Calc, flat: Seq<u32>, dim: nat, n: nat) -> Seq<u32> {
    Seq::new(
        dim,
        |d: int|
            if n == 0 {
                0
            } else {
                m(
                    Op::Mul,
                    arith::total(m, 0, column(flat, dim, n, d)),
                    m(Op::Div, ONE_BITS, m(Op::Int, n as u32, 0)),
                )
            },
    )
}

/// The mean of all rows.
pub fn compute_centroid<A: Fn(Op, u32, u32) -> u32>(
    arith: &A,
    flat: &[u32],
    dim: usize,
    num_docs: usize,
) -> (r: Vec<u32>)
    requires
        arith::is_arithmetic(*arith),
        flat@.len() == num_docs * dim,
        num_docs <= u32::MAX,
    ensures
        r@ == centroid_of(arith::calc(*arith), flat@, dim as nat, num_docs as nat),
{
    let ghost m = arith::calc(*arith);
    if num_docs == 0 {
        let c: Vec<u32> = vec![0u32; dim];
        assert(c@ =~= centroid_of(m, flat@, dim as nat, 0));
        return c;
    }
    assert(flat.len() == flat@.len());
    let inv: u32 = over(arith, ONE_BITS, whole(arith, num_docs as u32));
    let mut c: Vec<u32> = Vec::new();
    for d in 0..dim
        invariant
            arith::is_arithmetic(*arith),
            m == arith::calc(*arith),
            flat@.len() == num_docs * dim,
            flat@.len() <= usize::MAX,
            num_docs > 0,
            inv == m(Op::Div, ONE_BITS, m(Op::Int, num_docs as u32, 0)),
            c@.len() == d,
            forall|k: int|
                0 <= k < d ==> #[trigger] c@[k] == centroid_of(
                    m,
                    flat@,
                    dim as nat,
                    num_docs as nat,
                )[k],
    {
        let ghost terms = column(flat@, dim as nat, num_docs as nat, d as int);
        let mut sum: u32 = 0;
        for row in 0..num_docs
            invariant
                arith::is_arithmetic(*arith),
                m == arith::calc(*arith),
                flat@.len() == num_docs * dim,
                flat@.len() <= usize::MAX,
                d < dim,
                terms == column(flat@, dim as nat, num_docs as nat, d as int),
                sum == arith::total(m, 0, terms.take(row as int)),
        {
            proof {
                turboquant::lemma_row_range(num_docs as int, dim as int, row as int);
            }
            let x: u32 = flat[row * dim + d];
            sum = plus(arith, sum, x);
            proof {
                arith::lemma_total_next(m, 0, terms, row as int);
            }
        }
        assert(terms.take(num_docs as int) =~= terms);
        c.push(times(arith, sum, inv));
    }
    assert(c@ =~= centroid_of(m, flat@, dim as nat, num_docs as nat));
    c
}

/// The first `n` of some numbers whose flag is as wanted.
pub open spec fn chosen(values: Seq<u32>, flags: Seq<bool>, n: nat, want: bool) -> Seq<u32>
    decreases n,
{
    if n == 0 {
        Seq::empty()
    } else {
        let before = chosen(values, flags, (n - 1) as nat, want);
        if flags[n - 1] == want {
            before.push(values[n - 1])
        } else {
            before
        }
    }
}

/// The middle of some numbers in their total order.
pub open spec fn median(values: Seq<u32>) -> u32 {
    hits::ordered(values)[(values.len() / 2) as int]
}

/// Which components are at or above the median.
pub open spec fn upper_flags(residual: Seq<u32>) -> Seq<bool> {
    residual.map_values(|v: u32| floatbits::at_least(v, median(residual)))
}

/// The mean of some numbers.
pub open spec fn mean(m: Calc, values: Seq<u32>) -> u32 {
    m(Op::Div, arith::total(m, 0, values), m(Op::Int, values.len() as u32, 0))
}

/// The components below the median.
pub open spec fn lows(residual: Seq<u32>) -> Seq<u32> {
    chosen(residual, upper_flags(residual), residual.len(), false)
}

/// The components at or above the median.
pub open spec fn highs(residual: Seq<u32>) -> Seq<u32> {
    chosen(residual, upper_flags(residual), residual.len(), true)
}

/// The bits of a row: the components at or above the median. Where all are, every bit
/// is set, those beyond the row too.
pub open spec fn residual_bits(residual: Seq<u32>) -> Seq<u8> {
    if residual.len() > 0 && lows(residual).len() == 0 {
        Seq::new(row_bytes(residual.len()), |i: int| 0xffu8)
    } else {
        flag_bytes(upper_flags(residual))
    }
}

/// The two numbers that a row's bits stand for: the means of the components on
/// either side, or the mean of all where one side is empty.
pub open spec fn residual_levels(m: Calc, residual: Seq<u32>) -> (u32, u32) {
    if residual.len() == 0 {
        (0, 0)
    } else if lows(residual).len() == 0 {
        (mean(m, highs(residual)), mean(m, highs(residual)))
    } else if highs(residual).len() == 0 {
        (mean(m, lows(residual)), mean(m, lows(residual)))
    } else {
        (mean(m, lows(residual)), mean(m, highs(residual)))
    }
}

/// Codes a row: its bits, and the lower and the upper number that they stand for.
pub fn quantize_residual_row<A: Fn(Op, u32, u32) -> u32>(arith: &A, residual: &[u32]) -> (r: (
    Vec<u8>,
    u32,
    u32,
))
    requires
        arith::is_arithmetic(*arith),
        residual@.len() <= u32::MAX,
        residual@.len() + 7 <= usize::MAX,
    ensures
        r.0@ == residual_bits(residual@),
        (r.1, r.2) == residual_levels(arith::calc(*arith), residual@),
        r.0@.len() == row_bytes(residual@.len()),
{
    let ghost m = arith::calc(*arith);
    let ghost goal = upper_flags(residual@);
    let dim: usize = residual.len();
    if dim == 0 {
        let bits: Vec<u8> = Vec::new();
        assert(bits@ =~= flag_bytes(goal));
        return (bits, 0, 0);
    }
    let sorted: Vec<u32> = sort_values(residual);
    let threshold: u32 = sorted[dim / 2];
    let mut flags: Vec<bool> = Vec::new();
    let mut sum0: u32 = 0;
    let mut sum1: u32 = 0;
    let mut n0: u32 = 0;
    let mut n1: u32 = 0;
    for d in 0..dim
        invariant
            arith::is_arithmetic(*arith),
            m == arith::calc(*arith),
            dim == residual@.len(),
            dim <= u32::MAX,
            threshold == median(residual@),
            goal == upper_flags(residual@),
            flags@ == goal.take(d as int),
            n0 == chosen(residual@, goal, d as nat, false).len(),
            n1 == chosen(residual@, goal, d as nat, true).len(),
            n0 + n1 == d,
            sum0 == arith::total(m, 0, chosen(residual@, goal, d as nat, false)),
            sum1 == arith::total(m, 0, chosen(residual@, goal, d as nat, true)),
    {
        let v: u32 = residual[d];
        let bit: bool = ge(v, threshold);
        assert(goal[d as int] == bit);
        proof {
            let before = chosen(residual@, goal, d as nat, bit);
            assert(chosen(residual@, goal, (d + 1) as nat, bit) == before.push(v));
            assert(before.push(v).drop_last() =~= before);
        }
        if bit {
            sum1 = plus(arith, sum1, v);
            n1 = n1 + 1;
        } else {
            sum0 = plus(arith, sum0, v);
            n0 = n0 + 1;
        }
        flags.push(bit);
        assert(flags@ =~= goal.take(d + 1));
    }
    assert(goal.take(dim as int) =~= goal);
    if n0 == 0 {
        let level: u32 = over(arith, sum1, whole(arith, n1));
        let bits: Vec<u8> = vec![0xffu8; bbq_bytes_per_row(dim)];
        assert(bits@ =~= residual_bits(residual@));
        return (bits, level, level);
    }
    let bits: Vec<u8> = pack_flags(&flags);
    if n1 == 0 {
        let level: u32 = over(arith, sum0, whole(arith, n0));
        return (bits, level, level);
    }
    (bits, over(arith, sum0, whole(arith, n0)), over(arith, sum1, whole(arith, n1)))
}

/// A row less the centroid.
pub open spec fn residual_of(
    m: Calc,
    flat: Seq<u32>,
    dim: nat,
    centroid: Seq<u32>,
    row: int,
) -> Seq<u32> {
    Seq::new(dim, |d: int| m(Op::Sub, flat[row * dim + d], centroid[d]))
}

/// The bits of the first `n` rows, one row behind the other.
pub open spec fn all_bits(m: Calc, flat: Seq<u32>, dim: nat, centroid: Seq<u32>, n: nat) -> Seq<u8>
    decreases n,
{
    if n == 0 {
        Seq::empty()
    } else {
        all_bits(m, flat, dim, centroid, (n - 1) as nat) + residual_bits(
            residual_of(m, flat, dim, centroid, n - 1),
        )
    }
}

/// Codes all rows: the centroid, the bits, and the lower and the upper number of each
/// row.
pub fn compute_bbq_params<A: Fn(Op, u32, u32) -> u32>(
    arith: &A,
    flat: &[u32],
    dim: usize,
    num_docs: usize,
) -> (r: (Vec<u32>, Vec<u8>, Vec<u32>, Vec<u32>))
    requires
        arith::is_arithmetic(*arith),
        flat@.len() == num_docs * dim,
        num_docs <= u32::MAX,
        num_docs > 0 ==> dim <= u32::MAX && dim + 7 <= usize::MAX,
    ensures
        r.0@ == centroid_of(arith::calc(*arith), flat@, dim as nat, num_docs as nat),
        r.1@ == all_bits(arith::calc(*arith), flat@, dim as nat, r.0@, num_docs as nat),
        r.2@ == Seq::new(
            num_docs as nat,
            |row: int|
                residual_levels(
                    arith::calc(*arith),
                    residual_of(arith::calc(*arith), flat@, dim as nat, r.0@, row),
                ).0,
        ),
        r.3@ == Seq::new(
            num_docs as nat,
            |row: int|
                residual_levels(
                    arith::calc(*arith),
                    residual_of(arith::calc(*arith), flat@, dim as nat, r.0@, row),
                ).1,
        ),
{
    let ghost m = arith::calc(*arith);
    let centroid: Vec<u32> = compute_centroid(arith, flat, dim, num_docs);
    let ghost c = centroid@;
    assert(flat.len() == flat@.len());
    let mut bits: Vec<u8> = Vec::new();
    let mut lowers: Vec<u32> = Vec::new();
    let mut uppers: Vec<u32> = Vec::new();
    for row in 0..num_docs
        invariant
            arith::is_arithmetic(*arith),
            m == arith::calc(*arith),
            flat@.len() == num_docs * dim,
            flat@.len() <= usize::MAX,
            num_docs > 0 ==> dim <= u32::MAX && dim + 7 <= usize::MAX,
            centroid@ == c,
            c.len() == dim,
            bits@ == all_bits(m, flat@, dim as nat, c, row as nat),
            lowers@.len() == row,
            uppers@.len() == row,
            forall|i: int|
                0 <= i < row ==> #[trigger] lowers@[i] == residual_levels(
                    m,
                    residual_of(m, flat@, dim as nat, c, i),
                ).0,
            forall|i: int|
                0 <= i < row ==> #[trigger] uppers@[i] == residual_levels(
                    m,
                    residual_of(m, flat@, dim as nat, c, i),
                ).1,
    {
        proof {
            turboquant::lemma_row_range(num_docs as int, dim as int, row as int);
        }
        let base: usize = row * dim;
        let ghost goal = residual_of(m, flat@, dim as nat, c, row as int);
        let mut residual: Vec<u32> = Vec::new();
        for d in 0..dim
            invariant
                arith::is_arithmetic(*arith),
                m == arith::calc(*arith),
                base == row * dim,
                base + dim <= flat@.len(),
                flat@.len() <= usize::MAX,
                centroid@ == c,
                c.len() == dim,
                goal == residual_of(m, flat@, dim as nat, c, row as int),
                residual@ == goal.take(d as int),
        {
            residual.push(minus(arith, flat[base + d], centroid[d]));
            assert(residual@ =~= goal.take(d + 1));
        }
        assert(goal.take(dim as int) =~= goal);
        let (row_bits, lower, upper) = quantize_residual_row(arith, residual.as_slice());
        let ghost before = bits@;
        bits.extend_from_slice(row_bits.as_slice());
        assert(bits@ =~= before + row_bits@);
        lowers.push(lower);
        uppers.push(upper);
    }
    (centroid, bits, lowers, uppers)
}

/// The row that bits stand for.
pub open spec fn dequantized(
    m: Calc,
    centroid: Seq<u32>,
    bits: Seq<u8>,
    lower: u32,
    upper: u32,
) -> Seq<u32> {
    Seq::new(
        centroid.len(),
        |d: int|
            m(
                Op::Add,
                centroid[d],
                if row_bit(bits, d) {
                    upper
                } else {
                    lower
                },
            ),
    )
}

/// The row that bits stand for.
pub fn bbq_dequantize_row<A: Fn(Op, u32, u32) -> u32>(
    arith: &A,
    centroid: &[u32],
    bits_row: &[u8],
    lower: u32,
    upper: u32,
) -> (r: Vec<u32>)
    requires
        arith::is_arithmetic(*arith),
        row_bytes(centroid@.len()) <= bits_row@.len(),
    ensures
        r@ == dequantized(arith::calc(*arith), centroid@, bits_row@, lower, upper),
{
    let ghost m = arith::calc(*arith);
    let ghost goal = dequantized(m, centroid@, bits_row@, lower, upper);
    let dim: usize = centroid.len();
    let mut out: Vec<u32> = Vec::new();
    for d in 0..dim
        invariant
            arith::is_arithmetic(*arith),
            m == arith::calc(*arith),
            dim == centroid@.len(),
            row_bytes(centroid@.len()) <= bits_row@.len(),
            goal == dequantized(m, centroid@, bits_row@, lower, upper),
            out@ == goal.take(d as int),
    {
        let r: u32 = if bit_at(bits_row, d) {
            upper
        } else {
            lower
        };
        out.push(plus(arith, centroid[d], r));
        assert(out@ =~= goal.take(d + 1));
    }
    assert(goal.take(dim as int) =~= goal);
    out
}

// ---------------------------------------------------------------------------
// Distances
// ---------------------------------------------------------------------------

/// What dot product distances to a query have in common.
pub struct BbqDotCtx {
    /// Dot product of the query and the centroid.
    pub qc_dot: u32,
    /// Sum of the query's components.
    pub q_sum: u32,
}

/// What Euclidean distances to a query have in common.
pub struct BbqL2Ctx {
    /// Squared distance of the query and the centroid.
    pub qc_dist_sq: u32,
    /// Sum of the query's components, less those of the centroid.
    pub qc_sum: u32,
    /// The query less the centroid.
    pub qc: Vec<u32>,
}

/// The sum of a row's components.
fn sum_of<A: Fn(Op, u32, u32) -> u32>(arith: &A, row: &[u32]) -> (r: u32)
    requires
        arith::is_arithmetic(*arith),
    ensures
        r == arith::total(arith::calc(*arith), 0, row@),
{
    let ghost m = arith::calc(*arith);
    let n: usize = row.len();
    let mut sum: u32 = 0;
    for i in 0..n
        invariant
            arith::is_arithmetic(*arith),
            m == arith::calc(*arith),
            n == row@.len(),
            sum == arith::total(m, 0, row@.take(i as int)),
    {
        sum = plus(arith, sum, row[i]);
        proof {
            arith::lemma_total_next(m, 0, row@, i as int);
        }
    }
    assert(row@.take(n as int) =~= row@);
    sum
}

/// The products of the components that two rows have in common.
pub open spec fn common_products(m: Calc, a: Seq<u32>, b: Seq<u32>) -> Seq<u32> {
    Seq::new(
        if a.len() < b.len() {
            a.len()
        } else {
            b.len()
        },
        |i: int| m(Op::Mul, a[i], b[i]),
    )
}

impl BbqDotCtx {
    /// Prepares dot product distances to a query.
    pub fn new<A: Fn(Op, u32, u32) -> u32>(arith: &A, query: &[u32], centroid: &[u32]) -> (r: Self)
        requires
            arith::is_arithmetic(*arith),
        ensures
            r.qc_dot == arith::total(
                arith::calc(*arith),
                0,
                common_products(arith::calc(*arith), query@, centroid@),
            ),
            r.q_sum == arith::total(arith::calc(*arith), 0, query@),
    {
        let n: usize = if query.len() < centroid.len() {
            query.len()
        } else {
            centroid.len()
        };
        let head = &query[0..n];
        assert(metric::products(arith::calc(*arith), head@, centroid@) =~= common_products(
            arith::calc(*arith),
            query@,
            centroid@,
        ));
        BbqDotCtx { qc_dot: dot(arith, head, centroid), q_sum: sum_of(arith, query) }
    }
}

/// A query less the centroid.
pub open spec fn centered(m: Calc, query: Seq<u32>, centroid: Seq<u32>) -> Seq<u32> {
    Seq::new(query.len(), |d: int| m(Op::Sub, query[d], centroid[d]))
}

impl BbqL2Ctx {
    /// Prepares Euclidean distances to a query.
    pub fn new<A: Fn(Op, u32, u32) -> u32>(arith: &A, query: &[u32], centroid: &[u32]) -> (r: Self)
        requires
            arith::is_arithmetic(*arith),
            query@.len() <= centroid@.len(),
        ensures
            r.qc@ == centered(arith::calc(*arith), query@, centroid@),
            r.qc_dist_sq == arith::total(
                arith::calc(*arith),
                0,
                metric::products(arith::calc(*arith), r.qc@, r.qc@),
            ),
            r.qc_sum == arith::total(arith::calc(*arith), 0, r.qc@),
    {
        let ghost m = arith::calc(*arith);
        let ghost goal = centered(m, query@, centroid@);
        let dim: usize = query.len();
        let mut qc: Vec<u32> = Vec::new();
        for d in 0..dim
            invariant
                arith::is_arithmetic(*arith),
                m == arith::calc(*arith),
                dim == query@.len(),
                dim <= centroid@.len(),
                goal == centered(m, query@, centroid@),
                qc@ == goal.take(d as int),
        {
            qc.push(minus(arith, query[d], centroid[d]));
            assert(qc@ =~= goal.take(d + 1));
        }
        assert(goal.take(dim as int) =~= goal);
        let qc_dist_sq: u32 = dot(arith, qc.as_slice(), qc.as_slice());
        let qc_sum: u32 = sum_of(arith, qc.as_slice());
        BbqL2Ctx { qc_dist_sq, qc_sum, qc }
    }
}

/// The sum of a query's components at a row's set bits, lowest first.
pub open spec fn binary_dot(m: Calc, query: Seq<u32>, bits: Seq<u8>, dim: nat) -> u32 {
    arith::total(m, 0, chosen(query, row_flags(bits, dim), dim, true))
}

/// The sum of a query's components at a row's set bits.
pub fn binary_dot_query_bits<A: Fn(Op, u32, u32) -> u32>(
    arith: &A,
    query: &[u32],
    bits: &[u8],
    dim: usize,
) -> (r: u32)
    requires
        arith::is_arithmetic(*arith),
        dim <= query@.len(),
        row_bytes(dim as nat) <= bits@.len(),
    ensures
        r == binary_dot(arith::calc(*arith), query@, bits@, dim as nat),
{
    let ghost m = arith::calc(*arith);
    let ghost flags = row_flags(bits@, dim as nat);
    let mut s: u32 = 0;
    for d in 0..dim
        invariant
            arith::is_arithmetic(*arith),
            m == arith::calc(*arith),
            dim <= query@.len(),
            row_bytes(dim as nat) <= bits@.len(),
            flags == row_flags(bits@, dim as nat),
            s == arith::total(m, 0, chosen(query@, flags, d as nat, true)),
    {
        if bit_at(bits, d) {
            s = plus(arith, s, query[d]);
            proof {
                let before = chosen(query@, flags, d as nat, true);
                assert(before.push(query@[d as int]).drop_last() =~= before);
            }
        }
    }
    s
}

/// The sum of a query's components at a row's set bits.
pub fn scalar_binary_dot_query_bits<A: Fn(Op, u32, u32) -> u32>(
    arith: &A,
    query: &[u32],
    bits: &[u8],
    dim: usize,
) -> (r: u32)
    requires
        arith::is_arithmetic(*arith),
        dim <= query@.len(),
        row_bytes(dim as nat) <= bits@.len(),
    ensures
        r == binary_dot(arith::calc(*arith), query@, bits@, dim as nat),
{
    binary_dot_query_bits(arith, query, bits, dim)
}

/// One less the dot product of a query with the row that bits stand for, but not below
/// zero.
pub open spec fn dot_from_bits(m: Calc, ctx: BbqDotCtx, lower: u32, upper: u32, bd: u32) -> u32 {
    let similarity = m(
        Op::Add,
        m(Op::Add, ctx.qc_dot, m(Op::Mul, lower, ctx.q_sum)),
        m(Op::Mul, m(Op::Sub, upper, lower), bd),
    );
    floatbits::at_least_zero(m(Op::Sub, ONE_BITS, similarity))
}

/// Squared Euclidean distance of a query from the row that bits stand for.
pub open spec fn squared_from_bits(
    m: Calc,
    ctx: BbqL2Ctx,
    lower: u32,
    upper: u32,
    bits: Seq<u8>,
    dim: nat,
    bd: u32,
) -> u32 {
    let along = m(
        Op::Add,
        m(Op::Mul, lower, ctx.qc_sum),
        m(Op::Mul, m(Op::Sub, upper, lower), bd),
    );
    let pop = m(Op::Int, set_count(row_flags(bits, dim)) as u32, 0);
    let rest = m(Op::Sub, m(Op::Int, dim as u32, 0), pop);
    let norm_sq = m(
        Op::Add,
        m(Op::Mul, m(Op::Mul, pop, upper), upper),
        m(Op::Mul, m(Op::Mul, rest, lower), lower),
    );
    m(Op::Add, m(Op::Sub, ctx.qc_dist_sq, m(Op::Mul, TWO_BITS, along)), norm_sq)
}

/// Euclidean distance of a query from the row that bits stand for.
pub open spec fn l2_from_bits(
    m: Calc,
    ctx: BbqL2Ctx,
    lower: u32,
    upper: u32,
    bits: Seq<u8>,
    dim: nat,
    bd: u32,
) -> u32 {
    m(
        Op::Sqrt,
        floatbits::at_least_zero(squared_from_bits(m, ctx, lower, upper, bits, dim, bd)),
        0,
    )
}

fn dot_finish<A: Fn(Op, u32, u32) -> u32>(
    arith: &A,
    ctx: &BbqDotCtx,
    lower: u32,
    upper: u32,
    bd: u32,
) -> (r: u32)
    requires
        arith::is_arithmetic(*arith),
    ensures
        r == dot_from_bits(arith::calc(*arith), *ctx, lower, upper, bd),
{
    let similarity: u32 = plus(
        arith,
        plus(arith, ctx.qc_dot, times(arith, lower, ctx.q_sum)),
        times(arith, minus(arith, upper, lower), bd),
    );
    max_zero(minus(arith, ONE_BITS, similarity))
}

fn l2_finish<A: Fn(Op, u32, u32) -> u32>(
    arith: &A,
    ctx: &BbqL2Ctx,
    lower: u32,
    upper: u32,
    bits: &[u8],
    dim: usize,
    bd: u32,
) -> (r: u32)
    requires
        arith::is_arithmetic(*arith),
        row_bytes(dim as nat) <= bits@.len(),
        dim <= u32::MAX,
    ensures
        r == l2_from_bits(arith::calc(*arith), *ctx, lower, upper, bits@, dim as nat, bd),
{
    let along: u32 = plus(
        arith,
        times(arith, lower, ctx.qc_sum),
        times(arith, minus(arith, upper, lower), bd),
    );
    let pop: u32 = whole(arith, popcount_row(bits, dim));
    let rest: u32 = minus(arith, whole(arith, dim as u32), pop);
    let norm_sq: u32 = plus(
        arith,
        times(arith, times(arith, pop, upper), upper),
        times(arith, times(arith, rest, lower), lower),
    );
    root(
        arith,
        max_zero(
            plus(
                arith,
                minus(arith, ctx.qc_dist_sq, times(arith, TWO_BITS, along)),
                norm_sq,
            ),
        ),
    )
}

/// Cosine and dot product distance of a row of bits.
pub fn bbq_distance_dot<A: Fn(Op, u32, u32) -> u32>(
    arith: &A,
    ctx: &BbqDotCtx,
    query: &[u32],
    bits: &[u8],
    lower: u32,
    upper: u32,
    dim: usize,
) -> (r: u32)
    requires
        arith::is_arithmetic(*arith),
        dim <= query@.len(),
        row_bytes(dim as nat) <= bits@.len(),
    ensures
        r == dot_from_bits(
            arith::calc(*arith),
            *ctx,
            lower,
            upper,
            binary_dot(arith::calc(*arith), query@, bits@, dim as nat),
        ),
{
    let bd: u32 = binary_dot_query_bits(arith, query, bits, dim);
    dot_finish(arith, ctx, lower, upper, bd)
}

/// Euclidean distance of a row of bits.
pub fn bbq_distance_l2<A: Fn(Op, u32, u32) -> u32>(
    arith: &A,
    ctx: &BbqL2Ctx,
    bits: &[u8],
    lower: u32,
    upper: u32,
    dim: usize,
) -> (r: u32)
    requires
        arith::is_arithmetic(*arith),
        dim <= ctx.qc@.len(),
        dim <= u32::MAX,
        row_bytes(dim as nat) <= bits@.len(),
    ensures
        r == l2_from_bits(
            arith::calc(*arith),
            *ctx,
            lower,
            upper,
            bits@,
            dim as nat,
            binary_dot(arith::calc(*arith), ctx.qc@, bits@, dim as nat),
        ),
{
    let bd: u32 = binary_dot_query_bits(arith, ctx.qc.as_slice(), bits, dim);
    l2_finish(arith, ctx, lower, upper, bits, dim, bd)
}

/// Distance of a row of bits by the arithmetic of a field's metric.
pub fn bbq_distance<A: Fn(Op, u32, u32) -> u32>(
    arith: &A,
    dist: VectorDistance,
    query: &[u32],
    dot_ctx: &BbqDotCtx,
    l2_ctx: &BbqL2Ctx,
    bits: &[u8],
    lower: u32,
    upper: u32,
    dim: usize,
) -> (r: u32)
    requires
        arith::is_arithmetic(*arith),
        dist.spec_metric() == Metric::Dot ==> dim <= query@.len(),
        dist.spec_metric() == Metric::L2 ==> dim <= l2_ctx.qc@.len() && dim <= u32::MAX,
        row_bytes(dim as nat) <= bits@.len(),
    ensures
        r == match dist.spec_metric() {
            Metric::L2 => l2_from_bits(
                arith::calc(*arith),
                *l2_ctx,
                lower,
                upper,
                bits@,
                dim as nat,
                binary_dot(arith::calc(*arith), l2_ctx.qc@, bits@, dim as nat),
            ),
            Metric::Dot => dot_from_bits(
                arith::calc(*arith),
                *dot_ctx,
                lower,
                upper,
                binary_dot(arith::calc(*arith), query@, bits@, dim as nat),
            ),
        },
{
    match dist.metric() {
        Metric::L2 => bbq_distance_l2(arith, l2_ctx, bits, lower, upper, dim),
        Metric::Dot => bbq_distance_dot(arith, dot_ctx, query, bits, lower, upper, dim),
    }
}

/// The bits among the first `dim` that a row of bytes has.
pub open spec fn bits_within(dim: nat, bytes: nat) -> nat {
    if dim < 8 * bytes {
        dim
    } else {
        8 * bytes
    }
}

/// The sums of a query's components at the set bits of each of `n` rows.
pub fn bbq_binary_dots_block<A: Fn(Op, u32, u32) -> u32>(
    arith: &A,
    query: &[u32],
    dim: usize,
    bytes_per_row: usize,
    gathered: &[u8],
    n: usize,
    out: &mut [u32],
)
    requires
        arith::is_arithmetic(*arith),
        bits_within(dim as nat, bytes_per_row as nat) <= query@.len(),
        gathered@.len() == n * bytes_per_row,
        n <= old(out)@.len(),
    ensures
        final(out)@.len() == old(out)@.len(),
        forall|i: int|
            0 <= i < n ==> #[trigger] final(out)@[i] == binary_dot(
                arith::calc(*arith),
                query@,
                bit_row(gathered@, bytes_per_row as nat, i),
                bits_within(dim as nat, bytes_per_row as nat),
            ),
        forall|i: int|
            n <= i < old(out)@.len() ==> #[trigger] final(out)@[i] == old(out)@[i],
{
    let ghost m = arith::calc(*arith);
    let ghost before = out@;
    let bits: usize = if dim / 8 < bytes_per_row {
        dim
    } else {
        8 * bytes_per_row
    };
    for i in 0..n
        invariant
            arith::is_arithmetic(*arith),
            m == arith::calc(*arith),
            bits == bits_within(dim as nat, bytes_per_row as nat),
            bits <= query@.len(),
            row_bytes(bits as nat) <= bytes_per_row,
            gathered@.len() == n * bytes_per_row,
            n <= before.len(),
            out@.len() == before.len(),
            forall|j: int|
                0 <= j < i ==> #[trigger] out@[j] == binary_dot(
                    m,
                    query@,
                    bit_row(gathered@, bytes_per_row as nat, j),
                    bits as nat,
                ),
            forall|j: int| i <= j < before.len() ==> #[trigger] out@[j] == before[j],
    {
        assert((i + 1) * bytes_per_row <= n * bytes_per_row) by (nonlinear_arith)
            requires
                i + 1 <= n,
                0 <= bytes_per_row,
        ;
        let row = bits_slice(gathered, bytes_per_row, i);
        out[i] = binary_dot_query_bits(arith, query, row, bits);
    }
}

/// Euclidean distances of `n` rows of bits, from the sums at their set bits.
pub fn bbq_l2_distances_from_binary_dots<A: Fn(Op, u32, u32) -> u32>(
    arith: &A,
    ctx: &BbqL2Ctx,
    lowers: &[u32],
    uppers: &[u32],
    gathered: &[u8],
    dim: usize,
    bytes_per_row: usize,
    n: usize,
    binary_dots: &[u32],
    out: &mut [u32],
)
    requires
        arith::is_arithmetic(*arith),
        n > 0 ==> row_bytes(dim as nat) <= bytes_per_row,
        n > 0 ==> dim <= u32::MAX,
        n * bytes_per_row <= gathered@.len(),
        n <= lowers@.len(),
        n <= uppers@.len(),
        n <= binary_dots@.len(),
        n <= old(out)@.len(),
    ensures
        final(out)@.len() == old(out)@.len(),
        forall|i: int|
            0 <= i < n ==> #[trigger] final(out)@[i] == l2_from_bits(
                arith::calc(*arith),
                *ctx,
                lowers@[i],
                uppers@[i],
                bit_row(gathered@, bytes_per_row as nat, i),
                dim as nat,
                binary_dots@[i],
            ),
        forall|i: int|
            n <= i < old(out)@.len() ==> #[trigger] final(out)@[i] == old(out)@[i],
{
    let ghost m = arith::calc(*arith);
    let ghost before = out@;
    for i in 0..n
        invariant
            arith::is_arithmetic(*arith),
            m == arith::calc(*arith),
            n > 0 ==> row_bytes(dim as nat) <= bytes_per_row,
            n > 0 ==> dim <= u32::MAX,
            n * bytes_per_row <= gathered@.len(),
            n <= lowers@.len(),
            n <= uppers@.len(),
            n <= binary_dots@.len(),
            n <= before.len(),
            out@.len() == before.len(),
            forall|j: int|
                0 <= j < i ==> #[trigger] out@[j] == l2_from_bits(
                    m,
                    *ctx,
                    lowers@[j],
                    uppers@[j],
                    bit_row(gathered@, bytes_per_row as nat, j),
                    dim as nat,
                    binary_dots@[j],
                ),
            forall|j: int| i <= j < before.len() ==> #[trigger] out@[j] == before[j],
    {
        assert((i + 1) * bytes_per_row <= n * bytes_per_row) by (nonlinear_arith)
            requires
                i + 1 <= n,
                0 <= bytes_per_row,
        ;
        let row = bits_slice(gathered, bytes_per_row, i);
        out[i] = l2_finish(arith, ctx, lowers[i], uppers[i], row, dim, binary_dots[i]);
    }
}

/// Cosine and dot product distances of `n` rows of bits, from the sums at their set
/// bits.
pub fn bbq_dot_distances_block16<A: Fn(Op, u32, u32) -> u32>(
    arith: &A,
    ctx: &BbqDotCtx,
    lowers: &[u32],
    uppers: &[u32],
    binary_dots: &[u32],
    n: usize,
    out: &mut [u32],
)
    requires
        arith::is_arithmetic(*arith),
        n <= lowers@.len(),
        n <= uppers@.len(),
        n <= binary_dots@.len(),
        n <= old(out)@.len(),
    ensures
        final(out)@.len() == old(out)@.len(),
        forall|i: int|
            0 <= i < n ==> #[trigger] final(out)@[i] == dot_from_bits(
                arith::calc(*arith),
                *ctx,
                lowers@[i],
                uppers@[i],
                binary_dots@[i],
            ),
        forall|i: int|
            n <= i < old(out)@.len() ==> #[trigger] final(out)@[i] == old(out)@[i],
{
    let ghost m = arith::calc(*arith);
    let ghost before = out@;
    for i in 0..n
        invariant
            arith::is_arithmetic(*arith),
            m == arith::calc(*arith),
            n <= lowers@.len(),
            n <= uppers@.len(),
            n <= binary_dots@.len(),
            n <= before.len(),
            out@.len() == before.len(),
            forall|j: int|
                0 <= j < i ==> #[trigger] out@[j] == dot_from_bits(
                    m,
                    *ctx,
                    lowers@[j],
                    uppers@[j],
                    binary_dots@[j],
                ),
            forall|j: int| i <= j < before.len() ==> #[trigger] out@[j] == before[j],
    {
        out[i] = dot_finish(arith, ctx, lowers[i], uppers[i], binary_dots[i]);
    }
}

} // verus!
