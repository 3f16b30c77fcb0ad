//! Distances from a query to rows that are stored as 4-bit codes.

use vstd::prelude::*;

use crate::arith;
use crate::arith::{minus, over, plus, times, Calc, Op};
use crate::floatbits;
use crate::floatbits::{lt, max_zero, ONE_BITS};
use crate::metric;
use crate::metric::dist_l2;
use crate::rotation;
use crate::rotation::{inverse_rotate_inplace, rotate_row, rotation_signs};
use crate::turboquant;
use crate::turboquant::{
    codebook_centroids, decode_level, nibble, packed_bytes, padded_dim, Calibration, Codebook,
    Levels, TqPlus, FASTSCAN_N, N_LEVELS,
};

verus! {

// ---------------------------------------------------------------------------
// Reconstruction
// ---------------------------------------------------------------------------

/// The rotated row that packed codes stand for; zero where there is no code.
pub open spec fn decoded(
    m: Calc,
    packed: Seq<u8>,
    padded: nat,
    c: Levels,
    t: Calibration,
) -> Seq<u32> {
    Seq::new(
        padded,
        |k: int|
            if k < 2 * packed.len() {
                turboquant::level_value(
                    m,
                    c.centroids[turboquant::code_at(packed, k) as int],
                    t.shift[k],
                    t.scale[k],
                )
            } else {
                0
            },
    )
}

/// A row with each component multiplied by a factor.
pub open spec fn stretched(m: Calc, row: Seq<u32>, factor: u32) -> Seq<u32> {
    if factor == ONE_BITS {
        row
    } else {
        row.map_values(|x: u32| m(Op::Mul, x, factor))
    }
}

/// The row that packed codes stand for.
pub open spec fn reconstructed(
    m: Calc,
    packed: Seq<u8>,
    dim: nat,
    padded: nat,
    c: Levels,
    t: Calibration,
    scale: u32,
) -> Seq<u32> {
    stretched(
        m,
        rotation::unrotated(
            m,
            decoded(m, packed, padded, c, t),
            rotation::signs_of(padded as usize),
        ).take(dim as int),
        scale,
    )
}

/// Whether shifts and scales are there for the first `n` components.
pub open spec fn calibrates(t: Calibration, n: nat) -> bool {
    n <= t.shift.len() && n <= t.scale.len()
}

/// The codes among the first `padded` that a row of `len` bytes has.
pub open spec fn codes_within(len: nat, padded: nat) -> nat {
    if 2 * len < padded {
        2 * len
    } else {
        padded
    }
}

/// Whether a codebook has a number for each code that a row of bytes has.
pub open spec fn levels_known(packed: Seq<u8>, padded: nat, c: Levels) -> bool {
    forall|k: int|
        0 <= k < codes_within(packed.len(), padded) ==> #[trigger] turboquant::code_at(packed, k)
            < c.centroids.len()
}

/// The rotated row that packed codes stand for.
pub fn unpack_to_rotated<A: Fn(Op, u32, u32) -> u32>(
    arith: &A,
    packed_row: &[u8],
    padded: usize,
    codebook: &Codebook,
    tqplus: &TqPlus,
) -> (r: Vec<u32>)
    requires
        arith::is_arithmetic(*arith),
        levels_known(packed_row@, padded as nat, codebook@),
        calibrates(tqplus@, codes_within(packed_row@.len(), padded as nat)),
    ensures
        r@ == decoded(arith::calc(*arith), packed_row@, padded as nat, codebook@, tqplus@),
{
    let ghost m = arith::calc(*arith);
    let ghost goal = decoded(m, packed_row@, padded as nat, codebook@, tqplus@);
    let bytes: usize = packed_row.len();
    let mut rot: Vec<u32> = Vec::new();
    for k in 0..padded
        invariant
            arith::is_arithmetic(*arith),
            m == arith::calc(*arith),
            bytes == packed_row@.len(),
            levels_known(packed_row@, padded as nat, codebook@),
            calibrates(tqplus@, codes_within(packed_row@.len(), padded as nat)),
            goal == decoded(m, packed_row@, padded as nat, codebook@, tqplus@),
            rot@.len() == k,
            forall|j: int| 0 <= j < k ==> #[trigger] rot@[j] == goal[j],
    {
        if k / 2 < bytes {
            let code: u8 = nibble(packed_row, k);
            rot.push(
                decode_level(
                    arith,
                    codebook.centroids[code as usize],
                    tqplus.shift[k],
                    tqplus.scale[k],
                ),
            );
        } else {
            rot.push(0);
        }
    }
    assert(rot@ =~= goal);
    rot
}

/// The row of `dim` components that packed codes stand for. `scale` is the row's
/// corrected length.
pub fn reconstruct_row<A: Fn(Op, u32, u32) -> u32>(
    arith: &A,
    packed_row: &[u8],
    dim: usize,
    padded: usize,
    codebook: &Codebook,
    tqplus: &TqPlus,
    scale: u32,
) -> (r: Vec<u32>)
    requires
        arith::is_arithmetic(*arith),
        rotation::has_rotation(padded as int),
        dim <= padded,
        levels_known(packed_row@, padded as nat, codebook@),
        calibrates(tqplus@, codes_within(packed_row@.len(), padded as nat)),
    ensures
        r@ == reconstructed(
            arith::calc(*arith),
            packed_row@,
            dim as nat,
            padded as nat,
            codebook@,
            tqplus@,
            scale,
        ),
        r@.len() == dim,
{
    let ghost m = arith::calc(*arith);
    let mut rot: Vec<u32> = unpack_to_rotated(arith, packed_row, padded, codebook, tqplus);
    let signs: Vec<u32> = rotation_signs(padded);
    proof {
        rotation::lemma_rotation_is_pow2(padded as int);
    }
    inverse_rotate_inplace(arith, &mut rot, signs.as_slice());
    let ghost full = rot@;
    rot.truncate(dim);
    assert(rot@ =~= full.take(dim as int));
    if scale != ONE_BITS {
        let ghost before = rot@;
        for i in 0..dim
            invariant
                arith::is_arithmetic(*arith),
                m == arith::calc(*arith),
                rot@.len() == dim,
                before.len() == dim,
                forall|k: int| 0 <= k < i ==> #[trigger] rot@[k] == m(Op::Mul, before[k], scale),
                forall|k: int| i <= k < dim ==> #[trigger] rot@[k] == before[k],
        {
            let x: u32 = rot[i];
            rot[i] = times(arith, x, scale);
        }
        assert(rot@ =~= stretched(m, before, scale));
    }
    rot
}

/// Row `i` of packed codes.
pub open spec fn code_row(packed: Seq<u8>, stride: nat, i: int) -> Seq<u8> {
    packed.subrange(i * stride, i * stride + stride)
}

/// The corrected length of a row, one where none is stored.
pub open spec fn length_of(renorm: Seq<u32>, i: int) -> u32 {
    if 0 <= i < renorm.len() {
        renorm[i]
    } else {
        ONE_BITS
    }
}

/// The first `n` rows that packed codes stand for, one behind the other.
pub open spec fn reconstructed_rows(
    m: Calc,
    packed: Seq<u8>,
    n: nat,
    dim: nat,
    padded: nat,
    c: Levels,
    t: Calibration,
    renorm: Seq<u32>,
) -> Seq<u32>
    decreases n,
{
    if n == 0 {
        Seq::empty()
    } else {
        let i = (n - 1) as nat;
        reconstructed_rows(m, packed, i, dim, padded, c, t, renorm) + reconstructed(
            m,
            code_row(packed, padded / 2, i as int),
            dim,
            padded,
            c,
            t,
            length_of(renorm, i as int),
        )
    }
}

/// Row `i` of packed codes.
pub(crate) fn row_slice(packed: &[u8], stride: usize, i: usize) -> (r: &[u8])
    requires
        (i + 1) * stride <= packed@.len(),
    ensures
        r@ == code_row(packed@, stride as nat, i as int),
        r@.len() == stride,
{
    assert(packed.len() == packed@.len());
    assert(i * stride + stride == (i + 1) * stride) by (nonlinear_arith);
    assert(0 <= i * stride) by (nonlinear_arith);
    let start: usize = i * stride;
    &packed[start..start + stride]
}

/// The corrected length of a row, one where none is stored.
pub(crate) fn row_length(renorm: &[u32], i: usize) -> (r: u32)
    ensures
        r == length_of(renorm@, i as int),
{
    if i < renorm.len() {
        renorm[i]
    } else {
        ONE_BITS
    }
}

/// All rows that packed codes stand for, row-major.
pub fn reconstruct_flat<A: Fn(Op, u32, u32) -> u32>(
    arith: &A,
    packed: &[u8],
    n: usize,
    dim: usize,
    padded: usize,
    codebook: &Codebook,
    tqplus: &TqPlus,
    renorm: &[u32],
) -> (r: Vec<u32>)
    requires
        arith::is_arithmetic(*arith),
        n * (padded / 2) <= packed@.len(),
        n > 0 ==> rotation::has_rotation(padded as int),
        n > 0 ==> dim <= padded,
        forall|i: int|
            0 <= i < n ==> levels_known(
                #[trigger] code_row(packed@, (padded / 2) as nat, i),
                padded as nat,
                codebook@,
            ),
        n > 0 ==> calibrates(tqplus@, padded as nat),
    ensures
        r@ == reconstructed_rows(
            arith::calc(*arith),
            packed@,
            n as nat,
            dim as nat,
            padded as nat,
            codebook@,
            tqplus@,
            renorm@,
        ),
{
    let ghost m = arith::calc(*arith);
    let stride: usize = packed_bytes(padded);
    let mut out: Vec<u32> = Vec::new();
    for row in 0..n
        invariant
            arith::is_arithmetic(*arith),
            m == arith::calc(*arith),
            stride == padded / 2,
            n * (padded / 2) <= packed@.len(),
            n > 0 ==> rotation::has_rotation(padded as int),
            n > 0 ==> dim <= padded,
            forall|i: int|
                0 <= i < n ==> levels_known(
                    #[trigger] code_row(packed@, (padded / 2) as nat, i),
                    padded as nat,
                    codebook@,
                ),
            n > 0 ==> calibrates(tqplus@, padded as nat),
            out@ == reconstructed_rows(
                m,
                packed@,
                row as nat,
                dim as nat,
                padded as nat,
                codebook@,
                tqplus@,
                renorm@,
            ),
    {
        assert((row + 1) * stride <= n * stride) by (nonlinear_arith)
            requires
                row + 1 <= n,
                0 <= stride,
        ;
        let rec: Vec<u32> = reconstruct_row(
            arith,
            row_slice(packed, stride, row),
            dim,
            padded,
            codebook,
            tqplus,
            row_length(renorm, row),
        );
        let ghost before = out@;
        out.extend_from_slice(rec.as_slice());
        assert(out@ =~= before + rec@);
    }
    out
}

// ---------------------------------------------------------------------------
// Query
// ---------------------------------------------------------------------------

/// A query made ready for scoring packed rows without rotating them back.
pub struct PreparedQuery {
    /// For each rotated component, what each level adds to the inner product.
    pub q_lut: Vec<[u32; 16]>,
    /// What the shifts add to every inner product.
    pub bias: u32,
    /// The query as it was given.
    pub q_orig: Vec<u32>,
}

/// What a [`PreparedQuery`] holds.
#[verifier::ext_equal]
pub struct Prepared {
    pub lut: Seq<Seq<u32>>,
    pub bias: u32,
    pub query: Seq<u32>,
}

impl View for PreparedQuery {
    type V = Prepared;

    open spec fn view(&self) -> Prepared {
        Prepared {
            lut: Seq::new(self.q_lut@.len(), |i: int| self.q_lut@[i]@),
            bias: self.bias,
            query: self.q_orig@,
        }
    }
}

/// A first number less further ones, taken off one by one.
pub open spec fn reduced(m: Calc, from: u32, terms: Seq<u32>) -> u32
    decreases terms.len(),
{
    if terms.len() == 0 {
        from
    } else {
        m(Op::Sub, reduced(m, from, terms.drop_last()), terms.last())
    }
}

/// The query, scaled to unit length and rotated.
pub open spec fn rotated_query(m: Calc, query: Seq<u32>, dim: nat) -> Seq<u32> {
    rotation::rotated(
        m,
        query.take(dim as int),
        turboquant::padded_of(dim),
        rotation::signs_of(turboquant::padded_of(dim) as usize),
    )
}

/// What a level adds to the inner product with a rotated component.
pub open spec fn contribution(m: Calc, component: u32, scale: u32, level: u32) -> u32 {
    m(
        Op::Mul,
        if floatbits::less(0, scale) {
            m(Op::Div, component, scale)
        } else {
            0
        },
        level,
    )
}

/// What each level adds to the inner product with a rotated component.
pub open spec fn contributions(m: Calc, component: u32, scale: u32, c: Levels) -> Seq<u32> {
    turboquant::level_table(c.centroids).map_values(
        |level: u32| contribution(m, component, scale, level),
    )
}

/// A query made ready for scoring packed rows.
pub open spec fn prepared(
    m: Calc,
    query: Seq<u32>,
    dim: nat,
    t: Calibration,
    c: Levels,
) -> Prepared {
    let rot = rotated_query(m, query, dim);
    Prepared {
        lut: Seq::new(rot.len(), |i: int| contributions(m, rot[i], t.scale[i], c)),
        bias: reduced(m, 0, Seq::new(rot.len(), |i: int| m(Op::Mul, rot[i], t.shift[i]))),
        query,
    }
}

/// What each level adds to the inner product with a rotated component.
fn lut_row<A: Fn(Op, u32, u32) -> u32>(
    arith: &A,
    component: u32,
    scale: u32,
    levels: &[u32; 16],
) -> (r: [u32; 16])
    requires
        arith::is_arithmetic(*arith),
    ensures
        forall|level: int|
            0 <= level < 16 ==> #[trigger] r@[level] == contribution(
                arith::calc(*arith),
                component,
                scale,
                levels@[level],
            ),
{
    let ghost m = arith::calc(*arith);
    let q: u32 = if lt(0, scale) {
        over(arith, component, scale)
    } else {
        0
    };
    let mut row: [u32; 16] = [0u32; 16];
    for code in 0..16usize
        invariant
            arith::is_arithmetic(*arith),
            m == arith::calc(*arith),
            q == (if floatbits::less(0, scale) {
                m(Op::Div, component, scale)
            } else {
                0
            }),
            forall|level: int|
                0 <= level < code ==> #[trigger] row@[level] == contribution(
                    m,
                    component,
                    scale,
                    levels@[level],
                ),
    {
        row[code] = times(arith, q, levels[code]);
    }
    row
}

/// Makes a query ready for scoring packed rows.
pub fn prepare_query<A: Fn(Op, u32, u32) -> u32>(
    arith: &A,
    query: &[u32],
    dim: usize,
    tqplus: &TqPlus,
    codebook: &Codebook,
) -> (r: PreparedQuery)
    requires
        arith::is_arithmetic(*arith),
        dim <= query@.len(),
        rotation::has_rotation(turboquant::padded_of(dim as nat) as int),
        calibrates(tqplus@, turboquant::padded_of(dim as nat)),
    ensures
        r@ == prepared(arith::calc(*arith), query@, dim as nat, tqplus@, codebook@),
        r.q_lut@.len() == turboquant::padded_of(dim as nat),
{
    let ghost m = arith::calc(*arith);
    proof {
        turboquant::padded_is_least_power_of_two(dim as nat);
    }
    let padded: usize = padded_dim(dim);
    let signs: Vec<u32> = rotation_signs(padded);
    proof {
        rotation::lemma_rotated_len(m, query@.take(dim as int), padded as nat, signs@);
    }
    let src = &query[0..dim];
    assert(src@ =~= query@.take(dim as int));
    proof {
        rotation::lemma_rotation_is_pow2(padded as int);
    }
    let (rot, _) = rotate_row(arith, src, padded, signs.as_slice());
    let ghost terms = Seq::new(rot@.len(), |i: int| m(Op::Mul, rot@[i], tqplus.shift@[i]));
    let levels: [u32; 16] = codebook_centroids(codebook);
    let mut bias: u32 = 0;
    let mut q_lut: Vec<[u32; 16]> = Vec::new();
    for i in 0..padded
        invariant
            arith::is_arithmetic(*arith),
            m == arith::calc(*arith),
            rot@.len() == padded,
            calibrates(tqplus@, padded as nat),
            levels@ == turboquant::level_table(codebook.centroids@),
            terms == Seq::new(rot@.len(), |i: int| m(Op::Mul, rot@[i], tqplus.shift@[i])),
            bias == reduced(m, 0, terms.take(i as int)),
            q_lut@.len() == i,
            forall|k: int, level: int|
                0 <= k < i && 0 <= level < N_LEVELS ==> (#[trigger] q_lut@[k]@[level])
                    == contribution(m, rot@[k], tqplus.scale@[k], levels@[level]),
    {
        bias = minus(arith, bias, times(arith, rot[i], tqplus.shift[i]));
        assert(terms.take(i + 1).drop_last() =~= terms.take(i as int));
        q_lut.push(lut_row(arith, rot[i], tqplus.scale[i], &levels));
    }
    assert(terms.take(padded as int) =~= terms);
    let mut q_orig: Vec<u32> = Vec::new();
    q_orig.extend_from_slice(query);
    assert(q_orig@ =~= query@);
    let r = PreparedQuery { q_lut, bias, q_orig };
    proof {
        let goal = prepared(m, query@, dim as nat, tqplus@, codebook@);
        assert forall|i: int| 0 <= i < padded implies #[trigger] r@.lut[i] == goal.lut[i] by {
            assert(r@.lut[i] =~= goal.lut[i]);
        }
        assert(r@ =~= goal);
    }
    r
}

/// The table entries that a packed row picks.
pub open spec fn picked(p: Prepared, packed: Seq<u8>) -> Seq<u32> {
    Seq::new(2 * packed.len(), |k: int| p.lut[k][turboquant::code_at(packed, k) as int])
}

/// The inner product of the query, scaled to unit length, with a packed row.
pub open spec fn inner_product(m: Calc, p: Prepared, packed: Seq<u8>, renorm: u32) -> u32 {
    m(Op::Mul, arith::total(m, p.bias, picked(p, packed)), renorm)
}

/// One less the inner product of the query, scaled to unit length, with a packed row, but
/// not below zero.
pub open spec fn dot_distance(m: Calc, p: Prepared, packed: Seq<u8>, renorm: u32) -> u32 {
    floatbits::at_least_zero(m(Op::Sub, ONE_BITS, inner_product(m, p, packed, renorm)))
}

/// The inner product of the query, scaled to unit length, with a packed row.
pub fn estimated_ip<A: Fn(Op, u32, u32) -> u32>(
    arith: &A,
    prepared: &PreparedQuery,
    packed_row: &[u8],
    renorm: u32,
) -> (r: u32)
    requires
        arith::is_arithmetic(*arith),
        2 * packed_row@.len() == prepared.q_lut@.len(),
    ensures
        r == inner_product(arith::calc(*arith), prepared@, packed_row@, renorm),
{
    let ghost m = arith::calc(*arith);
    let ghost terms = picked(prepared@, packed_row@);
    let n: usize = prepared.q_lut.len();
    let mut inner: u32 = prepared.bias;
    for k in 0..n
        invariant
            arith::is_arithmetic(*arith),
            m == arith::calc(*arith),
            n == prepared.q_lut@.len(),
            n == 2 * packed_row@.len(),
            terms == picked(prepared@, packed_row@),
            inner == arith::total(m, prepared.bias, terms.take(k as int)),
    {
        let code: u8 = nibble(packed_row, k);
        inner = plus(arith, inner, prepared.q_lut[k][code as usize]);
        proof {
            arith::lemma_total_next(m, prepared.bias, terms, k as int);
        }
    }
    assert(terms.take(n as int) =~= terms);
    times(arith, inner, renorm)
}

/// Cosine and dot product distance of a packed row from the query, scaled to unit length.
pub fn dist_dot_packed<A: Fn(Op, u32, u32) -> u32>(
    arith: &A,
    prepared: &PreparedQuery,
    packed_row: &[u8],
    renorm: u32,
) -> (r: u32)
    requires
        arith::is_arithmetic(*arith),
        2 * packed_row@.len() == prepared.q_lut@.len(),
    ensures
        r == dot_distance(arith::calc(*arith), prepared@, packed_row@, renorm),
{
    max_zero(minus(arith, ONE_BITS, estimated_ip(arith, prepared, packed_row, renorm)))
}

/// Cosine and dot product distances of up to [`FASTSCAN_N`] packed rows from the query,
/// scaled to unit length. Each is the distance that [`dist_dot_packed`] gives the row.
pub fn dist_dot_packed_batch<A: Fn(Op, u32, u32) -> u32>(
    arith: &A,
    prepared: &PreparedQuery,
    packed: &[u8],
    stride: usize,
    ids: &[u32],
    renorm: &[u32],
) -> (r: Vec<u32>)
    requires
        arith::is_arithmetic(*arith),
        ids@.len() <= FASTSCAN_N,
        2 * stride == prepared.q_lut@.len(),
        forall|i: int|
            0 <= i < ids@.len() ==> (#[trigger] ids@[i]) < renorm@.len() && (ids@[i] + 1) * stride
                <= packed@.len(),
    ensures
        r@ == ids@.map_values(
            |id: u32|
                dot_distance(
                    arith::calc(*arith),
                    prepared@,
                    code_row(packed@, stride as nat, id as int),
                    renorm@[id as int],
                ),
        ),
{
    let ghost m = arith::calc(*arith);
    let ghost goal = ids@.map_values(
        |id: u32|
            dot_distance(
                m,
                prepared@,
                code_row(packed@, stride as nat, id as int),
                renorm@[id as int],
            ),
    );
    let n: usize = ids.len();
    let mut out: Vec<u32> = Vec::new();
    for i in 0..n
        invariant
            arith::is_arithmetic(*arith),
            m == arith::calc(*arith),
            n == ids@.len(),
            2 * stride == prepared.q_lut@.len(),
            forall|i: int|
                0 <= i < ids@.len() ==> (#[trigger] ids@[i]) < renorm@.len() && (ids@[i] + 1)
                    * stride <= packed@.len(),
            goal == ids@.map_values(
                |id: u32|
                    dot_distance(
                        m,
                        prepared@,
                        code_row(packed@, stride as nat, id as int),
                        renorm@[id as int],
                    ),
            ),
            out@ == goal.take(i as int),
    {
        let id: usize = ids[i] as usize;
        let d: u32 = dist_dot_packed(
            arith,
            prepared,
            row_slice(packed, stride, id),
            renorm[id],
        );
        out.push(d);
        assert(out@ =~= goal.take(i + 1));
    }
    assert(goal.take(n as int) =~= goal);
    out
}

/// Euclidean distance of a packed row, by way of the row that its codes stand for.
pub fn dist_l2_packed<A: Fn(Op, u32, u32) -> u32>(
    arith: &A,
    prepared: &PreparedQuery,
    packed_row: &[u8],
    dim: usize,
    padded: usize,
    codebook: &Codebook,
    tqplus: &TqPlus,
    scale: u32,
) -> (r: u32)
    requires
        arith::is_arithmetic(*arith),
        rotation::has_rotation(padded as int),
        dim <= padded,
        dim <= prepared.q_orig@.len(),
        levels_known(packed_row@, padded as nat, codebook@),
        calibrates(tqplus@, codes_within(packed_row@.len(), padded as nat)),
    ensures
        r == metric::l2_distance(
            arith::calc(*arith),
            prepared.q_orig@.take(dim as int),
            reconstructed(
                arith::calc(*arith),
                packed_row@,
                dim as nat,
                padded as nat,
                codebook@,
                tqplus@,
                scale,
            ),
        ),
{
    let rec: Vec<u32> = reconstruct_row(
        arith,
        packed_row,
        dim,
        padded,
        codebook,
        tqplus,
        scale,
    );
    let query = &prepared.q_orig.as_slice()[0..dim];
    assert(query@ =~= prepared.q_orig@.take(dim as int));
    dist_l2(arith, query, rec.as_slice())
}

} // verus!
