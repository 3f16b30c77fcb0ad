//! What is decoded from 4-bit codes is what was encoded in them.

use vstd::prelude::*;

use crate::arith;
use crate::arith::{Calc, Op};
use crate::floatbits;
use crate::floatbits::{ONE_BITS, TINY_BITS};
use crate::rotation;
use crate::scoring;
use crate::turboquant;
use crate::turboquant::{Calibration, Levels, N_LEVELS};
use crate::wide::WideCalc;

verus! {

/// A rotated row of a field.
pub open spec fn rotated_row(m: Calc, flat: Seq<u32>, dim: nat, i: int) -> Seq<u32> {
    rotation::rotated(
        m,
        turboquant::row_at(flat, dim, i),
        turboquant::padded_of(dim),
        rotation::signs_of(turboquant::padded_of(dim) as usize),
    )
}

proof fn lemma_packed_row(
    m: Calc,
    rows: Seq<Seq<u32>>,
    n: nat,
    t: Calibration,
    c: Levels,
    padded: nat,
    i: int,
)
    requires
        0 <= i < n <= rows.len(),
        forall|k: int| 0 <= k < rows.len() ==> (#[trigger] rows[k]).len() == padded,
    ensures
        turboquant::packed_rows(m, rows, n, t, c).len() == n * (padded / 2),
        scoring::code_row(turboquant::packed_rows(m, rows, n, t, c), padded / 2, i)
            == turboquant::packed_nibbles(turboquant::row_codes(m, rows[i], t, c)),
    decreases n,
{
    let w = (padded / 2) as int;
    let head = turboquant::packed_rows(m, rows, (n - 1) as nat, t, c);
    let last = turboquant::packed_nibbles(turboquant::row_codes(m, rows[n - 1], t, c));
    let all = turboquant::packed_rows(m, rows, n, t, c);
    assert(rows[n - 1].len() == padded);
    assert(last.len() == w);
    assert((n - 1) * w + w == n * w) by (nonlinear_arith);
    if n > 1 {
        lemma_packed_row(
            m,
            rows,
            (n - 1) as nat,
            t,
            c,
            padded,
            if i < n - 1 {
                i
            } else {
                0
            },
        );
    } else {
        assert((n - 1) * w == 0) by (nonlinear_arith)
            requires
                n == 1,
        ;
    }
    assert(head.len() == (n - 1) * w);
    if i < n - 1 {
        turboquant::lemma_row_range(n - 1, w, i);
        assert(scoring::code_row(all, padded / 2, i) =~= scoring::code_row(head, padded / 2, i));
    } else {
        assert(scoring::code_row(all, padded / 2, i) =~= last);
    }
}

proof fn lemma_level_bound(x: u32, boundaries: Seq<u32>)
    ensures
        turboquant::level_of(x, boundaries) <= boundaries.len(),
    decreases boundaries.len(),
{
    if boundaries.len() > 0 {
        lemma_level_bound(x, boundaries.drop_first());
    }
}

/// The codes of a row are found in its place, and they are the levels that the row's
/// components fall in, provided that there are no more levels than a code can tell
/// apart.
pub proof fn row_codes_are_found(
    m: Calc,
    w: WideCalc,
    n: nat,
    dim: nat,
    flat: Seq<u32>,
    c: Levels,
    i: int,
)
    requires
        0 <= i < n,
        c.boundaries.len() < N_LEVELS,
    ensures
        ({
            let e = turboquant::encoded(m, w, n, dim, flat, c);
            let row = scoring::code_row(e.packed, e.padded / 2, i);
            let codes = turboquant::row_codes(m, rotated_row(m, flat, dim, i), e.tqplus, c);
            &&& row == turboquant::packed_nibbles(codes)
            &&& turboquant::unpacked(row) == codes
        }),
{
    let e = turboquant::encoded(m, w, n, dim, flat, c);
    let padded = turboquant::padded_of(dim);
    let rows = turboquant::rotated_rows(m, flat, n, dim);
    assert forall|k: int| 0 <= k < rows.len() implies (#[trigger] rows[k]).len() == padded by {
        rotation::lemma_rotated_len(
            m,
            turboquant::row_at(flat, dim, k),
            padded,
            rotation::signs_of(padded as usize),
        );
    }
    lemma_packed_row(m, rows, n, e.tqplus, c, padded, i);
    turboquant::padded_is_least_power_of_two(dim);
    let codes = turboquant::row_codes(m, rows[i], e.tqplus, c);
    assert(rows[i].len() == padded);
    assert forall|k: int| 0 <= k < codes.len() implies #[trigger] codes[k] < N_LEVELS by {
        lemma_level_bound(
            m(Op::Mul, m(Op::Add, rows[i][k], e.tqplus.shift[k]), e.tqplus.scale[k]),
            c.boundaries,
        );
    }
    turboquant::codes_survive_packing(codes);
}

/// What the codes of a row stand for is, component by component, what the levels that
/// the rotated row falls in stand for.
pub proof fn decoding_gives_the_levels(
    m: Calc,
    w: WideCalc,
    n: nat,
    dim: nat,
    flat: Seq<u32>,
    c: Levels,
    i: int,
)
    requires
        0 <= i < n,
        c.boundaries.len() < N_LEVELS,
    ensures
        ({
            let e = turboquant::encoded(m, w, n, dim, flat, c);
            let codes = turboquant::row_codes(m, rotated_row(m, flat, dim, i), e.tqplus, c);
            scoring::decoded(
                m,
                scoring::code_row(e.packed, e.padded / 2, i),
                e.padded,
                c,
                e.tqplus,
            ) == Seq::new(
                e.padded,
                |k: int|
                    turboquant::level_value(
                        m,
                        c.centroids[codes[k] as int],
                        e.tqplus.shift[k],
                        e.tqplus.scale[k],
                    ),
            )
        }),
{
    row_codes_are_found(m, w, n, dim, flat, c, i);
    turboquant::padded_is_least_power_of_two(dim);
    let e = turboquant::encoded(m, w, n, dim, flat, c);
    let row = scoring::code_row(e.packed, e.padded / 2, i);
    let codes = turboquant::row_codes(m, rotated_row(m, flat, dim, i), e.tqplus, c);
    rotation::lemma_rotated_len(
        m,
        turboquant::row_at(flat, dim, i),
        turboquant::padded_of(dim),
        rotation::signs_of(turboquant::padded_of(dim) as usize),
    );
    assert(turboquant::unpacked(row).len() == e.padded);
    assert forall|k: int| 0 <= k < e.padded implies turboquant::code_at(row, k)
        == #[trigger] codes[k] by {
        assert(turboquant::unpacked(row)[k] == codes[k]);
    }
    assert(scoring::decoded(m, row, e.padded, c, e.tqplus) =~= Seq::new(
        e.padded,
        |k: int|
            turboquant::level_value(
                m,
                c.centroids[codes[k] as int],
                e.tqplus.shift[k],
                e.tqplus.scale[k],
            ),
    ));
}

// ---------------------------------------------------------------------------
// Levels and lengths
// ---------------------------------------------------------------------------

/// Whether a number falls in a level: it is at or above each boundary before the level, and
/// below the boundary behind it, if there is one.
pub open spec fn falls_in(x: u32, level: int, boundaries: Seq<u32>) -> bool {
    &&& 0 <= level <= boundaries.len()
    &&& forall|j: int| 0 <= j < level ==> floatbits::at_least(x, #[trigger] boundaries[j])
    &&& level < boundaries.len() ==> !floatbits::at_least(x, boundaries[level])
}

/// Code `d` of row `i`, where a row takes `stride` bytes: the low half of a byte for even
/// `d`, and else its high half.
pub open spec fn stored_code(packed: Seq<u8>, stride: int, i: int, d: int) -> int {
    let byte = packed[i * stride + d / 2] as int;
    if d % 2 == 0 {
        byte % 16
    } else {
        byte / 16
    }
}

proof fn lemma_falls_in(x: u32, boundaries: Seq<u32>)
    ensures
        falls_in(x, turboquant::level_of(x, boundaries) as int, boundaries),
    decreases boundaries.len(),
{
    if boundaries.len() > 0 && floatbits::at_least(x, boundaries[0]) {
        let rest = boundaries.drop_first();
        let level = turboquant::level_of(x, boundaries) as int;
        lemma_falls_in(x, rest);
        assert forall|j: int| 0 <= j < level implies floatbits::at_least(
            x,
            #[trigger] boundaries[j],
        ) by {
            if j > 0 {
                assert(rest[j - 1] == boundaries[j]);
            }
        }
        if level < boundaries.len() {
            assert(rest[level - 1] == boundaries[level]);
        }
    }
}

proof fn lemma_stored_code(
    m: Calc,
    w: WideCalc,
    n: nat,
    dim: nat,
    flat: Seq<u32>,
    c: Levels,
    i: int,
    d: int,
)
    requires
        0 <= i < n,
        0 <= d < turboquant::padded_of(dim),
        c.boundaries.len() < N_LEVELS,
    ensures
        ({
            let e = turboquant::encoded(m, w, n, dim, flat, c);
            let padded = turboquant::padded_of(dim);
            let stride = padded as int / 2;
            let code = stored_code(e.packed, stride, i, d);
            &&& e.packed.len() == n * stride
            &&& e.padded == padded
            &&& 0 <= i * stride + d / 2 < e.packed.len()
            &&& code == turboquant::code_at(scoring::code_row(e.packed, padded / 2, i), d)
            &&& code == turboquant::row_codes(
                m,
                rotated_row(m, flat, dim, i),
                e.tqplus,
                c,
            )[d]
            &&& code <= c.boundaries.len()
        }),
{
    let e = turboquant::encoded(m, w, n, dim, flat, c);
    let padded = turboquant::padded_of(dim);
    let stride = padded as int / 2;
    let rows = turboquant::rotated_rows(m, flat, n, dim);
    turboquant::padded_is_least_power_of_two(dim);
    assert forall|k: int| 0 <= k < rows.len() implies (#[trigger] rows[k]).len() == padded by {
        rotation::lemma_rotated_len(
            m,
            turboquant::row_at(flat, dim, k),
            padded,
            rotation::signs_of(padded as usize),
        );
    }
    lemma_packed_row(m, rows, n, e.tqplus, c, padded, i);
    row_codes_are_found(m, w, n, dim, flat, c, i);
    turboquant::lemma_row_range(n as int, stride, i);
    let row = scoring::code_row(e.packed, padded / 2, i);
    let codes = turboquant::row_codes(m, rows[i], e.tqplus, c);
    assert(rows[i].len() == padded);
    assert(row.len() == stride);
    assert(row[d / 2] == e.packed[i * stride + d / 2]);
    assert(turboquant::unpacked(row)[d] == codes[d]);
    lemma_level_bound(
        m(Op::Mul, m(Op::Add, rows[i][d], e.tqplus.shift[d]), e.tqplus.scale[d]),
        c.boundaries,
    );
}

/// Every component of every row gets the level that it falls in, once it is rotated, shifted
/// and scaled. Its code stands in the row's bytes: two codes to a byte, the first in the
/// low half.
pub proof fn every_component_gets_its_level(
    m: Calc,
    w: WideCalc,
    n: nat,
    dim: nat,
    flat: Seq<u32>,
    c: Levels,
    i: int,
    d: int,
)
    requires
        0 <= i < n,
        0 <= d < turboquant::padded_of(dim),
        c.boundaries.len() < N_LEVELS,
    ensures
        ({
            let e = turboquant::encoded(m, w, n, dim, flat, c);
            let padded = turboquant::padded_of(dim);
            let u = rotation::rotated(
                m,
                flat.subrange(i * dim, i * dim + dim),
                padded,
                rotation::signs_of(padded as usize),
            );
            let x = m(Op::Mul, m(Op::Add, u[d], e.tqplus.shift[d]), e.tqplus.scale[d]);
            &&& e.packed.len() == n * (padded as int / 2)
            &&& falls_in(x, stored_code(e.packed, padded as int / 2, i, d), c.boundaries)
        }),
{
    let e = turboquant::encoded(m, w, n, dim, flat, c);
    let u = rotated_row(m, flat, dim, i);
    lemma_stored_code(m, w, n, dim, flat, c, i, d);
    rotation::lemma_rotated_len(
        m,
        turboquant::row_at(flat, dim, i),
        turboquant::padded_of(dim),
        rotation::signs_of(turboquant::padded_of(dim) as usize),
    );
    lemma_falls_in(
        m(Op::Mul, m(Op::Add, u[d], e.tqplus.shift[d]), e.tqplus.scale[d]),
        c.boundaries,
    );
}

/// The length that is stored of a row is the row's length over how far the row, rotated,
/// overlaps with what its codes stand for; and the row's length where it hardly overlaps.
pub proof fn stored_length_makes_up_for_the_codes(
    m: Calc,
    w: WideCalc,
    n: nat,
    dim: nat,
    flat: Seq<u32>,
    c: Levels,
    i: int,
)
    requires
        0 <= i < n,
        c.boundaries.len() < N_LEVELS,
    ensures
        ({
            let e = turboquant::encoded(m, w, n, dim, flat, c);
            let padded = turboquant::padded_of(dim);
            let row = flat.subrange(i * dim, i * dim + dim);
            let length = m(
                Op::Sqrt,
                arith::total(m, 0, Seq::new(row.len(), |k: int| m(Op::Mul, row[k], row[k]))),
                0,
            );
            let u = rotation::rotated(m, row, padded, rotation::signs_of(padded as usize));
            let overlap = arith::total(
                m,
                0,
                Seq::new(
                    padded,
                    |k: int|
                        m(
                            Op::Mul,
                            u[k],
                            m(
                                Op::Sub,
                                m(
                                    Op::Div,
                                    c.centroids[stored_code(e.packed, padded as int / 2, i, k)],
                                    e.tqplus.scale[k],
                                ),
                                e.tqplus.shift[k],
                            ),
                        ),
                ),
            );
            &&& e.renorm.len() == n
            &&& e.renorm[i] == if floatbits::less(TINY_BITS, floatbits::absolute(overlap)) {
                m(Op::Div, length, overlap)
            } else {
                length
            }
        }),
{
    let e = turboquant::encoded(m, w, n, dim, flat, c);
    let padded = turboquant::padded_of(dim);
    let row = turboquant::row_at(flat, dim, i);
    let u = rotated_row(m, flat, dim, i);
    rotation::lemma_rotated_len(m, row, padded, rotation::signs_of(padded as usize));
    let terms = Seq::new(
        padded,
        |k: int|
            m(
                Op::Mul,
                u[k],
                m(
                    Op::Sub,
                    m(
                        Op::Div,
                        c.centroids[stored_code(e.packed, padded as int / 2, i, k)],
                        e.tqplus.scale[k],
                    ),
                    e.tqplus.shift[k],
                ),
            ),
    );
    assert forall|k: int| 0 <= k < padded implies #[trigger] terms[k] == turboquant::overlaps(
        m,
        u,
        e.tqplus,
        c,
    )[k] by {
        lemma_stored_code(m, w, n, dim, flat, c, i, k);
        assert(floatbits::less(0, e.tqplus.scale[k]));
    }
    assert(terms =~= turboquant::overlaps(m, u, e.tqplus, c));
    assert(rotation::squares(m, row) =~= Seq::new(
        row.len(),
        |k: int| m(Op::Mul, row[k], row[k]),
    ));
}

/// What a row's bytes stand for is found component by component: the number of the level of
/// each code is divided by the scale and the shift taken off; the result is transformed,
/// its signs are turned, and it is multiplied by the stored length.
pub proof fn codes_stand_for_stretched_rows(
    m: Calc,
    packed: Seq<u8>,
    dim: nat,
    padded: nat,
    c: Levels,
    t: Calibration,
    length: u32,
    d: int,
)
    requires
        0 <= d < dim <= padded,
        rotation::has_rotation(padded as int),
        2 * packed.len() == padded,
        forall|k: int| 0 <= k < padded ==> floatbits::less(0, #[trigger] t.scale[k]),
    ensures
        ({
            let y = Seq::new(
                padded,
                |k: int|
                    m(
                        Op::Sub,
                        m(Op::Div, c.centroids[stored_code(packed, 0, 0, k)], t.scale[k]),
                        t.shift[k],
                    ),
            );
            let turned = m(
                Op::Mul,
                rotation::transformed(m, y)[d],
                rotation::sign_at(padded as usize, d as nat),
            );
            let row = scoring::reconstructed(m, packed, dim, padded, c, t, length);
            &&& row.len() == dim
            &&& row[d] == if length == ONE_BITS {
                turned
            } else {
                m(Op::Mul, turned, length)
            }
        }),
{
    let y = Seq::new(
        padded,
        |k: int|
            m(
                Op::Sub,
                m(Op::Div, c.centroids[stored_code(packed, 0, 0, k)], t.scale[k]),
                t.shift[k],
            ),
    );
    let decoded = scoring::decoded(m, packed, padded, c, t);
    assert forall|k: int| 0 <= k < padded implies #[trigger] y[k] == decoded[k] by {
        assert(floatbits::less(0, t.scale[k]));
        assert(0 * 0 + k / 2 == k / 2);
    }
    assert(y =~= decoded);
    rotation::lemma_passes_len(m, decoded, 1);
}

/// Rows of up to 8192 components are filled up to the next power of two, at least four, and
/// there is a rotation for that length.
pub proof fn dimensions_up_to_8192_can_be_coded(dim: nat)
    requires
        dim <= 8192,
    ensures
        rotation::has_rotation(turboquant::padded_of(dim) as int),
        turboquant::paddable(dim as int),
        turboquant::padded_of(dim) >= dim,
        turboquant::padded_of(dim) >= 4,
        turboquant::padded_of(dim) == 4 || turboquant::padded_of(dim) < 2 * dim,
{
    reveal_with_fuel(turboquant::doubled, 13);
}

/// A code is decoded to the number of its level, divided by the scale and less the shift; to
/// zero where the scale is not above zero; and components without a code are zero.
pub proof fn codes_are_decoded_one_by_one(
    m: Calc,
    packed: Seq<u8>,
    padded: nat,
    c: Levels,
    t: Calibration,
    k: int,
)
    requires
        0 <= k < padded,
    ensures
        ({
            let row = scoring::decoded(m, packed, padded, c, t);
            let coded = k < 2 * packed.len();
            let scaled = floatbits::less(0, t.scale[k]);
            &&& row.len() == padded
            &&& coded && scaled ==> row[k] == m(
                Op::Sub,
                m(Op::Div, c.centroids[stored_code(packed, 0, 0, k)], t.scale[k]),
                t.shift[k],
            )
            &&& !coded || !scaled ==> row[k] == 0
        }),
{
    assert(0 * 0 + k / 2 == k / 2);
}

/// The table of levels holds the codebook's numbers at their places, and zeros at the places
/// of levels that the codebook lacks.
pub proof fn level_tables_hold_the_levels(centroids: Seq<u32>, i: int)
    requires
        0 <= i < 16,
    ensures
        turboquant::level_table(centroids).len() == 16,
        i < centroids.len() ==> turboquant::level_table(centroids)[i] == centroids[i],
        i >= centroids.len() ==> turboquant::level_table(centroids)[i] == 0,
{
}

} // verus!
