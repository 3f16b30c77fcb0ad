//! Scoring packed rows. Where arithmetic is exact, the inner product taken from the codes
//! is that with the row that the codes stand for; in any arithmetic it adds up every code.

use vstd::prelude::*;

use crate::arith;
use crate::arith::{Calc, Op};
use crate::codec_laws;
use crate::exact;
use crate::floatbits;
use crate::floatbits::{ONE_BITS, TINY_BITS};
use crate::metric;
use crate::rotation;
use crate::rotation_laws;
use crate::scoring;
use crate::turboquant;
use crate::turboquant::{Calibration, Levels, N_LEVELS};
use crate::wide::WideCalc;

verus! {

/// The scales of a field's calibration are above zero.
pub proof fn calibrated_scales_are_positive(
    m: Calc,
    w: WideCalc,
    n: nat,
    dim: nat,
    flat: Seq<u32>,
    c: Levels,
    d: int,
)
    requires
        0 <= d < turboquant::padded_of(dim),
    ensures
        d < turboquant::encoded(m, w, n, dim, flat, c).tqplus.scale.len(),
        floatbits::less(0, turboquant::encoded(m, w, n, dim, flat, c).tqplus.scale[d]),
{
}

/// Numbers taken off one by one are taken off together.
proof fn lemma_reduced(m: Calc, num: Set<u32>, terms: Seq<u32>)
    requires
        exact::is_exact(m, num),
        exact::all_in(num, terms),
    ensures
        num.contains(scoring::reduced(m, 0, terms)),
        m(Op::Add, scoring::reduced(m, 0, terms), exact::sum(m, terms)) == 0,
    decreases terms.len(),
{
    exact::lemma_zero(m, num);
    if terms.len() > 0 {
        let init = terms.drop_last();
        assert forall|i: int| 0 <= i < init.len() implies num.contains(#[trigger] init[i]) by {
            assert(init[i] == terms[i]);
        }
        lemma_reduced(m, num, init);
        exact::lemma_total(m, num, 0, init);
        let r = scoring::reduced(m, 0, init);
        let s = exact::sum(m, init);
        let x = terms.last();
        exact::lemma_closed(m, num, r, x);
        exact::lemma_closed(m, num, s, x);
        exact::lemma_three(m, num, m(Op::Sub, r, x), x, s);
    }
}

/// A divided factor may be the one or the other.
proof fn lemma_divide_other(m: Calc, num: Set<u32>, x: u32, c: u32, scale: u32)
    requires
        exact::is_exact(m, num),
        num.contains(x),
        num.contains(c),
        num.contains(scale),
        scale != 0,
    ensures
        num.contains(m(Op::Div, c, scale)),
        m(Op::Mul, m(Op::Div, x, scale), c) == m(Op::Mul, x, m(Op::Div, c, scale)),
{
    let u = m(Op::Div, x, scale);
    let v = m(Op::Div, c, scale);
    exact::lemma_quotient(m, num, x, scale);
    exact::lemma_quotient(m, num, c, scale);
    exact::lemma_closed(m, num, v, scale);
    exact::lemma_three(m, num, u, scale, v);
}

/// Numbers that a field's codes stand for, and the calibration behind them, that exact
/// arithmetic works on.
pub open spec fn exact_codes(num: Set<u32>, c: Levels, t: Calibration, padded: nat) -> bool {
    &&& c.centroids.len() >= N_LEVELS
    &&& exact::all_in(num, c.centroids)
    &&& scoring::calibrates(t, padded)
    &&& forall|k: int|
        0 <= k < padded ==> num.contains(#[trigger] t.shift[k]) && num.contains(t.scale[k])
            && floatbits::less(0, t.scale[k])
}

proof fn lemma_decoded_in(
    m: Calc,
    num: Set<u32>,
    packed: Seq<u8>,
    c: Levels,
    t: Calibration,
    padded: nat,
)
    requires
        exact::is_exact(m, num),
        exact_codes(num, c, t, padded),
        2 * packed.len() == padded,
    ensures
        exact::all_in(num, scoring::decoded(m, packed, padded, c, t)),
{
    let y = scoring::decoded(m, packed, padded, c, t);
    assert forall|k: int| 0 <= k < padded implies num.contains(#[trigger] y[k]) by {
        let level = c.centroids[turboquant::code_at(packed, k) as int];
        assert(num.contains(t.shift[k]));
        exact::lemma_quotient(m, num, level, t.scale[k]);
        exact::lemma_closed(m, num, m(Op::Div, level, t.scale[k]), t.shift[k]);
    }
}

/// The table entries that a row picks add up, with the bias, to the inner product of
/// the rotated query and the rotated row.
proof fn lemma_picked_sum(
    m: Calc,
    num: Set<u32>,
    query: Seq<u32>,
    dim: nat,
    packed: Seq<u8>,
    c: Levels,
    t: Calibration,
)
    requires
        exact::is_exact(m, num),
        exact::all_in(num, scoring::rotated_query(m, query, dim)),
        exact_codes(num, c, t, turboquant::padded_of(dim)),
        2 * packed.len() == turboquant::padded_of(dim),
    ensures
        arith::total(
            m,
            scoring::prepared(m, query, dim, t, c).bias,
            scoring::picked(scoring::prepared(m, query, dim, t, c), packed),
        ) == exact::dot(
            m,
            scoring::rotated_query(m, query, dim),
            scoring::decoded(m, packed, turboquant::padded_of(dim), c, t),
        ),
{
    let padded = turboquant::padded_of(dim);
    let rot = scoring::rotated_query(m, query, dim);
    let y = scoring::decoded(m, packed, padded, c, t);
    let p = scoring::prepared(m, query, dim, t, c);
    let picked = scoring::picked(p, packed);
    let moved = Seq::new(rot.len(), |i: int| m(Op::Mul, rot[i], t.shift[i]));
    let inner = metric::products(m, rot, y);
    rotation::lemma_rotated_len(
        m,
        query.take(dim as int),
        padded,
        rotation::signs_of(padded as usize),
    );
    lemma_decoded_in(m, num, packed, c, t, padded);
    exact::lemma_products_in(m, num, rot, y);
    exact::lemma_zero(m, num);
    assert forall|k: int| 0 <= k < padded implies num.contains(#[trigger] moved[k]) by {
        assert(num.contains(t.shift[k]));
        exact::lemma_closed(m, num, rot[k], t.shift[k]);
    }
    assert forall|k: int| 0 <= k < padded implies #[trigger] picked[k] == m(
        Op::Add,
        inner[k],
        moved[k],
    ) by {
        let code = turboquant::code_at(packed, k) as int;
        let level = c.centroids[code];
        let v = m(Op::Div, level, t.scale[k]);
        assert(num.contains(t.shift[k]));
        assert(p.lut[k] == scoring::contributions(m, rot[k], t.scale[k], c));
        lemma_divide_other(m, num, rot[k], level, t.scale[k]);
        exact::lemma_closed(m, num, v, t.shift[k]);
        exact::lemma_three(m, num, rot[k], y[k], t.shift[k]);
    }
    exact::lemma_sum_of_pairs(m, num, inner, moved, picked);
    lemma_reduced(m, num, moved);
    exact::lemma_total(m, num, p.bias, picked);
    exact::lemma_total(m, num, 0, moved);
    let (d, s) = (exact::sum(m, inner), exact::sum(m, moved));
    exact::lemma_closed(m, num, d, s);
    exact::lemma_closed(m, num, p.bias, s);
    exact::lemma_three(m, num, p.bias, s, d);
    exact::lemma_closed(m, num, d, 0);
}

proof fn lemma_sum_of_zeros(m: Calc, num: Set<u32>, terms: Seq<u32>)
    requires
        exact::is_exact(m, num),
        forall|i: int| 0 <= i < terms.len() ==> #[trigger] terms[i] == 0,
    ensures
        exact::sum(m, terms) == 0,
    decreases terms.len(),
{
    exact::lemma_zero(m, num);
    if terms.len() > 0 {
        lemma_sum_of_zeros(m, num, terms.drop_last());
    }
}

/// A query scaled to unit length.
pub open spec fn unit_query(m: Calc, query: Seq<u32>, dim: nat) -> Seq<u32> {
    rotation_laws::unit_padded(m, query.take(dim as int), dim)
}

/// Where arithmetic is exact, the inner product that is taken from a row's codes is
/// the inner product of the query, scaled to unit length, with the row that the codes
/// stand for; and so is the distance.
pub proof fn scoring_agrees_with_reconstruction(
    m: Calc,
    num: Set<u32>,
    query: Seq<u32>,
    dim: nat,
    packed: Seq<u8>,
    c: Levels,
    t: Calibration,
    renorm: u32,
)
    requires
        exact::is_exact(m, num),
        dim <= query.len(),
        exact::all_in(num, query),
        num.contains(rotation::to_unit(m, rotation::norm_of(m, query.take(dim as int)))),
        rotation::has_rotation(turboquant::padded_of(dim) as int),
        rotation_laws::has_exact_root(m, num, turboquant::padded_of(dim)),
        exact_codes(num, c, t, turboquant::padded_of(dim)),
        2 * packed.len() == turboquant::padded_of(dim),
        num.contains(renorm),
    ensures
        ({
            let p = scoring::prepared(m, query, dim, t, c);
            let unit = unit_query(m, query, dim);
            let row = scoring::reconstructed(
                m,
                packed,
                dim,
                turboquant::padded_of(dim),
                c,
                t,
                renorm,
            );
            &&& scoring::inner_product(m, p, packed, renorm) == exact::dot(m, unit, row)
            &&& scoring::dot_distance(m, p, packed, renorm) == metric::dot_distance(m, unit, row)
        }),
{
    let padded = turboquant::padded_of(dim);
    let src = query.take(dim as int);
    let signs = rotation::signs_of(padded as usize);
    let inv = rotation::to_unit(m, rotation::norm_of(m, src));
    let f = rotation::flipped(m, src, padded, signs);
    let rot = scoring::rotated_query(m, query, dim);
    let y = scoring::decoded(m, packed, padded, c, t);
    let ty = rotation::transformed(m, y);
    let unit = unit_query(m, query, dim);
    let row = scoring::reconstructed(m, packed, dim, padded, c, t, renorm);
    turboquant::padded_is_least_power_of_two(dim);
    rotation::lemma_rotation_is_pow2(padded as int);
    assert(exact::all_in(num, src));
    rotation_laws::lemma_flipped_in(m, num, src, padded as usize);
    lemma_decoded_in(m, num, packed, c, t, padded);
    rotation_laws::transform_is_self_inverse(m, num, f);
    rotation_laws::transform_is_self_inverse(m, num, y);
    rotation::lemma_rotated_len(m, src, padded, signs);
    rotation::lemma_passes_len(m, y, 1);
    lemma_picked_sum(m, num, query, dim, packed, c, t);
    // <T f, y> == <T f, T (T y)> == <f, T y>
    rotation_laws::transform_keeps_inner_products(m, num, f, ty);
    exact::lemma_zero(m, num);
    let all = metric::products(m, f, ty);
    exact::lemma_products_in(m, num, f, ty);
    let (head, tail) = (all.take(dim as int), all.skip(dim as int));
    assert(exact::all_in(num, head) && exact::all_in(num, tail));
    exact::lemma_sum_concat(m, num, head, tail);
    assert(head + tail =~= all);
    assert forall|i: int| 0 <= i < tail.len() implies #[trigger] tail[i] == 0 by {
        let k = i + dim;
        assert(tail[i] == all[k] && num.contains(ty[k]));
        exact::lemma_mul_sub(m, num, ty[k], ty[k], ty[k]);
    }
    lemma_sum_of_zeros(m, num, tail);
    exact::lemma_total(m, num, 0, head);
    exact::lemma_closed(m, num, exact::sum(m, head), 0);
    // Component by component, times the row's length.
    let goal = metric::products(m, unit, row);
    assert forall|i: int| 0 <= i < dim implies #[trigger] goal[i] == m(
        Op::Mul,
        head[i],
        renorm,
    ) by {
        let x = m(Op::Mul, src[i], inv);
        let s = signs[i];
        let back = m(Op::Mul, ty[i], s);
        assert(num.contains(src[i]) && num.contains(s) && num.contains(ty[i]));
        exact::lemma_closed(m, num, src[i], inv);
        exact::lemma_closed(m, num, ty[i], s);
        exact::lemma_closed(m, num, back, renorm);
        assert(row[i] == m(Op::Mul, back, renorm));
        exact::lemma_three(m, num, x, s, ty[i]);
        exact::lemma_three(m, num, x, back, renorm);
    }
    exact::lemma_sum_of_multiples(m, num, head, renorm, goal);
}

/// Where arithmetic is exact, the inner product of a coded row with its own direction
/// is the row's length, provided that its codes overlap with it.
pub proof fn own_inner_product_is_the_length(
    m: Calc,
    num: Set<u32>,
    w: WideCalc,
    n: nat,
    dim: nat,
    flat: Seq<u32>,
    c: Levels,
    i: int,
)
    requires
        exact::is_exact(m, num),
        0 <= i < n,
        flat.len() == n * dim,
        c.boundaries.len() < N_LEVELS,
        exact::all_in(num, flat),
        num.contains(rotation::norm_of(m, turboquant::row_at(flat, dim, i))),
        num.contains(
            rotation::to_unit(m, rotation::norm_of(m, turboquant::row_at(flat, dim, i))),
        ),
        rotation::has_rotation(turboquant::padded_of(dim) as int),
        rotation_laws::has_exact_root(m, num, turboquant::padded_of(dim)),
        exact_codes(
            num,
            c,
            turboquant::encoded(m, w, n, dim, flat, c).tqplus,
            turboquant::padded_of(dim),
        ),
        floatbits::less(
            TINY_BITS,
            floatbits::absolute(
                arith::total(
                    m,
                    0,
                    turboquant::overlaps(
                        m,
                        codec_laws::rotated_row(m, flat, dim, i),
                        turboquant::encoded(m, w, n, dim, flat, c).tqplus,
                        c,
                    ),
                ),
            ),
        ),
    ensures
        ({
            let e = turboquant::encoded(m, w, n, dim, flat, c);
            let row = turboquant::row_at(flat, dim, i);
            scoring::inner_product(
                m,
                scoring::prepared(m, row, dim, e.tqplus, c),
                scoring::code_row(e.packed, e.padded / 2, i),
                e.renorm[i],
            ) == rotation::norm_of(m, row)
        }),
{
    let e = turboquant::encoded(m, w, n, dim, flat, c);
    let padded = turboquant::padded_of(dim);
    let row = turboquant::row_at(flat, dim, i);
    let norm = rotation::norm_of(m, row);
    let u = codec_laws::rotated_row(m, flat, dim, i);
    let signs = rotation::signs_of(padded as usize);
    let packed = scoring::code_row(e.packed, e.padded / 2, i);
    let y = scoring::decoded(m, packed, padded, c, e.tqplus);
    turboquant::lemma_row_range(n as int, dim as int, i);
    turboquant::padded_is_least_power_of_two(dim);
    rotation::lemma_rotation_is_pow2(padded as int);
    assert forall|k: int| 0 <= k < dim implies num.contains(#[trigger] row[k]) by {
        assert(row[k] == flat[i * dim + k]);
    }
    rotation_laws::lemma_flipped_in(m, num, row, padded as usize);
    rotation_laws::transform_is_self_inverse(m, num, rotation::flipped(m, row, padded, signs));
    rotation::lemma_rotated_len(m, row, padded, signs);
    assert(row.take(dim as int) =~= row);
    codec_laws::row_codes_are_found(m, w, n, dim, flat, c, i);
    codec_laws::decoding_gives_the_levels(m, w, n, dim, flat, c, i);
    assert(2 * packed.len() == padded);
    lemma_picked_sum(m, num, row, dim, packed, c, e.tqplus);
    lemma_decoded_in(m, num, packed, c, e.tqplus, padded);
    exact::lemma_products_in(m, num, u, y);
    let overlaps = turboquant::overlaps(m, u, e.tqplus, c);
    assert(metric::products(m, u, y) =~= overlaps);
    let overlap = exact::dot(m, u, y);
    exact::lemma_quotient(m, num, norm, overlap);
    exact::lemma_closed(m, num, overlap, m(Op::Div, norm, overlap));
}

// ---------------------------------------------------------------------------
// Code by code
// ---------------------------------------------------------------------------

/// Numbers are taken off in their order, each from what the ones before have left.
pub proof fn numbers_are_taken_off_one_by_one(m: Calc, from: u32, terms: Seq<u32>, x: u32)
    ensures
        scoring::reduced(m, from, Seq::empty()) == from,
        scoring::reduced(m, from, terms.push(x)) == m(
            Op::Sub,
            scoring::reduced(m, from, terms),
            x,
        ),
{
    assert(terms.push(x).drop_last() =~= terms);
}

/// The dot product distance of a packed row adds up over every code. Each adds the rotated
/// query's component, divided by the scale, times the number of the code's level. The sum
/// starts from the shifts, taken off with the query's components, and is multiplied by the
/// row's length; the distance is what is missing to one, but not below zero.
pub proof fn dot_distances_add_up_every_code(
    m: Calc,
    query: Seq<u32>,
    dim: nat,
    padded: usize,
    packed: Seq<u8>,
    c: Levels,
    t: Calibration,
    length: u32,
    terms: Seq<u32>,
)
    requires
        padded == turboquant::padded_of(dim),
        dim <= query.len(),
        2 * packed.len() == padded,
        c.centroids.len() >= 16,
        terms.len() == padded,
        ({
            let rot = rotation::rotated(
                m,
                query.take(dim as int),
                padded as nat,
                rotation::signs_of(padded),
            );
            forall|k: int|
                0 <= k < padded ==> {
                    let level = c.centroids[codec_laws::stored_code(packed, 0, 0, k)];
                    let part = if floatbits::less(0, t.scale[k]) {
                        m(Op::Div, rot[k], t.scale[k])
                    } else {
                        0
                    };
                    #[trigger] terms[k] == m(Op::Mul, part, level)
                }
        }),
    ensures
        ({
            let rot = rotation::rotated(
                m,
                query.take(dim as int),
                padded as nat,
                rotation::signs_of(padded),
            );
            let shifts = Seq::new(padded as nat, |k: int| m(Op::Mul, rot[k], t.shift[k]));
            let inner = m(
                Op::Mul,
                arith::total(m, scoring::reduced(m, 0, shifts), terms),
                length,
            );
            let rest = m(Op::Sub, ONE_BITS, inner);
            let p = scoring::prepared(m, query, dim, t, c);
            &&& floatbits::less(0, rest) ==> scoring::dot_distance(m, p, packed, length) == rest
            &&& !floatbits::less(0, rest) ==> scoring::dot_distance(m, p, packed, length) == 0
        }),
{
    let rot = rotation::rotated(
        m,
        query.take(dim as int),
        padded as nat,
        rotation::signs_of(padded),
    );
    rotation::lemma_rotated_len(
        m,
        query.take(dim as int),
        padded as nat,
        rotation::signs_of(padded),
    );
    let p = scoring::prepared(m, query, dim, t, c);
    let shifts = Seq::new(padded as nat, |k: int| m(Op::Mul, rot[k], t.shift[k]));
    assert(shifts =~= Seq::new(rot.len(), |i: int| m(Op::Mul, rot[i], t.shift[i])));
    let picked = scoring::picked(p, packed);
    assert forall|k: int| 0 <= k < padded implies #[trigger] picked[k] == terms[k] by {
        let code = codec_laws::stored_code(packed, 0, 0, k);
        assert(0 * 0 + k / 2 == k / 2);
        assert(code == turboquant::code_at(packed, k));
        assert(0 <= code < 16);
        assert(p.lut[k] == scoring::contributions(m, rot[k], t.scale[k], c));
        assert(turboquant::level_table(c.centroids)[code] == c.centroids[code]);
    }
    assert(picked =~= terms);
}

proof fn lemma_reconstructed_len(
    m: Calc,
    packed: Seq<u8>,
    dim: nat,
    padded: nat,
    c: Levels,
    t: Calibration,
    length: u32,
)
    requires
        dim <= padded,
    ensures
        scoring::reconstructed(m, packed, dim, padded, c, t, length).len() == dim,
{
    rotation::lemma_passes_len(m, scoring::decoded(m, packed, padded, c, t), 1);
}

proof fn lemma_reconstructed_rows_len(
    m: Calc,
    packed: Seq<u8>,
    n: nat,
    dim: nat,
    padded: nat,
    c: Levels,
    t: Calibration,
    renorm: Seq<u32>,
)
    requires
        dim <= padded,
    ensures
        scoring::reconstructed_rows(m, packed, n, dim, padded, c, t, renorm).len() == n * dim,
    decreases n,
{
    if n > 0 {
        let i = (n - 1) as nat;
        lemma_reconstructed_rows_len(m, packed, i, dim, padded, c, t, renorm);
        lemma_reconstructed_len(
            m,
            scoring::code_row(packed, padded / 2, i as int),
            dim,
            padded,
            c,
            t,
            scoring::length_of(renorm, i as int),
        );
        assert(i * dim + dim == n * dim) by (nonlinear_arith)
            requires
                i == n - 1,
        ;
    } else {
        assert(n * dim == 0) by (nonlinear_arith)
            requires
                n == 0,
        ;
    }
}

/// The rows that packed codes stand for come one behind the other. Each is the one that
/// its own bytes stand for, with its own length, or the length one where none is stored.
pub proof fn each_row_is_reconstructed_by_itself(
    m: Calc,
    packed: Seq<u8>,
    n: nat,
    dim: nat,
    padded: nat,
    c: Levels,
    t: Calibration,
    renorm: Seq<u32>,
    i: int,
)
    requires
        0 <= i < n,
        dim <= padded,
    ensures
        ({
            let rows = scoring::reconstructed_rows(m, packed, n, dim, padded, c, t, renorm);
            let bytes = packed.subrange(i * (padded / 2), i * (padded / 2) + padded / 2);
            let length = if i < renorm.len() {
                renorm[i]
            } else {
                ONE_BITS
            };
            &&& rows.len() == n * dim
            &&& rows.subrange(i * dim, i * dim + dim) == scoring::reconstructed(
                m,
                bytes,
                dim,
                padded,
                c,
                t,
                length,
            )
        }),
    decreases n,
{
    let last = (n - 1) as nat;
    let rows = scoring::reconstructed_rows(m, packed, n, dim, padded, c, t, renorm);
    let before = scoring::reconstructed_rows(m, packed, last, dim, padded, c, t, renorm);
    lemma_reconstructed_rows_len(m, packed, n, dim, padded, c, t, renorm);
    lemma_reconstructed_rows_len(m, packed, last, dim, padded, c, t, renorm);
    turboquant::lemma_row_range(n as int, dim as int, i);
    if i < last {
        each_row_is_reconstructed_by_itself(m, packed, last, dim, padded, c, t, renorm, i);
        turboquant::lemma_row_range(last as int, dim as int, i);
        assert(rows.subrange(i * dim, i * dim + dim) =~= before.subrange(
            i * dim,
            i * dim + dim,
        ));
    } else {
        let own = scoring::reconstructed(
            m,
            scoring::code_row(packed, padded / 2, i),
            dim,
            padded,
            c,
            t,
            scoring::length_of(renorm, i),
        );
        lemma_reconstructed_len(
            m,
            scoring::code_row(packed, padded / 2, i),
            dim,
            padded,
            c,
            t,
            scoring::length_of(renorm, i),
        );
        assert(rows == before + own);
        assert(rows.subrange(i * dim, i * dim + dim) =~= own);
    }
}

} // verus!
