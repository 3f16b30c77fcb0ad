//! How large the numbers on the way from a row to its codes can become, in IEEE arithmetic.

use vstd::arithmetic::power2::{is_pow2, pow2};
use vstd::prelude::*;

use crate::arith;
use crate::arith::{Calc, Op};
use crate::codebook;
use crate::direction_laws;
use crate::doubling_laws;
use crate::doubling_laws::{HIGH_BITS, LOW_BITS};
use crate::floatbits;
use crate::floatbits::{NEG_ONE_BITS, ONE_BITS, TINY_BITS};
use crate::hits;
use crate::ieee;
use crate::ieee::FRACTION;
use crate::rotation;
use crate::rounding;
use crate::rounding_laws;
use crate::turboquant;
use crate::turboquant::Levels;
use crate::wide::WideCalc;

verus! {

/// Whether a number is zero, or no smaller than a ten-thousand-millionth and no larger than
/// a thousand million millions.
pub open spec fn moderate(x: u32) -> bool {
    &&& floatbits::is_finite(x)
    &&& ieee::value(x) == 0 || ieee::one() <= 0x4_0000_0000 * ieee::size(ieee::value(x))
        && ieee::size(ieee::value(x))
        <= 0x4_0000_0000_0000 * ieee::one()
}

/// The range of numbers, written out.
proof fn lemma_range()
    ensures
        ieee::one() == 0x20_0000_0000_0000_0000_0000_0000_0000_0000_0000int,
        0x40_0000_0000_0000_0000_0000_0000_0000 * ieee::one() < ieee::units(
            HIGH_BITS as int - 2 * FRACTION,
        ),
        ieee::units(HIGH_BITS as int - 2 * FRACTION) < ieee::units(HIGH_BITS as int),
        0x40_0000_0000_0000_0000_0000_0000_0000 * ieee::one() < ieee::limit(),
        0x80_0000_0000 * ieee::value(TINY_BITS) < ieee::one(),
        ieee::one() <= 0x100_0000_0000 * ieee::value(TINY_BITS),
        ieee::value(ONE_BITS) == ieee::one(),
        ieee::value(NEG_ONE_BITS) == -ieee::one(),
        ieee::value(0) == 0,
        LOW_BITS < ieee::value(TINY_BITS),
{
    let f = FRACTION as int;
    vstd::arithmetic::power2::lemma2_to64();
    vstd::arithmetic::power2::lemma2_to64_rest();
    vstd::arithmetic::power2::lemma_pow2_adds(50, 50);
    vstd::arithmetic::power2::lemma_pow2_adds(49, 100);
    vstd::arithmetic::power2::lemma_pow2_adds(149, 100);
    vstd::arithmetic::power2::lemma_pow2_adds(86, 63);
    vstd::arithmetic::power2::lemma_pow2_pos(86);
    doubling_laws::lemma_ends();
    ieee::lemma_one();
    ieee::lemma_opposite(ONE_BITS);
    ieee::lemma_units(249, f);
    assert(HIGH_BITS - 2 * f == 249 * f + f);
    ieee::lemma_units_increase(HIGH_BITS as int - 2 * f, HIGH_BITS as int);
    let (a, b) = (pow2(149) as int, pow2(100) as int);
    assert(0x8_0000_0000_0000_0000_0000_0000 * a <= a * b) by (nonlinear_arith)
        requires
            0x8_0000_0000_0000_0000_0000_0000 <= b,
            0 < a,
    ;
    let digits: int = 0x8c_bccc;
    ieee::lemma_units(86, digits);
    assert(TINY_BITS == 86 * f + digits);
    assert(floatbits::opposite(ONE_BITS) == NEG_ONE_BITS);
}

proof fn lemma_mild(r: u32)
    requires
        floatbits::is_finite(r),
        LOW_BITS <= ieee::size(ieee::value(r))
            <= 0x40_0000_0000_0000_0000_0000_0000_0000 * ieee::one(),
    ensures
        doubling_laws::mild(r),
        doubling_laws::roomy(r),
{
    lemma_range();
    doubling_laws::lemma_has_room(r);
    let mag = floatbits::magnitude(r);
    let end = HIGH_BITS as int - 2 * FRACTION;
    if end < mag {
        ieee::lemma_units_increase(end, mag);
    }
}

/// A moderate number can be doubled.
pub(crate) proof fn lemma_moderate(x: u32)
    requires
        moderate(x),
    ensures
        doubling_laws::doubles(x),
{
    lemma_range();
    ieee::lemma_value_order(x, x);
    if ieee::value(x) != 0 {
        lemma_mild(x);
    }
}

/// The square of a component.
proof fn lemma_square(m: Calc, x: u32)
    requires
        ieee::is_ieee(m),
        moderate(x),
    ensures
        ({
            let square = m(Op::Mul, x, x);
            &&& floatbits::is_finite(square)
            &&& !floatbits::is_negative(square)
            &&& 0 <= ieee::value(square) <= 0x20_0000_0000_0000_0000_0000_0000 * ieee::one()
            &&& ieee::value(x) == 0 ==> ieee::value(square) == 0
            &&& ieee::value(x) != 0
                ==> ieee::one() <= 0x40_0000_0000_0000_0000 * ieee::value(square)
            &&& 3 * (ieee::value(x) * ieee::value(x)) <= 4 * (ieee::one() * ieee::value(square))
        }),
{
    let (o, p) = (ieee::one(), rounding::parts());
    let square = m(Op::Mul, x, x);
    let v = ieee::value(x);
    let vv = v * v;
    lemma_range();
    let top = 0x10_0000_0000_0000_0000_0000_0000 * o;
    assert(0 <= vv <= top * o) by (nonlinear_arith)
        requires
            vv == v * v,
            -(0x4_0000_0000_0000 * o) <= v <= 0x4_0000_0000_0000 * o,
            top == 0x10_0000_0000_0000_0000_0000_0000 * o,
            0 < o,
    ;
    rounding::lemma_mul(m, x, x, top);
    rounding::lemma_slack(top);
    assert(ieee::multiplies(x, x, square));
    ieee::lemma_value_order(square, square);
    if v == 0 {
        assert(vv == 0) by (nonlinear_arith)
            requires
                vv == v * v,
                v == 0,
        ;
        doubling_laws::lemma_nothing(square, o);
    } else {
        assert(o * o <= 0x10_0000_0000_0000_0000 * vv) by (nonlinear_arith)
            requires
                o <= 0x4_0000_0000 * ieee::size(v),
                ieee::size(v) == v || ieee::size(v) == -v,
                vv == v * v,
                0 < o,
        ;
    }
}

/// A sum of squares.
proof fn lemma_total(m: Calc, terms: Seq<u32>)
    requires
        ieee::is_ieee(m),
        terms.len() <= 8192,
        forall|i: int|
            0 <= i < terms.len() ==> {
                &&& floatbits::is_finite(#[trigger] terms[i])
                &&& !floatbits::is_negative(terms[i])
                &&& 0 <= ieee::value(terms[i]) <= 0x20_0000_0000_0000_0000_0000_0000 * ieee::one()
                &&& ieee::value(terms[i]) == 0
                    || ieee::one() <= 0x40_0000_0000_0000_0000 * ieee::value(terms[i])
            },
    ensures
        ({
            let total = arith::total(m, 0, terms);
            &&& floatbits::is_finite(total)
            &&& !floatbits::is_negative(total)
            &&& 0 <= ieee::value(total)
                <= terms.len() * (0x40_0000_0000_0000_0000_0000_0000 * ieee::one())
            &&& ieee::value(total) <= 0x8_0000_0000_0000_0000_0000_0000_0000 * ieee::one()
            &&& ieee::value(total) == 0
                || ieee::one() <= 0x40_0000_0000_0000_0000 * ieee::value(total)
            &&& forall|i: int|
                0 <= i < terms.len() ==> ieee::value(#[trigger] terms[i]) <= ieee::value(total)
        }),
    decreases terms.len(),
{
    let n = terms.len() as int;
    lemma_range();
    if n > 0 {
        let before = terms.drop_last();
        assert forall|i: int| 0 <= i < before.len() implies #[trigger] before[i] == terms[i] by {}
        lemma_total(m, before);
        let (s, t) = (arith::total(m, 0, before), terms[n - 1]);
        let total = arith::total(m, 0, terms);
        let top = 0x10_0000_0000_0000_0000_0000_0000_0000 * ieee::one();
        let (x, y) = (ieee::value(s), ieee::value(t));
        let k = 0x40_0000_0000_0000_0000_0000_0000 * ieee::one();
        assert((n - 1) * k + k == n * k && (n - 1) * k <= 8191 * k
            && n * k <= 8192 * k) by (nonlinear_arith)
            requires
                1 <= n <= 8192,
                0 <= k,
        ;
        rounding::lemma_slack(top);
        rounding::lemma_add(m, s, t, top);
        assert(ieee::adds(s, t, total));
        ieee::lemma_exact(s, 1);
        ieee::lemma_exact(t, 1);
        ieee::lemma_keeps_order(s, x * 1, 1, total, x + y, 1);
        ieee::lemma_keeps_order(t, y * 1, 1, total, x + y, 1);
        if x + y == 0 {
            doubling_laws::lemma_nothing(total, 1);
            ieee::lemma_value_order(total, total);
        }
        assert forall|i: int| 0 <= i < n implies ieee::value(#[trigger] terms[i])
            <= ieee::value(total) by {
            if i < n - 1 {
                assert(before[i] == terms[i]);
            }
        }
    }
}

/// The length of a row of moderate numbers, and what the row is multiplied by.
proof fn lemma_length(m: Calc, row: Seq<u32>)
    requires
        ieee::is_ieee(m),
        row.len() <= 8192,
        forall|i: int| 0 <= i < row.len() ==> moderate(#[trigger] row[i]),
    ensures
        ({
            let norm = rotation::norm_of(m, row);
            let v = ieee::value(norm);
            &&& floatbits::is_finite(norm)
            &&& 0 <= v <= 0x800_0000_0000_0000 * ieee::one()
            &&& v == 0 || ieee::one() <= 0x10_0000_0000 * v
            &&& forall|i: int| 0 <= i < row.len()
                ==> ieee::size(ieee::value(#[trigger] row[i])) <= 2 * v
        }),
{
    let o = ieee::one();
    lemma_range();
    let terms = rotation::squares(m, row);
    assert forall|i: int| 0 <= i < terms.len() implies {
        &&& floatbits::is_finite(#[trigger] terms[i])
        &&& !floatbits::is_negative(terms[i])
        &&& 0 <= ieee::value(terms[i]) <= 0x20_0000_0000_0000_0000_0000_0000 * ieee::one()
        &&& ieee::value(terms[i]) == 0
            || ieee::one() <= 0x40_0000_0000_0000_0000 * ieee::value(terms[i])
    } by {
        lemma_square(m, row[i]);
    }
    lemma_total(m, terms);
    let sum = arith::total(m, 0, terms);
    let t = ieee::value(sum);
    let norm = rotation::norm_of(m, row);
    let v = ieee::value(norm);
    let square = t * o;
    let vv = v * v;
    assert(ieee::nearest_root(norm, square));
    if t == 0 {
        assert(square == 0);
        doubling_laws::lemma_root_of_nothing(norm);
    } else {
        rounding::lemma_root_near(norm, square);
        assert(8 * vv >= 7 * square && 8 * vv <= 9 * square);
        assert(o <= 0x10_0000_0000 * v && v <= 0x800_0000_0000_0000 * o) by (nonlinear_arith)
            requires
                vv == v * v,
                o * o <= 0x100_0000_0000_0000_0000 * vv,
                vv <= 0x40_0000_0000_0000_0000_0000_0000_0000 * (o * o),
                0 <= v,
                0 < o,
        ;
    }
    assert forall|i: int| 0 <= i < row.len() implies ieee::size(ieee::value(#[trigger] row[i]))
        <= 2 * v by {
        let x = ieee::value(row[i]);
        lemma_square(m, row[i]);
        assert(ieee::value(terms[i]) <= t);
        assert(ieee::size(x) <= 2 * v) by (nonlinear_arith)
            requires
                x * x <= 4 * (v * v),
                0 <= v,
                ieee::size(x) == x || ieee::size(x) == -x,
        ;
    }
}

/// What a number is multiplied by, to be divided by another.
proof fn lemma_inverse(m: Calc, y: u32)
    requires
        ieee::is_ieee(m),
        floatbits::is_finite(y),
        0 < ieee::value(y) <= 0x1000_0000_0000_0000 * ieee::one(),
        ieee::one() <= 0x10_0000_0000 * ieee::value(y),
    ensures
        ({
            let r = m(Op::Div, ONE_BITS, y);
            &&& floatbits::is_finite(r)
            &&& ieee::one() <= 0x2000_0000_0000_0000 * ieee::value(r)
            &&& ieee::value(r) <= 0x20_0000_0000 * ieee::one()
            &&& 8 * (ieee::value(r) * ieee::value(y)) <= 9 * (ieee::one() * ieee::one())
        }),
{
    let (o, p) = (ieee::one(), rounding::parts());
    let v = ieee::value(y);
    lemma_range();
    let top = 0x10_0000_0000 * o;
    assert(rounding::near(o * o, 0, top * v)) by (nonlinear_arith)
        requires
            o <= 0x10_0000_0000 * v,
            top == 0x10_0000_0000 * o,
            0 < o,
    ;
    rounding::lemma_div(m, ONE_BITS, y, top);
    rounding::lemma_slack(top);
    let r = ieee::value(m(Op::Div, ONE_BITS, y));
    let rv = r * v;
    assert(8 * rv <= 9 * (o * o) && 8 * rv >= 7 * (o * o));
    assert(o <= 0x2000_0000_0000_0000 * r) by (nonlinear_arith)
        requires
            8 * rv >= 7 * (o * o),
            rv == r * v,
            0 < v <= 0x1000_0000_0000_0000 * o,
            0 < o,
    ;
}

/// The length of a row of moderate numbers is computed well within the range.
proof fn lemma_steady(m: Calc, row: Seq<u32>)
    requires
        ieee::is_ieee(m),
        row.len() <= 8192,
        forall|i: int| 0 <= i < row.len() ==> moderate(#[trigger] row[i]),
    ensures
        direction_laws::steady(m, row),
{
    lemma_range();
    lemma_length(m, row);
    let terms = rotation::squares(m, row);
    assert forall|i: int| 0 <= i < terms.len() implies {
        &&& floatbits::is_finite(#[trigger] terms[i])
        &&& !floatbits::is_negative(terms[i])
        &&& 0 <= ieee::value(terms[i]) <= 0x20_0000_0000_0000_0000_0000_0000 * ieee::one()
        &&& ieee::value(terms[i]) == 0
            || ieee::one() <= 0x40_0000_0000_0000_0000 * ieee::value(terms[i])
    } by {
        lemma_square(m, row[i]);
    }
    assert forall|i: int| 0 <= i < row.len() implies ({
        let square = m(Op::Mul, #[trigger] row[i], row[i]);
        doubling_laws::is_zero(row[i]) && doubling_laws::is_zero(square) || doubling_laws::mild(
            row[i],
        ) && doubling_laws::mild(square)
    }) by {
        let square = m(Op::Mul, row[i], row[i]);
        lemma_square(m, row[i]);
        ieee::lemma_value_order(row[i], square);
        ieee::lemma_value_order(square, row[i]);
        if ieee::value(row[i]) != 0 {
            lemma_mild(row[i]);
            lemma_mild(square);
        }
    }
    assert forall|j: int| 0 <= j <= row.len() implies ({
        let sum = #[trigger] arith::total(m, 0, terms.take(j));
        doubling_laws::is_zero(sum) || doubling_laws::mild(sum)
    }) by {
        let part = terms.take(j);
        assert forall|i: int| 0 <= i < part.len() implies #[trigger] part[i] == terms[i] by {}
        lemma_total(m, part);
        let sum = arith::total(m, 0, part);
        ieee::lemma_value_order(sum, sum);
        if ieee::value(sum) != 0 {
            lemma_mild(sum);
        }
    }
    lemma_total(m, terms);
    let norm = rotation::norm_of(m, row);
    ieee::lemma_value_order(norm, norm);
    if ieee::value(norm) != 0 {
        lemma_mild(norm);
        ieee::lemma_value_order(TINY_BITS, norm);
        doubling_laws::lemma_twice(norm);
        lemma_inverse(m, doubling_laws::twice(norm));
        lemma_mild(m(Op::Div, ONE_BITS, doubling_laws::twice(norm)));
    }
}

// ---------------------------------------------------------------------------
// Rotated rows
// ---------------------------------------------------------------------------

/// The largest size of a component of a rotated row, at most.
spec fn widest() -> int {
    0x2000_0000 * ieee::one()
}

/// A row scaled to unit length.
proof fn lemma_flipped(m: Calc, row: Seq<u32>, padded: nat)
    requires
        ieee::is_ieee(m),
        row.len() <= 8192,
        padded <= 8192,
        forall|i: int| 0 <= i < row.len() ==> moderate(#[trigger] row[i]),
    ensures
        rounding::small(
            4 * ieee::one(),
            rotation::flipped(m, row, padded, rotation::signs_of(padded as usize)),
        ),
{
    let o = ieee::one();
    let signs = rotation::signs_of(padded as usize);
    let all = rotation::flipped(m, row, padded, signs);
    lemma_range();
    lemma_length(m, row);
    let norm = rotation::norm_of(m, row);
    let v = ieee::value(norm);
    let unit = rotation::to_unit(m, norm);
    ieee::lemma_value_order(TINY_BITS, norm);
    if v != 0 {
        lemma_inverse(m, norm);
    }
    let e = ieee::value(unit);
    assert(floatbits::is_finite(unit) && 0 <= e && 8 * (e * v) <= 9 * (o * o)) by {
        if v == 0 {
            assert(e * v == 0) by (nonlinear_arith)
                requires
                    v == 0,
            ;
        }
    }
    let t = 3 * o + rounding::slack_for(3 * o);
    rounding::lemma_slack(3 * o);
    rounding::lemma_slack(t);
    assert forall|i: int| 0 <= i < all.len() implies floatbits::is_finite(#[trigger] all[i])
        && rounding::near(ieee::value(all[i]), 0, 4 * o) by {
        if i < row.len() {
            let x = ieee::value(row[i]);
            assert(ieee::size(x) <= 2 * v);
            assert(rounding::near(x * e, 0, (3 * o) * o)) by (nonlinear_arith)
                requires
                    -(2 * v) <= x <= 2 * v,
                    0 <= e,
                    8 * (e * v) <= 9 * (o * o),
                    0 < o,
            ;
            rounding::lemma_mul(m, row[i], unit, 3 * o);
            let c = m(Op::Mul, row[i], unit);
            assert(signs[i] == ONE_BITS || signs[i] == NEG_ONE_BITS);
            rounding::lemma_bounded_product(ieee::value(c), ieee::value(signs[i]), t, o);
            rounding::lemma_mul(m, c, signs[i], t);
        }
    }
}

/// A rotated row.
proof fn lemma_rotated(m: Calc, row: Seq<u32>, padded: nat)
    requires
        ieee::is_ieee(m),
        row.len() <= 8192,
        1 <= padded <= 8192,
        is_pow2(padded as int),
        forall|i: int| 0 <= i < row.len() ==> moderate(#[trigger] row[i]),
    ensures
        rounding::small(
            widest(),
            rotation::rotated(m, row, padded, rotation::signs_of(padded as usize)),
        ),
        rotation::rotated(m, row, padded, rotation::signs_of(padded as usize)).len() == padded,
{
    lemma_range();
    lemma_flipped(m, row, padded);
    rounding_laws::lemma_transformed_small(
        m,
        rotation::flipped(m, row, padded, rotation::signs_of(padded as usize)),
        4 * ieee::one(),
    );
}

// ---------------------------------------------------------------------------
// Levels
// ---------------------------------------------------------------------------

proof fn lemma_absolute(x: u32)
    ensures
        ieee::value(floatbits::absolute(x)) == ieee::size(ieee::value(x)),
        floatbits::is_finite(x) ==> floatbits::is_finite(floatbits::absolute(x)),
        !floatbits::is_negative(floatbits::absolute(x)),
{
    ieee::lemma_value_order(x, x);
}

/// The outermost level.
proof fn lemma_outermost(centroids: Seq<u32>, bound: int)
    requires
        rounding::small(bound, centroids),
        0 <= bound,
    ensures
        ({
            let outer = turboquant::outermost(centroids);
            &&& floatbits::is_finite(outer)
            &&& !floatbits::is_negative(outer)
            &&& 0 <= ieee::value(outer) <= bound
            &&& forall|i: int|
                0 <= i < centroids.len()
                    ==> ieee::size(ieee::value(#[trigger] centroids[i])) <= ieee::value(outer)
        }),
    decreases centroids.len(),
{
    ieee::lemma_one();
    if centroids.len() > 0 {
        let rest = centroids.drop_last();
        assert forall|i: int| 0 <= i < rest.len() implies #[trigger] rest[i] == centroids[i] by {}
        lemma_outermost(rest, bound);
        let last = centroids[centroids.len() - 1];
        assert(floatbits::is_finite(last) && rounding::near(ieee::value(last), 0, bound));
        lemma_absolute(last);
        ieee::lemma_value_order(turboquant::outermost(rest), floatbits::absolute(last));
        let outer = turboquant::outermost(centroids);
        assert forall|i: int| 0 <= i < centroids.len() implies ieee::size(
            ieee::value(#[trigger] centroids[i]),
        ) <= ieee::value(outer) by {
            if i < rest.len() {
                assert(rest[i] == centroids[i]);
            }
        }
    }
}

/// A level, turned back into a component.
proof fn lemma_level(m: Calc, level: u32, shift: u32, scale: u32, reach: int, u: int)
    requires
        ieee::is_ieee(m),
        ieee::one() <= u <= widest(),
        0 <= reach <= 7 * u,
        floatbits::is_finite(level),
        floatbits::is_finite(scale),
        floatbits::is_finite(shift),
        0 < ieee::value(scale),
        rounding::near(ieee::one() * ieee::value(level), 0, reach * ieee::value(scale)),
        rounding::near(ieee::value(shift), 0, 12 * u),
    ensures
        floatbits::is_finite(turboquant::level_value(m, level, shift, scale)),
        rounding::near(ieee::value(turboquant::level_value(m, level, shift, scale)), 0, 24 * u),
{
    lemma_range();
    ieee::lemma_value_order(0, scale);
    rounding::lemma_div(m, level, scale, reach);
    rounding::lemma_slack(reach);
    rounding::lemma_sub(m, m(Op::Div, level, scale), shift, 20 * u);
    rounding::lemma_slack(20 * u);
}

/// A quantile of a component.
proof fn lemma_quantile(rows: Seq<Seq<u32>>, d: int, at: int, u: int)
    requires
        forall|i: int|
            0 <= i < rows.len() ==> floatbits::is_finite((#[trigger] rows[i])[d]) && rounding::near(
                ieee::value(rows[i][d]),
                0,
                u,
            ),
        0 <= u,
        0 <= at,
    ensures
        ({
            let q = turboquant::quantile_of(hits::ordered(turboquant::sampled(rows, d)), at);
            floatbits::is_finite(q) && rounding::near(ieee::value(q), 0, u)
        }),
{
    let values = turboquant::sampled(rows, d);
    let sorted = hits::ordered(values);
    ieee::lemma_one();
    if sorted.len() > 0 {
        let i = if at < sorted.len() {
            at
        } else {
            sorted.len() - 1
        };
        hits::lemma_ordered_contains(values, i);
        let j = choose|j: int| 0 <= j < values.len() && values[j] == sorted[i];
        let (n, count) = (rows.len() as int, values.len() as int);
        let stride = n / count;
        assert(0 <= j * stride < n) by (nonlinear_arith)
            requires
                0 <= j < count <= n,
                stride == n / count,
        ;
        assert(values[j] == rows[j * stride][d]);
    }
}

/// The shift and the scale of a component.
proof fn lemma_calibration(
    m: Calc,
    rows: Seq<Seq<u32>>,
    outer: u32,
    at: (usize, usize),
    d: int,
    u: int,
    level: u32,
)
    requires
        ieee::is_ieee(m),
        ieee::one() <= u <= widest(),
        forall|i: int|
            0 <= i < rows.len() ==> floatbits::is_finite((#[trigger] rows[i])[d]) && rounding::near(
                ieee::value(rows[i][d]),
                0,
                u,
            ),
        floatbits::is_finite(outer),
        !floatbits::is_negative(outer),
        0 <= ieee::value(outer) <= u,
        floatbits::is_finite(level),
        ieee::size(ieee::value(level)) <= ieee::value(outer),
    ensures
        ({
            let (shift, scale) = turboquant::calibration(m, rows, outer, at, d);
            let y = turboquant::level_value(m, level, shift, scale);
            floatbits::is_finite(y) && rounding::near(ieee::value(y), 0, 24 * u)
        }),
{
    let o = ieee::one();
    lemma_range();
    let (shift, scale) = turboquant::calibration(m, rows, outer, at, d);
    let (w, l) = (ieee::value(outer), ieee::value(level));
    let found = turboquant::fitted(
        m,
        hits::ordered(turboquant::sampled(rows, d)),
        outer,
        at,
    );
    if rows.len() < 2 || found is None {
        assert(shift == 0 && scale == ONE_BITS);
        assert(rounding::near(o * l, 0, u * o)) by (nonlinear_arith)
            requires
                -u <= l <= u,
                0 < o,
        ;
        lemma_level(m, level, shift, scale, u, u);
    } else {
        let sorted = hits::ordered(turboquant::sampled(rows, d));
        let lo = turboquant::quantile_of(sorted, at.0 as int);
        let hi = turboquant::quantile_of(sorted, at.1 as int);
        lemma_quantile(rows, d, at.0 as int, u);
        lemma_quantile(rows, d, at.1 as int, u);
        rounding::lemma_slack(2 * u);
        rounding::lemma_sub(m, hi, lo, 2 * u);
        let gap = m(Op::Sub, hi, lo);
        let g = ieee::value(gap);
        ieee::lemma_value_order(gap, TINY_BITS);
        assert(0 < g <= 3 * u);
        ieee::lemma_opposite(outer);
        let opposite = floatbits::opposite(outer);
        rounding::lemma_sub(m, outer, opposite, 2 * u);
        let both = m(Op::Sub, outer, opposite);
        let b = ieee::value(both);
        assert(w <= b <= 3 * w);
        assert(scale == m(Op::Div, both, gap));
        ieee::lemma_value_order(0, scale);
        let s = ieee::value(scale);
        assert(ieee::divides(both, gap, scale));
        let num = b * o * 1;
        assert(ieee::nearest(scale, num, g));
        ieee::lemma_off(scale, num, g);
        let sg = s * g;
        assert(g <= sg) by (nonlinear_arith)
            requires
                sg == s * g,
                1 <= s,
                0 < g,
        ;
        assert(num == b * o);
        assert(0 <= num) by (nonlinear_arith)
            requires
                num == b * o,
                0 <= b,
                0 < o,
        ;
        assert(num <= 2 * sg);
        let reach = 2 * g;
        assert(rounding::near(o * l, 0, reach * s)
            && rounding::near(o * (-w), 0, reach * s)) by (nonlinear_arith)
            requires
                -w <= l <= w,
                0 <= w <= b,
                b * o <= 2 * sg,
                sg == s * g,
                reach == 2 * g,
                0 < o,
        ;
        rounding::lemma_div(m, opposite, scale, reach);
        rounding::lemma_slack(reach);
        rounding::lemma_slack(11 * u);
        rounding::lemma_sub(m, m(Op::Div, opposite, scale), lo, 11 * u);
        lemma_level(m, level, shift, scale, reach, u);
    }
}

// ---------------------------------------------------------------------------
// Overlaps
// ---------------------------------------------------------------------------

proof fn lemma_level_of(x: u32, boundaries: Seq<u32>)
    ensures
        turboquant::level_of(x, boundaries) <= boundaries.len(),
    decreases boundaries.len(),
{
    if boundaries.len() > 0 {
        lemma_level_of(x, boundaries.drop_first());
    }
}

/// How far the codes of a rotated row overlap with it.
proof fn lemma_overlap(m: Calc, w: WideCalc, rows: Seq<Seq<u32>>, padded: nat, c: Levels, i: int)
    requires
        ieee::is_ieee(m),
        padded <= 8192,
        forall|k: int|
            0 <= k < rows.len()
                ==> rounding::small(widest(), #[trigger] rows[k]) && rows[k].len() == padded,
        turboquant::covers_levels(c),
        rounding::small(0x400 * ieee::one(), c.centroids),
        0 <= i < rows.len(),
    ensures
        ({
            let t = turboquant::calibrated(m, w, rows, padded, c.centroids);
            let overlap = arith::total(m, 0, turboquant::overlaps(m, rows[i], t, c));
            &&& floatbits::is_finite(overlap)
            &&& rounding::near(ieee::value(overlap), 0, 0x4000_0000_0000_0000_0000 * ieee::one())
        }),
{
    let o = ieee::one();
    let u = widest();
    lemma_range();
    ieee::lemma_one();
    let t = turboquant::calibrated(m, w, rows, padded, c.centroids);
    let row = rows[i];
    let terms = turboquant::overlaps(m, row, t, c);
    lemma_outermost(c.centroids, 0x400 * o);
    let outer = turboquant::outermost(c.centroids);
    let at = codebook::positions_of(
        w,
        outer,
        padded as usize,
        turboquant::sample_size(rows.len()) as usize,
    );
    let bound = 0x1_0000_0000_0000_0000 * o;
    let top = 0x8000_0000_0000_0000 * o;
    rounding::lemma_slack(top);
    assert forall|d: int| 0 <= d < terms.len() implies floatbits::is_finite(#[trigger] terms[d])
        && rounding::near(ieee::value(terms[d]), 0, bound) by {
        let code = turboquant::level_of(
            m(Op::Mul, m(Op::Add, row[d], t.shift[d]), t.scale[d]),
            c.boundaries,
        );
        lemma_level_of(
            m(Op::Mul, m(Op::Add, row[d], t.shift[d]), t.scale[d]),
            c.boundaries,
        );
        assert(turboquant::row_codes(m, row, t, c)[d] == code as u8);
        let level = c.centroids[code as int];
        assert(floatbits::is_finite(level) && rounding::near(ieee::value(level), 0, 0x400 * o));
        assert forall|k: int| 0 <= k < rows.len() implies floatbits::is_finite(
            (#[trigger] rows[k])[d],
        ) && rounding::near(ieee::value(rows[k][d]), 0, u) by {
            assert(rounding::small(u, rows[k]));
        }
        lemma_calibration(m, rows, outer, at, d, u, level);
        let y = turboquant::level_value(m, level, t.shift[d], t.scale[d]);
        assert((t.shift[d], t.scale[d]) == turboquant::calibration(m, rows, outer, at, d));
        assert(rounding::small(u, row));
        assert(rounding::near(ieee::value(row[d]), 0, u));
        rounding::lemma_bounded_product(ieee::value(row[d]), ieee::value(y), u, 24 * u);
        assert(u * (24 * u) <= top * o) by (nonlinear_arith)
            requires
                u == 0x2000_0000 * o,
                top == 0x8000_0000_0000_0000 * o,
                0 < o,
        ;
        rounding::lemma_mul(m, row[d], y, top);
    }
    let all = 0x4000_0000_0000_0000_0000 * o;
    rounding::lemma_slack(all);
    let n = terms.len() as int;
    assert(n * (bound + rounding::slack_for(all)) <= all) by (nonlinear_arith)
        requires
            0 <= n <= 8192,
            0 <= bound + rounding::slack_for(all),
            8192 * (bound + rounding::slack_for(all)) <= all,
    ;
    rounding::lemma_total_near(m, 0, 0, terms, bound, all);
}

/// The length of a row over how far its codes overlap with it.
proof fn lemma_corrected(m: Calc, norm: u32, overlap: u32)
    requires
        ieee::is_ieee(m),
        floatbits::is_finite(norm),
        0 < ieee::value(norm) <= 0x800_0000_0000_0000 * ieee::one(),
        ieee::one() <= 0x10_0000_0000 * ieee::value(norm),
        floatbits::is_finite(overlap),
        rounding::near(ieee::value(overlap), 0, 0x4000_0000_0000_0000_0000 * ieee::one()),
        floatbits::less(TINY_BITS, floatbits::absolute(overlap)),
    ensures
        doubling_laws::roomy(overlap),
        doubling_laws::roomy(m(Op::Div, norm, overlap)),
{
    let o = ieee::one();
    lemma_range();
    lemma_absolute(overlap);
    ieee::lemma_value_order(TINY_BITS, floatbits::absolute(overlap));
    let (v, w) = (ieee::value(norm), ieee::size(ieee::value(overlap)));
    doubling_laws::lemma_has_room(overlap);
    let r = m(Op::Div, norm, overlap);
    let sign = if ieee::value(overlap) < 0 {
        -1int
    } else {
        1
    };
    let num = v * o * sign;
    let vo = v * o;
    assert(ieee::divides(norm, overlap, r));
    assert(ieee::size(num) == vo && 0 < vo) by (nonlinear_arith)
        requires
            num == v * o * sign,
            vo == v * o,
            sign == 1 || sign == -1,
            0 < v,
            0 < o,
            ieee::size(num) == if num < 0 {
                -num
            } else {
                num
            },
    ;
    assert(vo <= (0x8_0000_0000_0000_0000_0000_0000 * o) * w && (0x8_0000_0000_0000_0000_0000_0000
        * o) * w < ieee::limit() * w) by (nonlinear_arith)
        requires
            vo == v * o,
            0 < v <= 0x800_0000_0000_0000 * o,
            o <= 0x100_0000_0000 * w,
            0x8_0000_0000_0000_0000_0000_0000 * o < ieee::limit(),
            0 < o,
            0 < w,
    ;
    ieee::lemma_off(r, num, w);
    let s = ieee::size(ieee::value(r));
    let sw = s * w;
    assert(ieee::size(ieee::value(r) * w) == sw) by (nonlinear_arith)
        requires
            sw == s * w,
            s == ieee::value(r) || s == -ieee::value(r),
            0 <= s,
            0 < w,
            ieee::size(ieee::value(r) * w) == if ieee::value(r) * w < 0 {
                -(ieee::value(r) * w)
            } else {
                ieee::value(r) * w
            },
    ;
    assert(4 * sw >= 3 * vo - 3 * w && sw <= 2 * vo + w);
    assert(o * w <= 0x4_0000_0000_0000_0000_0000_0000_0000 * vo) by (nonlinear_arith)
        requires
            vo == v * o,
            o <= 0x10_0000_0000 * v,
            0 < w <= 0x4000_0000_0000_0000_0000 * o,
            0 < o,
    ;
    assert(LOW_BITS <= s) by (nonlinear_arith)
        requires
            o * w <= 0x4_0000_0000_0000_0000_0000_0000_0000 * vo,
            4 * sw >= 3 * vo - 3 * w,
            sw == s * w,
            o == 0x20_0000_0000_0000_0000_0000_0000_0000_0000_0000int,
            LOW_BITS == 0x100_0000,
            0 < w,
    ;
    assert(s <= 0x20_0000_0000_0000_0000_0000_0000 * o) by (nonlinear_arith)
        requires
            sw <= 2 * vo + w,
            sw == s * w,
            vo <= (0x8_0000_0000_0000_0000_0000_0000 * o) * w,
            0 < w,
            0 < o,
    ;
    doubling_laws::lemma_has_room(r);
}

/// Rows of moderate numbers are coded without coming near the ends of the range.
pub(crate) proof fn lemma_coded_steadily(
    m: Calc,
    w: WideCalc,
    n: nat,
    dim: nat,
    flat: Seq<u32>,
    c: Levels,
    i: int,
)
    requires
        ieee::is_ieee(m),
        dim <= 8192,
        flat.len() == n * dim,
        forall|k: int| 0 <= k < flat.len() ==> moderate(#[trigger] flat[k]),
        turboquant::covers_levels(c),
        rounding::small(0x400 * ieee::one(), c.centroids),
        0 <= i < n,
    ensures
        direction_laws::steady(m, turboquant::row_at(flat, dim, i)),
        direction_laws::steady_length(
            m,
            turboquant::rotated_rows(m, flat, n, dim)[i],
            rotation::norm_of(m, turboquant::row_at(flat, dim, i)),
            turboquant::encoded(m, w, n, dim, flat, c).tqplus,
            c,
        ),
{
    let padded = turboquant::padded_of(dim);
    let rows = turboquant::rotated_rows(m, flat, n, dim);
    lemma_range();
    assert(is_pow2(4) && is_pow2(8192)) by {
        reveal(is_pow2);
        reveal_with_fuel(is_pow2, 15);
    }
    turboquant::lemma_doubled_below(4, dim, 8192);
    turboquant::padded_is_least_power_of_two(dim);
    assert forall|k: int, j: int|
        0 <= k < n && 0 <= j < turboquant::row_at(flat, dim, k).len() implies moderate(
        #[trigger] turboquant::row_at(flat, dim, k)[j],
    ) by {
        turboquant::lemma_row_range(n as int, dim as int, k);
        assert(turboquant::row_at(flat, dim, k)[j] == flat[k * dim + j]);
    }
    assert forall|k: int| 0 <= k < rows.len() implies rounding::small(widest(), #[trigger] rows[k])
        && rows[k].len() == padded by {
        turboquant::lemma_row_range(n as int, dim as int, k);
        lemma_rotated(m, turboquant::row_at(flat, dim, k), padded);
    }
    let row = turboquant::row_at(flat, dim, i);
    turboquant::lemma_row_range(n as int, dim as int, i);
    lemma_steady(m, row);
    lemma_length(m, row);
    lemma_overlap(m, w, rows, padded, c, i);
    let t = turboquant::calibrated(m, w, rows, padded, c.centroids);
    let overlap = arith::total(m, 0, turboquant::overlaps(m, rows[i], t, c));
    let norm = rotation::norm_of(m, row);
    ieee::lemma_value_order(norm, norm);
    if floatbits::less(TINY_BITS, floatbits::absolute(overlap)) {
        if ieee::value(norm) == 0 {
            lemma_absolute(overlap);
            ieee::lemma_value_order(TINY_BITS, floatbits::absolute(overlap));
            doubling_laws::lemma_has_room(overlap);
        } else {
            lemma_corrected(m, norm, overlap);
        }
    }
}

} // verus!
