//! Doubling in IEEE arithmetic is exact where no result comes near the ends of the range of
//! full precision.

use vstd::arithmetic::power2::pow2;
use vstd::prelude::*;

use crate::arith::{Calc, Op};
use crate::floatbits;
use crate::ieee;
use crate::ieee::FRACTION;

verus! {

/// Magnitude of twice the smallest number of full precision.
pub const LOW_BITS: u32 = 0x0100_0000;

/// A magnitude that can be doubled twice.
pub const HIGH_BITS: u32 = 0x7e00_0000;

/// Whether a pattern is one of the two zeros.
pub open spec fn is_zero(x: u32) -> bool {
    floatbits::magnitude(x) == 0
}

/// The pattern of twice the number, where both have full precision: the exponent is one
/// more.
pub open spec fn twice(x: u32) -> u32 {
    if is_zero(x) {
        x
    } else {
        (x + FRACTION) as u32
    }
}

/// Whether a pattern has full precision and can be doubled twice.
pub open spec fn roomy(x: u32) -> bool {
    LOW_BITS <= floatbits::magnitude(x) < HIGH_BITS
}

/// Whether a pattern is zero or can be doubled twice.
pub open spec fn doubles(x: u32) -> bool {
    is_zero(x) || roomy(x)
}

/// Whether a pattern has full precision and can be doubled four times.
pub open spec fn mild(x: u32) -> bool {
    LOW_BITS <= floatbits::magnitude(x) < HIGH_BITS - 2 * FRACTION
}

/// Whether doubling is exact where no result comes near the ends of the range of full
/// precision: it can be done to an operand or to the result, and moved from one factor to
/// the other. Rounded arithmetic to base two is so.
pub open spec fn doubling_is_exact(m: Calc) -> bool {
    &&& forall|x: u32, y: u32|
        doubles(x) && doubles(y) && (is_zero(x) || is_zero(y) || roomy(
            #[trigger] m(Op::Mul, x, y),
        )) ==> m(Op::Mul, twice(x), y) == twice(m(Op::Mul, x, y))
    &&& forall|x: u32, y: u32|
        doubles(x) && doubles(y) ==> #[trigger] m(Op::Mul, twice(x), y) == m(
            Op::Mul,
            x,
            twice(y),
        )
    &&& forall|x: u32, y: u32|
        doubles(x) && doubles(y) && doubles(#[trigger] m(Op::Add, x, y)) ==> m(
            Op::Add,
            twice(x),
            twice(y),
        ) == twice(m(Op::Add, x, y))
    &&& forall|x: u32|
        doubles(x) && !floatbits::is_negative(x) ==> m(Op::Sqrt, twice(twice(x)), 0) == twice(
            #[trigger] m(Op::Sqrt, x, 0),
        )
    &&& forall|x: u32, y: u32|
        doubles(x) && roomy(y) && (is_zero(x) || roomy(#[trigger] m(Op::Div, x, y))) ==> m(
            Op::Div,
            twice(x),
            y,
        ) == twice(m(Op::Div, x, y))
    &&& forall|x: u32, y: u32|
        doubles(x) && roomy(y) && (is_zero(x) || roomy(#[trigger] m(Op::Div, x, twice(y))))
            ==> m(Op::Div, x, y) == twice(m(Op::Div, x, twice(y)))
}

// ---------------------------------------------------------------------------
// Twice and half a number
// ---------------------------------------------------------------------------

proof fn lemma_next_exponent(mag: int)
    requires
        FRACTION <= mag,
    ensures
        ieee::units(mag + FRACTION) == 2 * ieee::units(mag),
{
    let f = FRACTION as int;
    let e = mag / f;
    vstd::arithmetic::div_mod::lemma_fundamental_div_mod(mag, f);
    vstd::arithmetic::div_mod::lemma_fundamental_div_mod_converse(
        mag + f,
        f,
        e + 1,
        mag % f,
    );
    vstd::arithmetic::power2::lemma_pow2_unfold(e as nat);
    let (d, p) = (f + mag % f, pow2((e - 1) as nat) as int);
    assert(d * (2 * p) == 2 * (d * p)) by (nonlinear_arith);
}

/// The numbers at the ends of the range.
pub(crate) proof fn lemma_ends()
    ensures
        ieee::units(LOW_BITS as int) == LOW_BITS,
        ieee::units(HIGH_BITS as int) * 4 < ieee::limit(),
        ieee::units(HIGH_BITS as int) > 4 * ieee::one(),
        LOW_BITS * LOW_BITS <= ieee::one(),
{
    let f = FRACTION as int;
    vstd::arithmetic::power2::lemma2_to64();
    ieee::lemma_units(1, f);
    ieee::lemma_units(251, f);
    ieee::lemma_one();
    assert(LOW_BITS == 1 * f + f);
    assert(HIGH_BITS == 251 * f + f);
    vstd::arithmetic::power2::lemma_pow2_unfold(253);
    vstd::arithmetic::power2::lemma_pow2_unfold(252);
    vstd::arithmetic::power2::lemma_pow2_pos(251);
    vstd::arithmetic::power2::lemma_pow2_adds(149, 102);
    vstd::arithmetic::power2::lemma_pow2_pos(102);
    vstd::arithmetic::power2::lemma_pow2_pos(149);
    let (p, q, o) = (pow2(251) as int, pow2(102) as int, pow2(149) as int);
    assert(o <= p) by (nonlinear_arith)
        requires
            p == o * q,
            1 <= q,
            0 < o,
    ;
}

/// The pattern of twice a number stands for twice the number.
pub proof fn lemma_twice(x: u32)
    requires
        doubles(x),
    ensures
        floatbits::is_finite(x),
        floatbits::is_finite(twice(x)),
        ieee::value(twice(x)) == 2 * ieee::value(x),
        floatbits::is_negative(twice(x)) == floatbits::is_negative(x),
        floatbits::magnitude(twice(x)) % 2 == floatbits::magnitude(x) % 2,
        twice(floatbits::opposite(x)) == floatbits::opposite(twice(x)),
{
    if is_zero(x) {
        ieee::lemma_value_order(x, x);
    } else {
        lemma_next_exponent(floatbits::magnitude(x));
    }
}

proof fn lemma_half(p: u32) -> (h: u32)
    requires
        floatbits::is_finite(p),
        LOW_BITS <= ieee::value(p),
    ensures
        floatbits::is_finite(h),
        ieee::value(p) == 2 * ieee::value(h),
{
    ieee::lemma_value_order(p, p);
    lemma_ends();
    let mag = floatbits::magnitude(p);
    if mag < LOW_BITS {
        ieee::lemma_units_increase(mag, LOW_BITS as int);
    }
    lemma_next_exponent(mag - FRACTION);
    (p - FRACTION) as u32
}

/// The size of a number with room.
proof fn lemma_roomy(r: u32)
    requires
        roomy(r),
    ensures
        floatbits::is_finite(r),
        LOW_BITS <= ieee::size(ieee::value(r)) < ieee::units(HIGH_BITS as int),
        ieee::value(r) < 0 <==> floatbits::is_negative(r),
{
    lemma_ends();
    let mag = floatbits::magnitude(r);
    ieee::lemma_units_increase(mag, HIGH_BITS as int);
    if LOW_BITS < mag {
        ieee::lemma_units_increase(LOW_BITS as int, mag);
    }
}

/// A number between the ends of the range has room.
pub(crate) proof fn lemma_has_room(r: u32)
    requires
        floatbits::is_finite(r),
        LOW_BITS <= ieee::size(ieee::value(r)) < ieee::units(HIGH_BITS as int),
    ensures
        roomy(r),
{
    lemma_ends();
    let mag = floatbits::magnitude(r);
    if mag < LOW_BITS {
        ieee::lemma_units_increase(mag, LOW_BITS as int);
    }
    if HIGH_BITS < mag {
        ieee::lemma_units_increase(HIGH_BITS as int, mag);
    }
    if mag > 0 {
        ieee::lemma_units_increase(0, mag);
    }
}

// ---------------------------------------------------------------------------
// Twice and half a result
// ---------------------------------------------------------------------------

proof fn lemma_scaled_positive(r: u32, num: int, den: int)
    requires
        ieee::nearest(r, num, den),
        0 < den,
        roomy(r),
        !floatbits::is_negative(r),
    ensures
        ieee::nearest(twice(r), 2 * num, den),
{
    let low = LOW_BITS as int;
    let large = twice(r);
    lemma_twice(r);
    lemma_roomy(r);
    lemma_ends();
    ieee::lemma_one();
    let v = ieee::value(r);
    let zero: u32 = 0;
    assert(ieee::miss(r, num, den) <= ieee::miss(zero, num, den));
    assert(0 * den == 0 && low * den <= v * den) by (nonlinear_arith)
        requires
            low <= v,
            0 < den,
    ;
    assert(low * den <= 2 * num);
    assert((2 * v) * den - 2 * num == 2 * (v * den - num)) by (nonlinear_arith);
    let q = LOW_BITS;
    assert(ieee::value(q) == low);
    assert forall|p: u32| floatbits::is_finite(p) implies ieee::miss(large, 2 * num, den)
        <= #[trigger] ieee::miss(p, 2 * num, den) && (ieee::value(p) != ieee::value(large)
        && ieee::miss(p, 2 * num, den) == ieee::miss(large, 2 * num, den)
        ==> floatbits::magnitude(large) % 2 == 0) by {
        let near = if low <= ieee::value(p) {
            p
        } else {
            q
        };
        let h = lemma_half(near);
        let (x, y) = (ieee::value(h), ieee::value(p));
        assert(ieee::miss(r, num, den) <= ieee::miss(h, num, den));
        assert((2 * x) * den - 2 * num == 2 * (x * den - num)) by (nonlinear_arith);
        if y < low {
            assert(y * den < low * den) by (nonlinear_arith)
                requires
                    y < low,
                    0 < den,
            ;
        }
    }
}

/// Twice the nearest number is nearest to twice as much.
proof fn lemma_scaled(r: u32, num: int, den: int)
    requires
        ieee::rounded(r, num, den),
        0 < den,
        roomy(r),
    ensures
        ieee::nearest(twice(r), 2 * num, den),
        ieee::size(2 * num) < ieee::limit() * den,
{
    let f = FRACTION as int;
    lemma_ends();
    lemma_roomy(r);
    lemma_twice(r);
    assert(ieee::nearest(r, num, den));
    if floatbits::is_negative(r) {
        let positive = floatbits::opposite(r);
        ieee::lemma_nearest_opposite(r, num, den);
        ieee::lemma_opposite(r);
        lemma_scaled_positive(positive, -num, den);
        lemma_twice(positive);
        ieee::lemma_nearest_opposite(twice(positive), 2 * -num, den);
        assert(floatbits::opposite(twice(positive)) == twice(r));
    } else {
        lemma_scaled_positive(r, num, den);
    }
    ieee::lemma_off(r, num, den);
    let v = ieee::value(r);
    let (sv, sn, off) = (ieee::size(v), ieee::size(num), ieee::miss(r, num, den));
    let high = ieee::units(HIGH_BITS as int);
    let vd = sv * den;
    assert(ieee::size(v * den) == vd && den <= vd && vd <= high * den) by (nonlinear_arith)
        requires
            vd == sv * den,
            1 <= sv <= high,
            sv == v && ieee::size(v * den) == (if v * den < 0 {
                -(v * den)
            } else {
                v * den
            }) || sv == -v && ieee::size(v * den) == (if v * den < 0 {
                -(v * den)
            } else {
                v * den
            }),
            0 < den,
    ;
    assert(sn <= vd + off);
    assert(sn <= 2 * vd);
    assert(4 * (high * den) < ieee::limit() * den) by (nonlinear_arith)
        requires
            high * 4 < ieee::limit(),
            0 < den,
    ;
}

/// What is nearest to nothing.
pub(crate) proof fn lemma_nothing(r: u32, den: int)
    requires
        ieee::nearest(r, 0, den),
        0 < den,
    ensures
        is_zero(r),
{
    let zero: u32 = 0;
    ieee::lemma_one();
    assert(ieee::miss(r, 0, den) <= ieee::miss(zero, 0, den));
    let v = ieee::value(r);
    assert(0 * den == 0);
    assert(v == 0) by (nonlinear_arith)
        requires
            v * den == 0,
            0 < den,
    ;
    ieee::lemma_value_order(r, r);
}

proof fn lemma_double_product(m: Calc, x: u32, y: u32)
    requires
        ieee::is_ieee(m),
        doubles(x),
        doubles(y),
        is_zero(x) || is_zero(y) || roomy(m(Op::Mul, x, y)),
    ensures
        m(Op::Mul, twice(x), y) == twice(m(Op::Mul, x, y)),
{
    let (r, large) = (m(Op::Mul, x, y), m(Op::Mul, twice(x), y));
    lemma_twice(x);
    lemma_twice(y);
    ieee::lemma_one();
    ieee::lemma_bounds(0);
    let (v, w, o) = (ieee::value(x), ieee::value(y), ieee::one());
    assert(ieee::multiplies(x, y, r) && ieee::multiplies(twice(x), y, large));
    assert((2 * v) * w == 2 * (v * w)) by (nonlinear_arith);
    if is_zero(x) || is_zero(y) {
        ieee::lemma_value_order(x, y);
        ieee::lemma_value_order(y, x);
        assert(v * w == 0 && 0 < ieee::limit() * o) by (nonlinear_arith)
            requires
                v == 0 || w == 0,
                0 < o,
                0 < ieee::limit(),
        ;
        lemma_nothing(r, o);
        ieee::lemma_one_nearest(r, large, 0, o);
    } else {
        lemma_scaled(r, v * w, o);
        lemma_twice(r);
        ieee::lemma_one_nearest(twice(r), large, 2 * (v * w), o);
    }
}

proof fn lemma_moved_factor(m: Calc, x: u32, y: u32)
    requires
        ieee::is_ieee(m),
        doubles(x),
        doubles(y),
    ensures
        m(Op::Mul, twice(x), y) == m(Op::Mul, x, twice(y)),
{
    let (r, t) = (m(Op::Mul, twice(x), y), m(Op::Mul, x, twice(y)));
    lemma_twice(x);
    lemma_twice(y);
    ieee::lemma_one();
    let (v, w, o) = (ieee::value(x), ieee::value(y), ieee::one());
    assert(ieee::multiplies(twice(x), y, r) && ieee::multiplies(x, twice(y), t));
    assert((2 * v) * w == v * (2 * w)) by (nonlinear_arith);
    if ieee::size(v * (2 * w)) < ieee::limit() * o {
        ieee::lemma_one_nearest(r, t, v * (2 * w), o);
    }
}

proof fn lemma_double_sum(m: Calc, x: u32, y: u32)
    requires
        ieee::is_ieee(m),
        doubles(x),
        doubles(y),
        doubles(m(Op::Add, x, y)),
    ensures
        m(Op::Add, twice(x), twice(y)) == twice(m(Op::Add, x, y)),
{
    let (r, large) = (m(Op::Add, x, y), m(Op::Add, twice(x), twice(y)));
    lemma_twice(x);
    lemma_twice(y);
    lemma_twice(r);
    lemma_ends();
    let sum = ieee::value(x) + ieee::value(y);
    assert(ieee::adds(x, y, r) && ieee::adds(twice(x), twice(y), large));
    assert(ieee::limit() * 1 == ieee::limit());
    if is_zero(r) {
        ieee::lemma_value_order(r, r);
        ieee::lemma_off(r, sum, 1);
        assert(sum == 0);
        ieee::lemma_one_nearest(r, large, 0, 1);
    } else {
        lemma_scaled(r, sum, 1);
        ieee::lemma_one_nearest(twice(r), large, 2 * sum, 1);
    }
}

pub(crate) proof fn lemma_double_quotient(m: Calc, x: u32, y: u32)
    requires
        ieee::is_ieee(m),
        doubles(x),
        roomy(y),
        is_zero(x) || roomy(m(Op::Div, x, y)),
    ensures
        doubles(m(Op::Div, x, y)),
        m(Op::Div, twice(x), y) == twice(m(Op::Div, x, y)),
{
    let (r, large) = (m(Op::Div, x, y), m(Op::Div, twice(x), y));
    lemma_twice(x);
    lemma_roomy(y);
    lemma_ends();
    let sign = if ieee::value(y) < 0 {
        -1int
    } else {
        1
    };
    let (v, o, den) = (ieee::value(x), ieee::one(), ieee::size(ieee::value(y)));
    let num = v * o * sign;
    assert(ieee::divides(x, y, r) && ieee::divides(twice(x), y, large));
    assert((2 * v) * o * sign == 2 * num) by (nonlinear_arith)
        requires
            num == v * o * sign,
    ;
    if is_zero(x) {
        ieee::lemma_value_order(x, x);
        assert(num == 0 && 0 < ieee::limit() * den) by (nonlinear_arith)
            requires
                num == v * o * sign,
                v == 0,
                0 < den,
                0 < ieee::limit(),
        ;
        lemma_nothing(r, den);
        ieee::lemma_one_nearest(r, large, 0, den);
    } else {
        lemma_scaled(r, num, den);
        lemma_twice(r);
        ieee::lemma_one_nearest(twice(r), large, 2 * num, den);
    }
}

proof fn lemma_halved_divisor(m: Calc, x: u32, y: u32)
    requires
        ieee::is_ieee(m),
        doubles(x),
        roomy(y),
        is_zero(x) || roomy(m(Op::Div, x, twice(y))),
    ensures
        m(Op::Div, x, y) == twice(m(Op::Div, x, twice(y))),
{
    let (r, large) = (m(Op::Div, x, twice(y)), m(Op::Div, x, y));
    lemma_twice(x);
    lemma_twice(y);
    lemma_roomy(y);
    lemma_ends();
    let sign = if ieee::value(y) < 0 {
        -1int
    } else {
        1
    };
    let (v, o, den) = (ieee::value(x), ieee::one(), ieee::size(ieee::value(y)));
    let num = v * o * sign;
    assert(ieee::divides(x, twice(y), r) && ieee::divides(x, y, large));
    if is_zero(x) {
        ieee::lemma_value_order(x, x);
        assert(num == 0 && 0 < ieee::limit() * den && 0 < ieee::limit() * (2 * den))
            by (nonlinear_arith)
            requires
                num == v * o * sign,
                v == 0,
                0 < den,
                0 < ieee::limit(),
        ;
        lemma_nothing(r, 2 * den);
        lemma_nothing(large, den);
    } else {
        lemma_scaled(r, num, 2 * den);
        lemma_twice(r);
        let t = twice(r);
        assert(ieee::limit() * (2 * den) == 2 * (ieee::limit() * den)) by (nonlinear_arith);
        assert forall|p: u32| #[trigger] ieee::miss(p, 2 * num, 2 * den) == 2 * ieee::miss(
            p,
            num,
            den,
        ) by {
            let w = ieee::value(p);
            assert(w * (2 * den) - 2 * num == 2 * (w * den - num)) by (nonlinear_arith);
        }
        assert(ieee::nearest(t, num, den)) by {
            assert forall|p: u32| floatbits::is_finite(p) implies ieee::miss(t, num, den)
                <= #[trigger] ieee::miss(p, num, den) && (ieee::value(p) != ieee::value(t)
                && ieee::miss(p, num, den) == ieee::miss(t, num, den) ==> floatbits::magnitude(t)
                % 2 == 0) by {
                assert(ieee::miss(p, 2 * num, 2 * den) == 2 * ieee::miss(p, num, den));
                assert(ieee::miss(t, 2 * num, 2 * den) == 2 * ieee::miss(t, num, den));
            }
        }
        ieee::lemma_one_nearest(t, large, num, den);
    }
}

// ---------------------------------------------------------------------------
// Roots
// ---------------------------------------------------------------------------

/// The root of nothing.
pub(crate) proof fn lemma_root_of_nothing(r: u32)
    requires
        ieee::nearest_root(r, 0),
    ensures
        is_zero(r),
        ieee::value(r) == 0,
{
    let w = ieee::value(r);
    let zero: u32 = 0;
    ieee::lemma_one();
    assert(ieee::value(zero) == 0);
    if w > 0 {
        assert((0 + w) * (0 + w) <= 4 * 0);
        assert(false) by (nonlinear_arith)
            requires
                (0 + w) * (0 + w) <= 0,
                w > 0,
        ;
    }
    ieee::lemma_value_order(r, r);
}

/// There is one nearest root.
proof fn lemma_one_root(r: u32, t: u32, square: int)
    requires
        ieee::nearest_root(r, square),
        ieee::nearest_root(t, square),
    ensures
        ieee::value(t) <= ieee::value(r),
{
    let (x, y) = (ieee::value(r), ieee::value(t));
    if x < y {
        assert((y + x) * (y + x) == (x + y) * (x + y)) by (nonlinear_arith);
        assert(4 * square <= (y + x) * (y + x));
        assert((x + y) * (x + y) <= 4 * square);
        let p = ieee::lemma_between(r, t);
        let z = ieee::value(p);
        assert(4 * square <= (z + x) * (z + x));
        assert((z + x) * (z + x) < (x + y) * (x + y)) by (nonlinear_arith)
            requires
                0 <= x < z < y,
        ;
    }
}

/// Twice the nearest root is nearest to the root of four times as much.
proof fn lemma_scaled_root(r: u32, square: int)
    requires
        ieee::nearest_root(r, square),
        roomy(r),
        !floatbits::is_negative(r),
    ensures
        ieee::nearest_root(twice(r), 4 * square),
{
    let low = LOW_BITS as int;
    let large = twice(r);
    lemma_twice(r);
    lemma_roomy(r);
    lemma_ends();
    let v = ieee::value(r);
    let q = LOW_BITS;
    assert(ieee::value(q) == low);
    assert forall|p: u32| floatbits::is_finite(p) && 0 <= #[trigger] ieee::value(p) implies ({
        let both = (ieee::value(p) + ieee::value(large)) * (ieee::value(p) + ieee::value(large));
        &&& ieee::value(p) < ieee::value(large) ==> both <= 4 * (4 * square)
        &&& ieee::value(large) < ieee::value(p) ==> 4 * (4 * square) <= both
        &&& ieee::value(p) != ieee::value(large) && both == 4 * (4 * square)
            ==> floatbits::magnitude(large) % 2 == 0
    }) by {
        let near = if low <= ieee::value(p) {
            p
        } else {
            q
        };
        let h = lemma_half(near);
        let (x, y) = (ieee::value(h), ieee::value(p));
        assert(0 <= x);
        assert((2 * x + 2 * v) * (2 * x + 2 * v) == 4 * ((x + v) * (x + v))) by (nonlinear_arith);
        if y < low {
            assert((y + 2 * v) * (y + 2 * v) < (low + 2 * v) * (low + 2 * v)) by (nonlinear_arith)
                requires
                    0 <= y < low,
                    0 <= v,
            ;
        }
    }
}

proof fn lemma_double_root(m: Calc, x: u32)
    requires
        ieee::is_ieee(m),
        doubles(x),
        !floatbits::is_negative(x),
    ensures
        m(Op::Sqrt, twice(twice(x)), 0) == twice(m(Op::Sqrt, x, 0)),
{
    let (r, large) = (m(Op::Sqrt, x, 0), m(Op::Sqrt, twice(twice(x)), 0));
    let (v, o) = (ieee::value(x), ieee::one());
    let square = v * o;
    let w = ieee::value(r);
    let zero: u32 = 0;
    lemma_twice(x);
    lemma_ends();
    ieee::lemma_one();
    assert(ieee::nearest_root(r, square));
    assert(ieee::value(zero) == 0);
    if is_zero(x) {
        ieee::lemma_value_order(x, x);
        assert(square == 0) by (nonlinear_arith)
            requires
                square == v * o,
                v == 0,
        ;
        lemma_root_of_nothing(r);
    } else {
        lemma_roomy(x);
        lemma_next_exponent(floatbits::magnitude(x) + FRACTION);
        let fourfold = twice(twice(x));
        assert(ieee::value(fourfold) == 4 * v);
        assert((4 * v) * o == 4 * square) by (nonlinear_arith)
            requires
                square == v * o,
        ;
        assert(ieee::nearest_root(large, 4 * square));
        let (low, high) = (LOW_BITS as int, ieee::units(HIGH_BITS as int));
        assert(o <= square && square < high * o) by (nonlinear_arith)
            requires
                square == v * o,
                1 <= v < high,
                0 < o,
        ;
        let q = LOW_BITS;
        assert(ieee::value(q) == low);
        if w < low {
            assert(4 * square <= (low + w) * (low + w));
            assert(false) by (nonlinear_arith)
                requires
                    4 * square <= (low + w) * (low + w),
                    0 <= w < low,
                    low * low <= o,
                    o <= square,
            ;
        }
        if high <= w {
            assert((0 + w) * (0 + w) <= 4 * square);
            assert(false) by (nonlinear_arith)
                requires
                    (0 + w) * (0 + w) <= 4 * square,
                    square < high * o,
                    high <= w,
                    4 * o < high,
                    0 < o,
            ;
        }
        lemma_has_room(r);
        lemma_twice(r);
        lemma_scaled_root(r, square);
        lemma_one_root(large, twice(r), 4 * square);
        lemma_one_root(twice(r), large, 4 * square);
        ieee::lemma_value_order(large, twice(r));
    }
}

/// Doubling is exact in IEEE arithmetic: where no result comes near the ends of the range of
/// full precision, it can be done to an operand or to the result, and moved from one factor
/// to the other.
pub proof fn ieee_doubling_is_exact(m: Calc)
    requires
        ieee::is_ieee(m),
    ensures
        doubling_is_exact(m),
{
    assert forall|x: u32, y: u32|
        doubles(x) && doubles(y) && (is_zero(x) || is_zero(y) || roomy(
            #[trigger] m(Op::Mul, x, y),
        )) implies m(Op::Mul, twice(x), y) == twice(m(Op::Mul, x, y)) by {
        lemma_double_product(m, x, y);
    }
    assert forall|x: u32, y: u32|
        doubles(x) && doubles(y) implies #[trigger] m(Op::Mul, twice(x), y) == m(
        Op::Mul,
        x,
        twice(y),
    ) by {
        lemma_moved_factor(m, x, y);
    }
    assert forall|x: u32, y: u32|
        doubles(x) && doubles(y) && doubles(#[trigger] m(Op::Add, x, y)) implies m(
        Op::Add,
        twice(x),
        twice(y),
    ) == twice(m(Op::Add, x, y)) by {
        lemma_double_sum(m, x, y);
    }
    assert forall|x: u32| doubles(x) && !floatbits::is_negative(x) implies m(
        Op::Sqrt,
        twice(twice(x)),
        0,
    ) == twice(#[trigger] m(Op::Sqrt, x, 0)) by {
        lemma_double_root(m, x);
    }
    assert forall|x: u32, y: u32|
        doubles(x) && roomy(y) && (is_zero(x) || roomy(#[trigger] m(Op::Div, x, y))) implies m(
        Op::Div,
        twice(x),
        y,
    ) == twice(m(Op::Div, x, y)) by {
        lemma_double_quotient(m, x, y);
    }
    assert forall|x: u32, y: u32|
        doubles(x) && roomy(y) && (is_zero(x) || roomy(
            #[trigger] m(Op::Div, x, twice(y)),
        )) implies m(Op::Div, x, y) == twice(m(Op::Div, x, twice(y))) by {
        lemma_halved_divisor(m, x, y);
    }
}

} // verus!
