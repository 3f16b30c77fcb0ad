//! IEEE arithmetic on 32 bits: what patterns stand for, and results that are rounded to the
//! nearest number.
//!
//! Every finite number is a whole multiple of the smallest positive one. Numbers are
//! counted in that unit here.

use vstd::arithmetic::power2::pow2;
use vstd::prelude::*;

use crate::arith::{Calc, Op};
use crate::floatbits;
use crate::floatbits::{INFINITY_BITS, ONE_BITS, TWO_BITS};

verus! {

/// One more than the largest fraction, and the weight of the lowest exponent bit.
pub const FRACTION: u32 = 0x0080_0000;

/// Units of a magnitude: up to the second exponent the magnitude itself, and from there on
/// twice as many with each exponent.
pub open spec fn units(mag: int) -> int {
    let exponent = mag / (FRACTION as int);
    if exponent == 0 {
        mag
    } else {
        (FRACTION + mag % (FRACTION as int)) * pow2((exponent - 1) as nat)
    }
}

/// Units of a number.
pub open spec fn value(x: u32) -> int {
    if floatbits::is_negative(x) {
        -units(floatbits::magnitude(x))
    } else {
        units(floatbits::magnitude(x))
    }
}

/// Units of the number one.
pub open spec fn one() -> int {
    pow2(149) as int
}

/// Units of the largest finite number, and half of what the next would add to it.
pub open spec fn limit() -> int {
    (2 * (FRACTION as int) - 1) * pow2(253) + pow2(252)
}

/// A number without its sign.
pub open spec fn size(x: int) -> int {
    if x < 0 {
        -x
    } else {
        x
    }
}

/// How far a number is from the quotient `num / den`, times `den`.
pub open spec fn miss(x: u32, num: int, den: int) -> int {
    size(value(x) * den - num)
}

/// Whether a pattern is the finite number nearest to the quotient `num / den`; of two that are
/// equally near, the one with the even pattern.
pub open spec fn nearest(r: u32, num: int, den: int) -> bool {
    &&& floatbits::is_finite(r)
    &&& forall|p: u32|
        floatbits::is_finite(p) ==> miss(r, num, den) <= #[trigger] miss(p, num, den)
    &&& forall|p: u32|
        floatbits::is_finite(p) && value(p) != value(r) && #[trigger] miss(p, num, den) == miss(
            r,
            num,
            den,
        ) ==> floatbits::magnitude(r) % 2 == 0
}

/// Whether a pattern is the finite number nearest to the root of `square`; of two that are
/// equally near, the one with the even pattern.
pub open spec fn nearest_root(r: u32, square: int) -> bool {
    &&& floatbits::is_finite(r)
    &&& 0 <= value(r)
    &&& forall|p: u32|
        floatbits::is_finite(p) && 0 <= #[trigger] value(p) ==> {
            let both = (value(p) + value(r)) * (value(p) + value(r));
            &&& value(p) < value(r) ==> both <= 4 * square
            &&& value(r) < value(p) ==> 4 * square <= both
            &&& value(p) != value(r) && both == 4 * square ==> floatbits::magnitude(r) % 2 == 0
        }
}

/// Whether results of finite operands are rounded to the nearest number, or to an infinity
/// where they are too large, and have the sign that IEEE arithmetic gives them. What becomes
/// of infinities, of what is no number, and of quotients by zero is left open.
pub open spec fn is_ieee(m: Calc) -> bool {
    &&& forall|x: u32, y: u32|
        floatbits::is_finite(x) && floatbits::is_finite(y) ==> adds(
            x,
            y,
            #[trigger] m(Op::Add, x, y),
        )
    &&& forall|x: u32, y: u32|
        floatbits::is_finite(x) && floatbits::is_finite(y) ==> adds(
            x,
            floatbits::opposite(y),
            #[trigger] m(Op::Sub, x, y),
        )
    &&& forall|x: u32, y: u32|
        floatbits::is_finite(x) && floatbits::is_finite(y) ==> multiplies(
            x,
            y,
            #[trigger] m(Op::Mul, x, y),
        )
    &&& forall|x: u32, y: u32|
        floatbits::is_finite(x) && floatbits::is_finite(y) && value(y) != 0 ==> divides(
            x,
            y,
            #[trigger] m(Op::Div, x, y),
        )
    &&& forall|x: u32|
        floatbits::is_finite(x) && !floatbits::is_negative(x) ==> !floatbits::is_negative(
            #[trigger] m(Op::Sqrt, x, 0),
        ) && nearest_root(m(Op::Sqrt, x, 0), value(x) * one())
    &&& forall|k: u32|
        !floatbits::is_negative(#[trigger] m(Op::Int, k, 0)) && nearest(
            m(Op::Int, k, 0),
            k * one(),
            1,
        )
}

/// Whether a pattern is the number nearest to `num / den`, or an infinity where that is too
/// large to be near any.
pub open spec fn rounded(r: u32, num: int, den: int) -> bool {
    if size(num) < limit() * den {
        nearest(r, num, den)
    } else {
        floatbits::magnitude(r) == INFINITY_BITS
    }
}

/// Whether a pattern is the rounded sum of two numbers.
pub open spec fn adds(x: u32, y: u32, r: u32) -> bool {
    let sum = value(x) + value(y);
    &&& rounded(r, sum, 1)
    &&& floatbits::is_negative(r) == if sum == 0 {
        floatbits::is_negative(x) && floatbits::is_negative(y)
    } else {
        sum < 0
    }
}

/// Whether a pattern is the rounded product of two numbers.
pub open spec fn multiplies(x: u32, y: u32, r: u32) -> bool {
    &&& rounded(r, value(x) * value(y), one())
    &&& floatbits::is_negative(r) == (floatbits::is_negative(x) != floatbits::is_negative(y))
}

/// Whether a pattern is the rounded quotient of two numbers.
pub open spec fn divides(x: u32, y: u32, r: u32) -> bool {
    let num = value(x) * one() * if value(y) < 0 {
        -1int
    } else {
        1
    };
    &&& rounded(r, num, size(value(y)))
    &&& floatbits::is_negative(r) == (floatbits::is_negative(x) != floatbits::is_negative(y))
}

// ---------------------------------------------------------------------------
// Values
// ---------------------------------------------------------------------------

/// The magnitude with an exponent and its digits stands for the digits, doubled as often as
/// the exponent says.
pub(crate) proof fn lemma_units(k: nat, digits: int)
    requires
        0 <= digits < 2 * (FRACTION as int),
        k > 0 ==> FRACTION <= digits,
    ensures
        units(k * (FRACTION as int) + digits) == digits * pow2(k),
{
    let f = FRACTION as int;
    let mag = k * f + digits;
    vstd::arithmetic::power2::lemma2_to64();
    if digits < f {
        assert(mag / f == 0);
    } else {
        let rest = digits - f;
        assert(mag == f * (k + 1) + rest) by (nonlinear_arith)
            requires
                mag == k * f + digits,
                rest == digits - f,
        ;
        vstd::arithmetic::div_mod::lemma_fundamental_div_mod_converse(mag, f, (k + 1) as int, rest);
    }
}

/// The exponent and the digits of a magnitude.
proof fn lemma_digits(mag: int) -> (r: (nat, int))
    requires
        0 <= mag,
    ensures
        mag == r.0 * (FRACTION as int) + r.1,
        0 <= r.1 < 2 * (FRACTION as int),
        r.0 > 0 ==> FRACTION <= r.1,
        units(mag) == r.1 * pow2(r.0),
{
    let f = FRACTION as int;
    vstd::arithmetic::div_mod::lemma_fundamental_div_mod(mag, f);
    let e = mag / f;
    if e == 0 {
        lemma_units(0, mag);
        (0, mag)
    } else {
        let digits = mag % f + f;
        assert(mag == (e - 1) * f + digits) by (nonlinear_arith)
            requires
                mag == f * e + mag % f,
                digits == mag % f + f,
        ;
        lemma_units((e - 1) as nat, digits);
        ((e - 1) as nat, digits)
    }
}

/// The next magnitude stands for more, by as much as its exponent says.
pub(crate) proof fn lemma_next_units(k: nat, digits: int)
    requires
        0 <= digits < 2 * (FRACTION as int),
        k > 0 ==> FRACTION <= digits,
    ensures
        units(k * (FRACTION as int) + digits + 1) == (digits + 1) * pow2(k),
{
    let f = FRACTION as int;
    if digits + 1 < 2 * f {
        lemma_units(k, digits + 1);
    } else {
        lemma_units(k + 1, f);
        vstd::arithmetic::power2::lemma_pow2_unfold(k + 1);
        assert((k + 1) * f + f == k * f + digits + 1) by (nonlinear_arith)
            requires
                digits + 1 == 2 * f,
        ;
        let p = pow2(k) as int;
        assert(f * (2 * p) == (2 * f) * p) by (nonlinear_arith);
    }
}

/// Larger magnitudes stand for more.
pub(crate) proof fn lemma_units_increase(a: int, b: int)
    requires
        0 <= a < b,
    ensures
        units(a) < units(b),
        0 <= units(a),
    decreases b - a,
{
    let (k, digits) = lemma_digits(a);
    lemma_next_units(k, digits);
    vstd::arithmetic::power2::lemma_pow2_pos(k);
    let p = pow2(k) as int;
    assert((digits + 1) * p == digits * p + p && 0 <= digits * p) by (nonlinear_arith)
        requires
            0 < p,
            0 <= digits,
    ;
    if a + 1 < b {
        lemma_units_increase(a + 1, b);
    }
}

/// Numbers are ordered as their values are.
pub(crate) proof fn lemma_value_order(x: u32, y: u32)
    ensures
        value(x) < value(y) <==> floatbits::value_rank(x) < floatbits::value_rank(y),
        value(x) == value(y) <==> floatbits::value_rank(x) == floatbits::value_rank(y),
        value(x) == 0 <==> floatbits::magnitude(x) == 0,
        floatbits::is_negative(x) ==> value(x) <= 0,
        !floatbits::is_negative(x) ==> 0 <= value(x),
{
    let (a, b) = (floatbits::magnitude(x), floatbits::magnitude(y));
    assert(units(0) == 0);
    if a > 0 {
        lemma_units_increase(0, a);
    }
    if b > 0 {
        lemma_units_increase(0, b);
    }
    if a < b {
        lemma_units_increase(a, b);
    } else if b < a {
        lemma_units_increase(b, a);
    }
}

/// The value of the opposite.
pub(crate) proof fn lemma_opposite(x: u32)
    ensures
        value(floatbits::opposite(x)) == -value(x),
        floatbits::magnitude(floatbits::opposite(x)) == floatbits::magnitude(x),
        floatbits::is_negative(floatbits::opposite(x)) == !floatbits::is_negative(x),
{
}

/// The values of one and two.
pub(crate) proof fn lemma_one()
    ensures
        value(ONE_BITS) == one(),
        value(TWO_BITS) == 2 * one(),
        value(0) == 0,
        one() > 0x1_0000_0000_0000,
{
    let f = FRACTION as int;
    lemma_units(126, f);
    lemma_units(127, f);
    assert(ONE_BITS == 126 * f + f);
    assert(TWO_BITS == 127 * f + f);
    vstd::arithmetic::power2::lemma2_to64();
    vstd::arithmetic::power2::lemma2_to64_rest();
    vstd::arithmetic::power2::lemma_pow2_adds(23, 126);
    vstd::arithmetic::power2::lemma_pow2_unfold(127);
    vstd::arithmetic::power2::lemma_pow2_strictly_increases(48, 149);
    let p = pow2(126) as int;
    assert(f * (2 * p) == 2 * (f * p)) by (nonlinear_arith);
    assert(units(0) == 0);
}

// ---------------------------------------------------------------------------
// How far a rounded number is off
// ---------------------------------------------------------------------------

/// The exponent and the digits of the magnitude that is next below a whole number of units.
pub(crate) proof fn lemma_below(q: nat) -> (r: (nat, int))
    ensures
        0 <= r.1 < 2 * (FRACTION as int),
        r.0 > 0 ==> FRACTION <= r.1,
        r.1 * pow2(r.0) <= q < (r.1 + 1) * pow2(r.0),
    decreases q,
{
    vstd::arithmetic::power2::lemma2_to64();
    if q < 2 * (FRACTION as int) {
        (0, q as int)
    } else {
        let (k, digits) = lemma_below(q / 2);
        vstd::arithmetic::power2::lemma_pow2_unfold(k + 1);
        let p = pow2(k) as int;
        assert(digits * (2 * p) == 2 * (digits * p) && (digits + 1) * (2 * p) == 2 * ((digits + 1)
            * p)) by (nonlinear_arith);
        if k == 0 {
            assert(digits * 1 == digits && (digits + 1) * 1 == digits + 1) by (nonlinear_arith);
        }
        (k + 1, digits)
    }
}

/// The exponent and the digits of the finite magnitude that is next below a quotient.
pub(crate) proof fn lemma_bracket(num: int, den: int) -> (r: (nat, int))
    requires
        0 <= num < limit() * den,
        0 < den,
    ensures
        0 <= r.1 < 2 * (FRACTION as int),
        r.0 > 0 ==> FRACTION <= r.1,
        r.0 <= 253,
        r.1 * pow2(r.0) * den <= num < (r.1 + 1) * pow2(r.0) * den,
{
    let q = num / den;
    vstd::arithmetic::div_mod::lemma_fundamental_div_mod(num, den);
    vstd::arithmetic::div_mod::lemma_div_pos_is_pos(num, den);
    let (k, digits) = lemma_below(q as nat);
    let p = pow2(k) as int;
    let (a, b) = (digits * p, (digits + 1) * p);
    assert(a * den <= num < b * den) by (nonlinear_arith)
        requires
            a <= q < b,
            num == den * q + num % den,
            0 <= num % den < den,
            0 < den,
    ;
    if k >= 254 {
        let f = FRACTION as int;
        let (p252, p253, p254) = (pow2(252) as int, pow2(253) as int, pow2(254) as int);
        vstd::arithmetic::power2::lemma_pow2_unfold(254);
        vstd::arithmetic::power2::lemma_pow2_unfold(253);
        vstd::arithmetic::power2::lemma_pow2_pos(252);
        if k > 254 {
            vstd::arithmetic::power2::lemma_pow2_strictly_increases(254, k);
        }
        assert(f * p254 <= digits * p) by (nonlinear_arith)
            requires
                0 < f <= digits,
                0 < p254 <= p,
        ;
        assert((2 * f - 1) * p253 + p252 <= f * p254) by (nonlinear_arith)
            requires
                p254 == 2 * p253,
                p253 == 2 * p252,
                0 < p252,
        ;
        assert(limit() * den <= a * den) by (nonlinear_arith)
            requires
                limit() <= a,
                0 < den,
        ;
    }
    (k, digits)
}

/// The pattern of an exponent and its digits.
pub open spec fn pattern(k: nat, digits: int) -> u32 {
    (k * (FRACTION as int) + digits) as u32
}

pub(crate) proof fn lemma_pattern(k: nat, digits: int)
    requires
        0 <= digits < 2 * (FRACTION as int),
        k > 0 ==> FRACTION <= digits,
        k <= 253,
    ensures
        floatbits::is_finite(pattern(k, digits)),
        !floatbits::is_negative(pattern(k, digits)),
        floatbits::magnitude(pattern(k, digits)) == k * (FRACTION as int) + digits,
        value(pattern(k, digits)) == digits * pow2(k),
{
    lemma_units(k, digits);
    assert(0 <= k * (FRACTION as int) <= 253 * (FRACTION as int));
}

/// What is nearest to a quotient is, with the sign turned, nearest to its opposite.
pub(crate) proof fn lemma_nearest_opposite(r: u32, num: int, den: int)
    requires
        nearest(r, num, den),
    ensures
        nearest(floatbits::opposite(r), -num, den),
        miss(floatbits::opposite(r), -num, den) == miss(r, num, den),
{
    lemma_opposite(r);
    assert forall|p: u32| true implies miss(p, -num, den) == miss(floatbits::opposite(p), num, den)
        && value(floatbits::opposite(p)) == -value(p) && floatbits::is_finite(p)
        == floatbits::is_finite(floatbits::opposite(p)) by {
        lemma_opposite(p);
        let v = value(p);
        assert((-v) * den == -(v * den)) by (nonlinear_arith);
    }
    let o = floatbits::opposite(r);
    lemma_opposite(o);
    assert(miss(o, -num, den) == miss(floatbits::opposite(o), num, den));
    assert forall|p: u32| floatbits::is_finite(p) implies miss(o, -num, den) <= #[trigger] miss(
        p,
        -num,
        den,
    ) by {
        assert(miss(p, -num, den) == miss(floatbits::opposite(p), num, den));
    }
    assert forall|p: u32|
        floatbits::is_finite(p) && value(p) != value(o) && #[trigger] miss(p, -num, den) == miss(
            o,
            -num,
            den,
        ) implies floatbits::magnitude(o) % 2 == 0 by {
        assert(miss(p, -num, den) == miss(floatbits::opposite(p), num, den));
    }
}

/// A rounded number is off by no more than half of the last place.
proof fn lemma_off_positive(r: u32, num: int, den: int)
    requires
        nearest(r, num, den),
        0 <= num < limit() * den,
        0 < den,
    ensures
        2 * (FRACTION as int) * miss(r, num, den) <= num + FRACTION * den,
        den == 1 ==> 2 * (FRACTION as int) * miss(r, num, den) <= num,
{
    let f = FRACTION as int;
    let (k, digits) = lemma_bracket(num, den);
    let p = pow2(k) as int;
    vstd::arithmetic::power2::lemma_pow2_pos(k);
    vstd::arithmetic::power2::lemma2_to64();
    lemma_pattern(k, digits);
    let low = pattern(k, digits);
    let off = miss(r, num, den);
    assert(off <= miss(low, num, den));
    let (a, b, step) = (digits * p * den, (digits + 1) * p * den, p * den);
    assert(b == a + step && 0 < step) by (nonlinear_arith)
        requires
            a == digits * p * den,
            b == (digits + 1) * p * den,
            step == p * den,
            0 < p,
            0 < den,
    ;
    assert(miss(low, num, den) == num - a);
    assert(2 * off <= step) by {
        if k == 253 && digits == 2 * f - 1 {
            vstd::arithmetic::power2::lemma_pow2_unfold(253);
            let half = pow2(252) as int;
            assert(limit() * den == a + half * den && step == 2 * (half * den))
                by (nonlinear_arith)
                requires
                    limit() == (2 * f - 1) * p + half,
                    a == (2 * f - 1) * p * den,
                    step == p * den,
                    p == 2 * half,
            ;
        } else {
            lemma_next_units(k, digits);
            let next = (k * f + digits + 1) as u32;
            assert(0 <= k * f <= 253 * f);
            assert(k <= 252 ==> k * f <= 252 * f);
            assert(floatbits::is_finite(next) && value(next) == (digits + 1) * p);
            assert(off <= miss(next, num, den));
            assert(miss(next, num, den) == b - num);
        }
    }
    assert(f * step <= num + f * den && (den == 1 ==> k > 0 ==> f * step <= num))
        by (nonlinear_arith)
        requires
            step == p * den,
            a == digits * p * den,
            a <= num,
            k == 0 ==> p == 1,
            k > 0 ==> f <= digits,
            0 < p,
            0 < den,
            0 < f,
            0 <= num,
    ;
    assert(2 * f * off <= f * step) by (nonlinear_arith)
        requires
            2 * off <= step,
            0 < f,
    ;
    if den == 1 && k == 0 {
        assert(off == 0) by (nonlinear_arith)
            requires
                0 <= off,
                2 * off <= p * den,
                p == 1,
                den == 1,
        ;
    }
}

/// A rounded number is off by no more than half of the last place: a part of the quotient,
/// or half a unit where the quotient is small. A sum of numbers is exact where it is small.
pub(crate) proof fn lemma_off(r: u32, num: int, den: int)
    requires
        nearest(r, num, den),
        size(num) < limit() * den,
        0 < den,
    ensures
        2 * (FRACTION as int) * miss(r, num, den) <= size(num) + FRACTION * den,
        den == 1 ==> 2 * (FRACTION as int) * miss(r, num, den) <= size(num),
{
    if num >= 0 {
        lemma_off_positive(r, num, den);
    } else {
        lemma_nearest_opposite(r, num, den);
        lemma_off_positive(floatbits::opposite(r), -num, den);
    }
}

/// Digits that are doubled some times are a number.
pub(crate) proof fn lemma_has_pattern(digits: int, k: nat) -> (r: u32)
    requires
        0 <= digits < 2 * (FRACTION as int),
        k <= 253,
    ensures
        floatbits::is_finite(r),
        !floatbits::is_negative(r),
        value(r) == digits * pow2(k),
    decreases k,
{
    let f = FRACTION as int;
    if k == 0 || f <= digits {
        lemma_pattern(k, digits);
        pattern(k, digits)
    } else {
        vstd::arithmetic::power2::lemma_pow2_unfold(k);
        let p = pow2((k - 1) as nat) as int;
        assert(digits * (2 * p) == (2 * digits) * p) by (nonlinear_arith);
        lemma_has_pattern(2 * digits, (k - 1) as nat)
    }
}

// ---------------------------------------------------------------------------
// Order
// ---------------------------------------------------------------------------

/// Between two numbers with even patterns there is another.
pub(crate) proof fn lemma_between(x: u32, y: u32) -> (p: u32)
    requires
        floatbits::is_finite(x),
        floatbits::is_finite(y),
        value(x) < value(y),
        floatbits::magnitude(x) % 2 == 0,
        floatbits::magnitude(y) % 2 == 0,
    ensures
        floatbits::is_finite(p),
        value(x) < value(p) < value(y),
{
    lemma_value_order(x, y);
    let (a, b) = (floatbits::magnitude(x), floatbits::magnitude(y));
    let p: u32 = if !floatbits::is_negative(x) {
        (a + 1) as u32
    } else if floatbits::is_negative(y) || b == 0 {
        (b + 1 + floatbits::SIGN_BIT) as u32
    } else if a > 0 {
        0
    } else {
        1
    };
    lemma_value_order(x, p);
    lemma_value_order(p, y);
    p
}

/// A larger quotient is rounded to no smaller number.
pub(crate) proof fn lemma_keeps_order(
    r: u32,
    num: int,
    den: int,
    r2: u32,
    num2: int,
    den2: int,
)
    requires
        nearest(r, num, den),
        nearest(r2, num2, den2),
        0 < den,
        0 < den2,
        num * den2 <= num2 * den,
    ensures
        value(r) <= value(r2),
{
    let (v, w) = (value(r), value(r2));
    if v > w {
        assert(miss(r, num, den) <= miss(r2, num, den));
        assert(miss(r2, num2, den2) <= miss(r, num2, den2));
        let sum = v + w;
        assert(w * den < v * den && w * den2 < v * den2 && sum * den == v * den + w * den && sum
            * den2 == v * den2 + w * den2) by (nonlinear_arith)
            requires
                w < v,
                0 < den,
                0 < den2,
                sum == v + w,
        ;
        assert(sum * den <= 2 * num && 2 * num2 <= sum * den2);
        assert(sum * den == 2 * num && 2 * num2 == sum * den2) by (nonlinear_arith)
            requires
                sum * den <= 2 * num,
                2 * num2 <= sum * den2,
                num * den2 <= num2 * den,
                0 < den,
                0 < den2,
        ;
        assert(miss(r, num, den) == miss(r2, num, den));
        assert(miss(r, num2, den2) == miss(r2, num2, den2));
        let p = lemma_between(r2, r);
        let u = value(p);
        assert(w * den < u * den < v * den) by (nonlinear_arith)
            requires
                w < u < v,
                0 < den,
        ;
        assert(miss(r, num, den) <= miss(p, num, den));
    }
}

/// There is one nearest number, but for the sign of zero.
pub(crate) proof fn lemma_one_nearest(r: u32, r2: u32, num: int, den: int)
    requires
        nearest(r, num, den),
        nearest(r2, num, den),
        0 < den,
        floatbits::is_negative(r) == floatbits::is_negative(r2),
    ensures
        r == r2,
{
    lemma_keeps_order(r, num, den, r2, num, den);
    lemma_keeps_order(r2, num, den, r, num, den);
    lemma_value_order(r, r2);
}

/// A number is nearest to itself.
pub(crate) proof fn lemma_exact(x: u32, den: int)
    requires
        floatbits::is_finite(x),
        0 < den,
    ensures
        nearest(x, value(x) * den, den),
{
    assert forall|p: u32|
        floatbits::is_finite(p) && value(p) != value(x) implies #[trigger] miss(
        p,
        value(x) * den,
        den,
    ) != 0 by {
        let (a, b) = (value(p), value(x));
        assert(a * den != b * den) by (nonlinear_arith)
            requires
                a != b,
                0 < den,
        ;
    }
}

/// Bounds of what numbers stand for.
pub(crate) proof fn lemma_bounds(x: u32)
    requires
        floatbits::is_finite(x),
    ensures
        size(value(x)) <= limit() - pow2(252),
        one() < pow2(252),
        0 < pow2(252),
        limit() < one() * one(),
{
    let f = FRACTION as int;
    let top = 254 * f + f - 1;
    let mag = floatbits::magnitude(x);
    assert(units(top) == (2 * f - 1) * pow2(253)) by {
        lemma_units(253, 2 * f - 1);
    }
    if mag < top {
        lemma_units_increase(mag, top);
    }
    if 0 < mag {
        lemma_units_increase(0, mag);
    }
    assert(units(0) == 0);
    vstd::arithmetic::power2::lemma_pow2_strictly_increases(149, 252);
    vstd::arithmetic::power2::lemma_pow2_pos(252);
    vstd::arithmetic::power2::lemma_pow2_adds(149, 149);
    vstd::arithmetic::power2::lemma_pow2_adds(25, 252);
    vstd::arithmetic::power2::lemma_pow2_unfold(253);
    vstd::arithmetic::power2::lemma_pow2_strictly_increases(277, 298);
    vstd::arithmetic::power2::lemma2_to64();
    let p = pow2(252) as int;
    assert((2 * f - 1) * (2 * p) + p <= 0x200_0000 * p) by (nonlinear_arith)
        requires
            f == 0x80_0000,
            0 < p,
    ;
}

} // verus!
