//! IEEE arithmetic exists: there is a nearest number to every result.

use vstd::arithmetic::power2::pow2;
use vstd::prelude::*;

use crate::arith::{Calc, Op};
use crate::floatbits;
use crate::floatbits::{INFINITY_BITS, SIGN_BIT};
use crate::ieee;
use crate::ieee::FRACTION;
use crate::rounding;

verus! {

/// Patterns from a magnitude down, and from the next one up.
proof fn lemma_sides(mag: int, p: u32)
    requires
        0 <= mag,
        floatbits::is_finite(p),
    ensures
        ieee::value(p) <= ieee::units(mag) || ieee::units(mag + 1) <= ieee::value(p),
        ieee::units(mag) < ieee::units(mag + 1),
{
    let other = floatbits::magnitude(p);
    ieee::lemma_value_order(p, p);
    ieee::lemma_units_increase(mag, mag + 1);
    if other < mag {
        ieee::lemma_units_increase(other, mag);
    }
    if mag + 1 < other {
        ieee::lemma_units_increase(mag + 1, other);
    }
}

/// The number nearest to a quotient that is not negative.
proof fn lemma_nearest_exists(num: int, den: int) -> (r: u32)
    requires
        0 <= num < ieee::limit() * den,
        0 < den,
    ensures
        ieee::nearest(r, num, den),
        !floatbits::is_negative(r),
{
    let f = FRACTION as int;
    let (k, digits) = ieee::lemma_bracket(num, den);
    ieee::lemma_pattern(k, digits);
    ieee::lemma_units(k, digits);
    ieee::lemma_next_units(k, digits);
    let x = ieee::pattern(k, digits);
    let mag = k * f + digits;
    let (low, high) = (ieee::units(mag), ieee::units(mag + 1));
    let (below, above) = (num - low * den, high * den - num);
    if mag + 1 == INFINITY_BITS {
        assert(k == 253 && digits == 2 * f - 1) by (nonlinear_arith)
            requires
                k * f + digits + 1 == 255 * f,
                0 <= digits < 2 * f,
                0 <= k <= 253,
                f == 0x80_0000,
        ;
        vstd::arithmetic::power2::lemma_pow2_unfold(253);
        let half = pow2(252) as int;
        assert(high == low + 2 * half) by (nonlinear_arith)
            requires
                low == (2 * f - 1) * pow2(253),
                high == (2 * f) * pow2(253),
                pow2(253) == 2 * half,
        ;
        assert(below < above) by (nonlinear_arith)
            requires
                below == num - low * den,
                above == high * den - num,
                high == low + 2 * half,
                num < (low + half) * den,
                0 < den,
        ;
    }
    let r = if below < above || below == above && mag % 2 == 0 {
        x
    } else {
        (x + 1) as u32
    };
    assert(ieee::value(r) == if r == x {
        low
    } else {
        high
    });
    assert forall|p: u32| floatbits::is_finite(p) implies ieee::miss(r, num, den)
        <= #[trigger] ieee::miss(p, num, den) && (ieee::value(p) != ieee::value(r) && ieee::miss(
        p,
        num,
        den,
    ) == ieee::miss(r, num, den) ==> floatbits::magnitude(r) % 2 == 0) by {
        lemma_sides(mag, p);
        let v = ieee::value(p);
        assert((v < low ==> v * den < low * den) && (high < v ==> high * den < v * den))
            by (nonlinear_arith)
            requires
                0 < den,
        ;
    }
    r
}

/// The rounded quotient with a given sign.
proof fn lemma_rounded_exists(num: int, den: int, negative: bool) -> (r: u32)
    requires
        0 < den,
        num > 0 ==> !negative,
        num < 0 ==> negative,
    ensures
        ieee::rounded(r, num, den),
        floatbits::is_negative(r) == negative,
{
    if ieee::size(num) < ieee::limit() * den {
        if negative {
            let r = lemma_nearest_exists(-num, den);
            ieee::lemma_nearest_opposite(r, -num, den);
            ieee::lemma_opposite(r);
            floatbits::opposite(r)
        } else {
            lemma_nearest_exists(num, den)
        }
    } else if negative {
        (INFINITY_BITS + SIGN_BIT) as u32
    } else {
        INFINITY_BITS
    }
}

/// The nearest root.
proof fn lemma_root_exists(square: int) -> (r: u32)
    requires
        0 <= square <= ieee::limit() * ieee::one(),
    ensures
        ieee::nearest_root(r, square),
        !floatbits::is_negative(r),
{
    let f = FRACTION as int;
    let q = rounding::lemma_root(square as nat) as int;
    let (k, digits) = ieee::lemma_below(q as nat);
    assert(k <= 252) by {
        if k > 252 {
            let (p, o) = (pow2(k) as int, ieee::one());
            vstd::arithmetic::power2::lemma_pow2_adds(149, 100);
            vstd::arithmetic::power2::lemma_pow2_adds(49, 100);
            vstd::arithmetic::power2::lemma_pow2_strictly_increases(249, k);
            vstd::arithmetic::power2::lemma_pow2_strictly_increases(49, 100);
            ieee::lemma_bounds(0);
            ieee::lemma_one();
            let t = pow2(100) as int;
            assert(q >= o * t && t * t >= o) by (nonlinear_arith)
                requires
                    digits * p <= q,
                    1 <= digits,
                    o * t <= p,
                    0 < p,
                    o == pow2(49) * t,
                    pow2(49) <= t,
                    0 < t,
            ;
            assert(q * q > ieee::limit() * o) by (nonlinear_arith)
                requires
                    q >= o * t,
                    t * t >= o,
                    ieee::limit() < o * o,
                    0 < o,
                    0 < t,
            ;
        }
    }
    ieee::lemma_pattern(k, digits);
    ieee::lemma_units(k, digits);
    ieee::lemma_next_units(k, digits);
    let x = ieee::pattern(k, digits);
    let mag = k * f + digits;
    let (low, high) = (ieee::units(mag), ieee::units(mag + 1));
    let middle = (low + high) * (low + high);
    assert(low * low <= square < high * high) by (nonlinear_arith)
        requires
            0 <= low <= q,
            q + 1 <= high,
            q * q <= square < (q + 1) * (q + 1),
    ;
    let r = if 4 * square < middle || 4 * square == middle && mag % 2 == 0 {
        x
    } else {
        (x + 1) as u32
    };
    assert(0 <= k * f <= 252 * f) by (nonlinear_arith)
        requires
            0 <= k <= 252,
            0 < f,
    ;
    assert(ieee::value(r) == if r == x {
        low
    } else {
        high
    });
    assert forall|p: u32| floatbits::is_finite(p) && 0 <= #[trigger] ieee::value(p) implies ({
        let both = (ieee::value(p) + ieee::value(r)) * (ieee::value(p) + ieee::value(r));
        &&& ieee::value(p) < ieee::value(r) ==> both <= 4 * square
        &&& ieee::value(r) < ieee::value(p) ==> 4 * square <= both
        &&& ieee::value(p) != ieee::value(r) && both == 4 * square ==> floatbits::magnitude(r) % 2
            == 0
    }) by {
        lemma_sides(mag, p);
        let v = ieee::value(p);
        if r == x {
            assert((v < low ==> (v + low) * (v + low) < 4 * square) && (high <= v ==> middle <= (v
                + low) * (v + low)) && (high < v ==> middle < (v + low) * (v + low)))
                by (nonlinear_arith)
                requires
                    0 <= v,
                    0 <= low,
                    middle == (low + high) * (low + high),
                    low * low <= square,
                    low < high,
            ;
        } else {
            assert((v <= low ==> (v + high) * (v + high) <= middle) && (v < low ==> (v + high) * (v
                + high) < middle) && (high < v ==> 4 * square < (v + high) * (v + high)))
                by (nonlinear_arith)
                requires
                    0 <= v,
                    0 <= low,
                    middle == (low + high) * (low + high),
                    square < high * high,
                    low < high,
            ;
        }
    }
    r
}

/// Operations that round as IEEE arithmetic does.
pub open spec fn model() -> Calc {
    |op: Op, x: u32, y: u32|
        match op {
            Op::Add => choose|r: u32| ieee::adds(x, y, r),
            Op::Sub => choose|r: u32| ieee::adds(x, floatbits::opposite(y), r),
            Op::Mul => choose|r: u32| ieee::multiplies(x, y, r),
            Op::Div => choose|r: u32| ieee::divides(x, y, r),
            Op::Sqrt => choose|r: u32|
                ieee::nearest_root(r, ieee::value(x) * ieee::one()) && !floatbits::is_negative(r),
            Op::Int => choose|r: u32|
                ieee::nearest(r, x * ieee::one(), 1) && !floatbits::is_negative(r),
        }
}

proof fn lemma_sum_exists(x: u32, y: u32) -> (r: u32)
    ensures
        ieee::adds(x, y, r),
{
    let sum = ieee::value(x) + ieee::value(y);
    lemma_rounded_exists(
        sum,
        1,
        if sum == 0 {
            floatbits::is_negative(x) && floatbits::is_negative(y)
        } else {
            sum < 0
        },
    )
}

proof fn lemma_product_exists(x: u32, y: u32) -> (r: u32)
    ensures
        ieee::multiplies(x, y, r),
{
    let (v, w) = (ieee::value(x), ieee::value(y));
    ieee::lemma_one();
    ieee::lemma_value_order(x, y);
    ieee::lemma_value_order(y, x);
    assert((0 <= v && 0 <= w || v <= 0 && w <= 0 ==> 0 <= v * w) && (0 <= v && w <= 0 || v <= 0 && 0
        <= w ==> v * w <= 0)) by (nonlinear_arith);
    lemma_rounded_exists(
        v * w,
        ieee::one(),
        floatbits::is_negative(x) != floatbits::is_negative(y),
    )
}

proof fn lemma_quotient_exists(x: u32, y: u32) -> (r: u32)
    requires
        ieee::value(y) != 0,
    ensures
        ieee::divides(x, y, r),
{
    let (v, w, o) = (ieee::value(x), ieee::value(y), ieee::one());
    ieee::lemma_one();
    ieee::lemma_value_order(x, y);
    ieee::lemma_value_order(y, x);
    let sign = if w < 0 {
        -1int
    } else {
        1
    };
    let num = v * o * sign;
    assert((0 <= v && sign == 1 || v <= 0 && sign == -1 ==> 0 <= num) && (0 <= v && sign == -1 || v
        <= 0 && sign == 1 ==> num <= 0)) by (nonlinear_arith)
        requires
            num == v * o * sign,
            0 < o,
    ;
    lemma_rounded_exists(
        num,
        ieee::size(w),
        floatbits::is_negative(x) != floatbits::is_negative(y),
    )
}

/// There is IEEE arithmetic, so that what is stated of it says something.
pub proof fn ieee_arithmetic_exists()
    ensures
        ieee::is_ieee(model()),
{
    let m = model();
    let o = ieee::one();
    ieee::lemma_one();
    assert forall|x: u32, y: u32|
        floatbits::is_finite(x) && floatbits::is_finite(y) implies ieee::adds(
        x,
        y,
        #[trigger] m(Op::Add, x, y),
    ) by {
        let r = lemma_sum_exists(x, y);
    }
    assert forall|x: u32, y: u32|
        floatbits::is_finite(x) && floatbits::is_finite(y) implies ieee::adds(
        x,
        floatbits::opposite(y),
        #[trigger] m(Op::Sub, x, y),
    ) by {
        let r = lemma_sum_exists(x, floatbits::opposite(y));
    }
    assert forall|x: u32, y: u32|
        floatbits::is_finite(x) && floatbits::is_finite(y) implies ieee::multiplies(
        x,
        y,
        #[trigger] m(Op::Mul, x, y),
    ) by {
        let r = lemma_product_exists(x, y);
    }
    assert forall|x: u32, y: u32|
        floatbits::is_finite(x) && floatbits::is_finite(y) && ieee::value(y)
            != 0 implies ieee::divides(x, y, #[trigger] m(Op::Div, x, y)) by {
        let r = lemma_quotient_exists(x, y);
    }
    assert forall|x: u32|
        floatbits::is_finite(x) && !floatbits::is_negative(x) implies !floatbits::is_negative(
        #[trigger] m(Op::Sqrt, x, 0),
    ) && ieee::nearest_root(m(Op::Sqrt, x, 0), ieee::value(x) * o) by {
        let v = ieee::value(x);
        ieee::lemma_value_order(x, x);
        ieee::lemma_bounds(x);
        assert(0 <= v * o <= ieee::limit() * o) by (nonlinear_arith)
            requires
                0 <= v <= ieee::limit(),
                0 < o,
        ;
        let r = lemma_root_exists(v * o);
    }
    assert forall|k: u32|
        !floatbits::is_negative(#[trigger] m(Op::Int, k, 0)) && ieee::nearest(
            m(Op::Int, k, 0),
            k * o,
            1,
        ) by {
        rounding::lemma_limit();
        assert(0 <= k * o <= 0x1_0000_0000 * o) by (nonlinear_arith)
            requires
                0 <= k < 0x1_0000_0000,
                0 < o,
        ;
        let r = lemma_nearest_exists(k * o, 1);
    }
}

} // verus!
