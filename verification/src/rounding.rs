//! How far results of IEEE arithmetic are off: each is off by a part of its size.

use vstd::arithmetic::power2::pow2;
use vstd::prelude::*;

use crate::arith;
use crate::arith::{Calc, Op};
use crate::floatbits;
use crate::ieee;
use crate::ieee::FRACTION;
use crate::metric;

verus! {

/// Whether two numbers are no farther apart than `slack`.
pub open spec fn near(x: int, y: int, slack: int) -> bool {
    -slack <= x - y <= slack
}

/// How many times smaller than a result its rounding is.
pub open spec fn parts() -> int {
    2 * (FRACTION as int)
}

/// By how many units results up to `top` can be off, and a little more.
pub open spec fn slack_for(top: int) -> int {
    top / parts() + 2
}

/// Whether a row has finite entries, none of them beyond a bound.
pub open spec fn small(bound: int, a: Seq<u32>) -> bool {
    forall|i: int|
        0 <= i < a.len()
            ==> floatbits::is_finite(#[trigger] a[i]) && near(ieee::value(a[i]), 0, bound)
}

/// The sum of the first `n` entries of a row.
pub open spec fn whole_sum(a: Seq<u32>, n: nat) -> int
    decreases n,
{
    if n == 0 {
        0
    } else {
        whole_sum(a, (n - 1) as nat) + ieee::value(a[n - 1])
    }
}

/// The inner product of the first `n` entries of two rows.
pub open spec fn whole_dot(a: Seq<u32>, b: Seq<u32>, n: nat) -> int
    decreases n,
{
    if n == 0 {
        0
    } else {
        whole_dot(a, b, (n - 1) as nat) + ieee::value(a[n - 1]) * ieee::value(b[n - 1])
    }
}

/// The squared distance of the first `n` entries of two rows.
pub open spec fn whole_gaps(a: Seq<u32>, b: Seq<u32>, n: nat) -> int
    decreases n,
{
    if n == 0 {
        0
    } else {
        let gap = ieee::value(a[n - 1]) - ieee::value(b[n - 1]);
        whole_gaps(a, b, (n - 1) as nat) + gap * gap
    }
}

/// A number that is not negative: zero in place of a negative one.
pub open spec fn not_below_zero(x: int) -> int {
    if x < 0 {
        0
    } else {
        x
    }
}

/// How large the limit is.
pub(crate) proof fn lemma_limit()
    ensures
        0x1000_0000_0000_0000 * ieee::one() < ieee::limit(),
        0x1_0000_0000_0000 < ieee::one(),
{
    ieee::lemma_one();
    ieee::lemma_bounds(0);
    vstd::arithmetic::power2::lemma2_to64_rest();
    vstd::arithmetic::power2::lemma_pow2_adds(60, 149);
    vstd::arithmetic::power2::lemma_pow2_strictly_increases(209, 252);
}

pub(crate) proof fn lemma_slack(top: int)
    requires
        0 <= top,
    ensures
        top + FRACTION < parts() * slack_for(top),
        parts() * slack_for(top) <= top + 2 * parts(),
        0 < slack_for(top),
{
    vstd::arithmetic::div_mod::lemma_fundamental_div_mod(top, parts());
}

/// A sum.
pub(crate) proof fn lemma_add(m: Calc, x: u32, y: u32, top: int)
    requires
        ieee::is_ieee(m),
        floatbits::is_finite(x),
        floatbits::is_finite(y),
        near(ieee::value(x) + ieee::value(y), 0, top),
        top < ieee::limit(),
    ensures
        floatbits::is_finite(m(Op::Add, x, y)),
        near(ieee::value(m(Op::Add, x, y)), ieee::value(x) + ieee::value(y), slack_for(top)),
        parts() * ieee::size(ieee::value(m(Op::Add, x, y)) - (ieee::value(x) + ieee::value(y)))
            <= ieee::size(
            ieee::value(x) + ieee::value(y),
        ),
{
    let r = m(Op::Add, x, y);
    assert(ieee::adds(x, y, r));
    lemma_slack(top);
    ieee::lemma_off(r, ieee::value(x) + ieee::value(y), 1);
}

/// A difference.
pub(crate) proof fn lemma_sub(m: Calc, x: u32, y: u32, top: int)
    requires
        ieee::is_ieee(m),
        floatbits::is_finite(x),
        floatbits::is_finite(y),
        near(ieee::value(x) - ieee::value(y), 0, top),
        top < ieee::limit(),
    ensures
        floatbits::is_finite(m(Op::Sub, x, y)),
        near(ieee::value(m(Op::Sub, x, y)), ieee::value(x) - ieee::value(y), slack_for(top)),
        parts() * ieee::size(ieee::value(m(Op::Sub, x, y)) - (ieee::value(x) - ieee::value(y)))
            <= ieee::size(
            ieee::value(x) - ieee::value(y),
        ),
{
    let r = m(Op::Sub, x, y);
    ieee::lemma_opposite(y);
    assert(ieee::adds(x, floatbits::opposite(y), r));
    lemma_slack(top);
    ieee::lemma_off(r, ieee::value(x) - ieee::value(y), 1);
}

/// A product.
pub(crate) proof fn lemma_mul(m: Calc, x: u32, y: u32, top: int)
    requires
        ieee::is_ieee(m),
        floatbits::is_finite(x),
        floatbits::is_finite(y),
        near(ieee::value(x) * ieee::value(y), 0, top * ieee::one()),
        0 <= top < ieee::limit(),
    ensures
        floatbits::is_finite(m(Op::Mul, x, y)),
        near(ieee::one() * ieee::value(m(Op::Mul, x, y)), ieee::value(x) * ieee::value(y),
            slack_for(top) * ieee::one()),
        near(ieee::value(m(Op::Mul, x, y)), 0, top + slack_for(top)),
        parts() * ieee::size(ieee::one() * ieee::value(m(Op::Mul, x, y))
            - ieee::value(x) * ieee::value(y)) <= ieee::size(
            ieee::value(x) * ieee::value(y),
        ) + FRACTION * ieee::one(),
{
    let r = m(Op::Mul, x, y);
    ieee::lemma_one();
    let o = ieee::one();
    let (limit, slack, f) = (ieee::limit(), slack_for(top), FRACTION as int);
    lemma_slack(top);
    assert(top * o < limit * o) by (nonlinear_arith)
        requires
            top < limit,
            0 < o,
    ;
    assert(ieee::multiplies(x, y, r));
    let p = ieee::value(x) * ieee::value(y);
    ieee::lemma_off(r, p, o);
    let v = ieee::value(r);
    let off = ieee::miss(r, p, o);
    assert(v * o == o * v) by (nonlinear_arith);
    assert(off <= slack * o) by (nonlinear_arith)
        requires
            2 * f * off <= ieee::size(p) + f * o,
            ieee::size(p) <= top * o,
            top + f < 2 * f * slack,
            0 < o,
            0 < f,
    ;
    assert(-(top + slack) <= v <= top + slack) by (nonlinear_arith)
        requires
            -(slack * o) <= o * v - p <= slack * o,
            -(top * o) <= p <= top * o,
            0 < o,
    ;
}

/// A quotient by a positive number.
pub(crate) proof fn lemma_div(m: Calc, x: u32, y: u32, top: int)
    requires
        ieee::is_ieee(m),
        floatbits::is_finite(x),
        floatbits::is_finite(y),
        0 < ieee::value(y),
        near(ieee::one() * ieee::value(x), 0, top * ieee::value(y)),
        0 <= top < ieee::limit(),
    ensures
        floatbits::is_finite(m(Op::Div, x, y)),
        near(
            ieee::value(m(Op::Div, x, y)) * ieee::value(y),
            ieee::one() * ieee::value(x),
            slack_for(top) * ieee::value(y),
        ),
        near(ieee::value(m(Op::Div, x, y)), 0, top + slack_for(top)),
        parts() * ieee::size(ieee::value(m(Op::Div, x, y)) * ieee::value(y)
            - ieee::one() * ieee::value(x)) <= ieee::size(
            ieee::one() * ieee::value(x),
        ) + FRACTION * ieee::value(y),
{
    let r = m(Op::Div, x, y);
    let (den, num) = (ieee::value(y), ieee::one() * ieee::value(x));
    let (limit, slack, f) = (ieee::limit(), slack_for(top), FRACTION as int);
    lemma_slack(top);
    assert(ieee::value(x) * ieee::one() * 1 == num) by (nonlinear_arith)
        requires
            num == ieee::one() * ieee::value(x),
    ;
    assert(top * den < limit * den) by (nonlinear_arith)
        requires
            top < limit,
            0 < den,
    ;
    assert(ieee::divides(x, y, r));
    ieee::lemma_off(r, num, den);
    let v = ieee::value(r);
    let off = ieee::miss(r, num, den);
    assert(off <= slack * den) by (nonlinear_arith)
        requires
            2 * f * off <= ieee::size(num) + f * den,
            ieee::size(num) <= top * den,
            top + f < 2 * f * slack,
            0 < den,
            0 < f,
    ;
    assert(-(top + slack) <= v <= top + slack) by (nonlinear_arith)
        requires
            -(slack * den) <= v * den - num <= slack * den,
            -(top * den) <= num <= top * den,
            0 < den,
    ;
}

/// The product of two bounded numbers.
pub(crate) proof fn lemma_bounded_product(x: int, y: int, a: int, b: int)
    requires
        near(x, 0, a),
        near(y, 0, b),
    ensures
        near(x * y, 0, a * b),
{
    assert(-(a * b) <= x * y <= a * b) by (nonlinear_arith)
        requires
            -a <= x <= a,
            -b <= y <= b,
    ;
}

/// A sum of a first number and further ones up to `bound`.
pub(crate) proof fn lemma_total_near(
    m: Calc,
    from: u32,
    start: int,
    terms: Seq<u32>,
    bound: int,
    top: int,
)
    requires
        ieee::is_ieee(m),
        floatbits::is_finite(from),
        near(ieee::value(from), 0, start),
        small(bound, terms),
        0 <= bound,
        0 <= start,
        0 <= top < ieee::limit(),
        start + terms.len() * (bound + slack_for(top)) <= top,
    ensures
        floatbits::is_finite(arith::total(m, from, terms)),
        near(
            ieee::value(arith::total(m, from, terms)),
            ieee::value(from) + whole_sum(terms, terms.len()),
            terms.len() * slack_for(top),
        ),
        near(
            ieee::value(arith::total(m, from, terms)),
            0,
            start + terms.len() * (bound + slack_for(top)),
        ),
    decreases terms.len(),
{
    let n = terms.len() as int;
    let slack = slack_for(top);
    if n > 0 {
        let before = terms.drop_last();
        lemma_slack(top);
        assert((n - 1) * (bound + slack) + (bound + slack) == n * (bound + slack) && (n - 1) * slack
            + slack == n * slack && 0 <= (n - 1) * (bound + slack)) by (nonlinear_arith)
            requires
                0 <= bound,
                0 < slack,
                1 <= n,
        ;
        assert forall|i: int| 0 <= i < before.len() implies floatbits::is_finite(
            #[trigger] before[i],
        ) && near(ieee::value(before[i]), 0, bound) by {
            assert(before[i] == terms[i]);
        }
        lemma_total_near(m, from, start, before, bound, top);
        lemma_whole_sum_prefix(terms, before, (n - 1) as nat);
        assert(near(ieee::value(terms[n - 1]), 0, bound));
        lemma_add(m, arith::total(m, from, before), terms[n - 1], top);
    } else {
        assert(n * slack == 0 && n * (bound + slack) == 0) by (nonlinear_arith)
            requires
                n == 0,
        ;
    }
}

pub(crate) proof fn lemma_whole_sum_prefix(a: Seq<u32>, b: Seq<u32>, n: nat)
    requires
        n <= a.len(),
        n <= b.len(),
        forall|i: int| 0 <= i < n ==> #[trigger] a[i] == b[i],
    ensures
        whole_sum(a, n) == whole_sum(b, n),
    decreases n,
{
    if n > 0 {
        lemma_whole_sum_prefix(a, b, (n - 1) as nat);
    }
}

/// The products of two bounded rows.
pub(crate) proof fn lemma_products(
    m: Calc,
    a: Seq<u32>,
    b: Seq<u32>,
    bound: int,
    top: int,
    n: nat,
)
    requires
        ieee::is_ieee(m),
        n <= a.len(),
        n <= b.len(),
        small(bound, a),
        small(bound, b),
        bound * bound <= top * ieee::one(),
        0 <= top < ieee::limit(),
    ensures
        near(
            ieee::one() * whole_sum(metric::products(m, a, b), n),
            whole_dot(a, b, n),
            n * (slack_for(top) * ieee::one()),
        ),
        forall|i: int|
            0 <= i < n ==> floatbits::is_finite(#[trigger] metric::products(m, a, b)[i]) && near(
                ieee::value(metric::products(m, a, b)[i]),
                0,
                top + slack_for(top),
            ),
    decreases n,
{
    if n > 0 {
        lemma_products(m, a, b, bound, top, (n - 1) as nat);
        assert(near(ieee::value(a[n - 1]), 0, bound) && near(ieee::value(b[n - 1]), 0, bound));
        lemma_bounded_product(ieee::value(a[n - 1]), ieee::value(b[n - 1]), bound, bound);
        lemma_mul(m, a[n - 1], b[n - 1], top);
        let before = whole_sum(metric::products(m, a, b), (n - 1) as nat);
        let last = ieee::value(metric::products(m, a, b)[n - 1]);
        let (e, o) = (slack_for(top) * ieee::one(), ieee::one());
        assert(o * (before + last) == o * before + o * last) by (nonlinear_arith);
        assert((n - 1) * e + e == n * e) by (nonlinear_arith);
    }
}

/// An inner product of bounded rows: `top` bounds the products, `high` their sum.
pub(crate) proof fn lemma_dot_near(
    m: Calc,
    a: Seq<u32>,
    b: Seq<u32>,
    bound: int,
    top: int,
    high: int,
)
    requires
        ieee::is_ieee(m),
        a.len() == b.len(),
        small(bound, a),
        small(bound, b),
        bound * bound <= top * ieee::one(),
        0 <= top < ieee::limit(),
        0 <= high < ieee::limit(),
        a.len() * (top + slack_for(top) + slack_for(high)) <= high,
    ensures
        ({
            let dot = arith::total(m, 0, metric::products(m, a, b));
            &&& floatbits::is_finite(dot)
            &&& near(
                ieee::one() * ieee::value(dot),
                whole_dot(a, b, a.len()),
                a.len() * (slack_for(top) * ieee::one())
                    + a.len() * (slack_for(high) * ieee::one()),
            )
            &&& near(ieee::value(dot), 0, high)
        }),
{
    let n = a.len() as int;
    let terms = metric::products(m, a, b);
    ieee::lemma_one();
    lemma_slack(top);
    lemma_slack(high);
    lemma_products(m, a, b, bound, top, a.len());
    lemma_total_near(m, 0, 0, terms, top + slack_for(top), high);
    let (t, s) = (ieee::value(arith::total(m, 0, terms)), whole_sum(terms, a.len()));
    let (o, e) = (ieee::one(), slack_for(high));
    assert(-(n * (e * o)) <= o * t - o * s <= n * (e * o)) by (nonlinear_arith)
        requires
            -(n * e) <= t - s <= n * e,
            0 < o,
    ;
}

// ---------------------------------------------------------------------------
// The factor
// ---------------------------------------------------------------------------

/// The root of a whole number, rounded down.
pub(crate) proof fn lemma_root(v: nat) -> (r: nat)
    ensures
        r * r <= v < (r + 1) * (r + 1),
    decreases v,
{
    if v == 0 {
        assert(0 * 0 == 0nat && (0 + 1) * (0 + 1) == 1nat) by (nonlinear_arith);
        0
    } else {
        let r = lemma_root((v - 1) as nat);
        let next = r + 1;
        assert((next + 1) * (next + 1) > next * next + 1) by (nonlinear_arith)
            requires
                next >= 1,
        ;
        if next * next <= v {
            next
        } else {
            r
        }
    }
}

/// A rounded root is off by no more than a step of its last place.
pub(crate) proof fn lemma_root_near(r: u32, square: int)
    requires
        ieee::nearest_root(r, square),
        FRACTION * FRACTION <= square <= 0x100_0000_0000_0000_0000_0000_0000_0000 * (
        ieee::one() * ieee::one()),
    ensures
        (FRACTION as int) * ieee::size(ieee::value(r) * ieee::value(r) - square) <= 3 * square,
{
    let f = FRACTION as int;
    let o = ieee::one();
    ieee::lemma_one();
    let q = lemma_root(square as nat) as int;
    assert(f <= q <= 0x1000_0000_0000_0000 * o) by (nonlinear_arith)
        requires
            q * q <= square < (q + 1) * (q + 1),
            f * f <= square <= 0x100_0000_0000_0000_0000_0000_0000_0000 * (o * o),
            0 < o,
            0 < f,
            0 <= q,
    ;
    let (k, digits) = ieee::lemma_below(q as nat);
    let p = pow2(k) as int;
    let (low, high) = (digits * p, (digits + 1) * p);
    vstd::arithmetic::power2::lemma_pow2_pos(k);
    if k >= 212 {
        vstd::arithmetic::power2::lemma_pow2_adds(63, 149);
        vstd::arithmetic::power2::lemma2_to64_rest();
        if k > 212 {
            vstd::arithmetic::power2::lemma_pow2_strictly_increases(212, k);
        }
        assert(0x8000_0000_0000_0000 * o <= digits * p) by (nonlinear_arith)
            requires
                0x8000_0000_0000_0000 * o <= p,
                1 <= digits,
                0 < p,
        ;
    }
    if k == 0 {
        vstd::arithmetic::power2::lemma2_to64();
        assert(digits * 1 == digits) by (nonlinear_arith);
    }
    assert(high == low + p) by (nonlinear_arith)
        requires
            low == digits * p,
            high == (digits + 1) * p,
    ;
    let x = ieee::lemma_has_pattern(digits, k);
    let y = if digits + 1 < 2 * f {
        ieee::lemma_has_pattern(digits + 1, k)
    } else {
        vstd::arithmetic::power2::lemma_pow2_unfold(k + 1);
        assert(f * (2 * p) == (2 * f) * p) by (nonlinear_arith);
        ieee::lemma_has_pattern(f, k + 1)
    };
    assert(ieee::value(x) == low && ieee::value(y) == high);
    let v = ieee::value(r);
    assert(low <= v) by {
        if v < low {
            assert(4 * square <= (low + v) * (low + v));
            assert(false) by (nonlinear_arith)
                requires
                    4 * square <= (low + v) * (low + v),
                    0 <= v < low <= q,
                    q * q <= square,
            ;
        }
    }
    assert(v <= high) by {
        if high < v {
            assert((high + v) * (high + v) <= 4 * square);
            assert(false) by (nonlinear_arith)
                requires
                    (high + v) * (high + v) <= 4 * square,
                    q + 1 <= high < v,
                    square < (q + 1) * (q + 1),
                    0 <= q,
            ;
        }
    }
    assert(f <= digits && f * p <= low) by (nonlinear_arith)
        requires
            k > 0 ==> f <= digits,
            k == 0 ==> digits == q,
            f <= q,
            low == digits * p,
            0 < p,
    ;
    let gap = high * high - low * low;
    assert(-gap <= v * v - square <= gap) by (nonlinear_arith)
        requires
            gap == high * high - low * low,
            0 <= low <= v <= high,
            low <= q,
            q + 1 <= high,
            q * q <= square < (q + 1) * (q + 1),
            0 <= q,
    ;
    assert(f * gap <= 3 * (low * low) && low * low <= square && high <= 2 * low)
        by (nonlinear_arith)
        requires
            gap == high * high - low * low,
            high == low + p,
            f * p <= low,
            0 < p,
            0x80_0000 <= f,
            0 <= low <= q,
            q * q <= square,
    ;
    assert(f * ieee::size(v * v - square) <= f * gap) by (nonlinear_arith)
        requires
            ieee::size(v * v - square) <= gap,
            0 < f,
    ;
}

} // verus!
