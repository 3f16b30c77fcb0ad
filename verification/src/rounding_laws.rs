//! How far the transform can be off, in IEEE arithmetic.

use vstd::arithmetic::power2::{is_pow2, pow2};
use vstd::prelude::*;

use crate::arith::{Calc, Op};
use crate::floatbits;
use crate::floatbits::{ONE_BITS, TWO_BITS};
use crate::ieee;
use crate::ieee::FRACTION;
use crate::rotation;
use crate::rotation_laws;
use crate::rounding;

verus! {

// ---------------------------------------------------------------------------
// The transform on whole numbers
// ---------------------------------------------------------------------------

/// One pass of the transform on whole numbers.
spec fn whole_pass(v: Seq<int>, h: int) -> Seq<int> {
    Seq::new(
        v.len(),
        |k: int|
            if k % (2 * h) < h {
                v[k] + v[k + h]
            } else {
                v[k - h] - v[k]
            },
    )
}

/// The passes of the transform on whole numbers from half-width `h` on.
spec fn whole_passes(v: Seq<int>, h: int) -> Seq<int>
    decreases if h < v.len() { v.len() - h } else { 0 },
{
    if 1 <= h < v.len() {
        whole_passes(whole_pass(v, h), 2 * h)
    } else {
        v
    }
}

/// Each number multiplied by a factor.
spec fn times_each(v: Seq<int>, factor: int) -> Seq<int> {
    v.map_values(|x: int| factor * x)
}

/// Whether the numbers at each place are no farther apart than `slack`.
spec fn all_near(v: Seq<int>, w: Seq<int>, slack: int) -> bool {
    v.len() == w.len() && forall|k: int|
        0 <= k < v.len() ==> rounding::near(#[trigger] v[k], w[k], slack)
}

proof fn lemma_whole_commute(v: Seq<int>, h: int, g: int, c: int)
    requires
        1 <= c,
        g == c * (2 * h),
        rotation_laws::fits(v.len() as int, h),
        rotation_laws::fits(v.len() as int, g),
    ensures
        whole_pass(whole_pass(v, h), g) == whole_pass(whole_pass(v, g), h),
{
    let n = v.len() as int;
    let narrow_first = whole_pass(whole_pass(v, h), g);
    let wide_first = whole_pass(whole_pass(v, g), h);
    assert forall|k: int| 0 <= k < n implies #[trigger] narrow_first[k] == wide_first[k] by {
        rotation_laws::lemma_partner(n, h, k);
        rotation_laws::lemma_partner(n, g, k);
        rotation_laws::lemma_step_in_wider(h, g, c, k);
        let kh = if k % (2 * h) < h {
            k + h
        } else {
            k - h
        };
        let kg = if k % (2 * g) < g {
            k + g
        } else {
            k - g
        };
        rotation_laws::lemma_partner(n, h, kg);
        rotation_laws::lemma_partner(n, g, kh);
        rotation_laws::lemma_step_in_wider(h, g, c, kg);
        rotation_laws::lemma_step_in_wider(h, g, c, kh);
    }
    assert(narrow_first =~= wide_first);
}

proof fn lemma_whole_pass_and_wider(v: Seq<int>, h: int, g: int, c: int, r: int)
    requires
        1 <= c,
        g == c * (2 * h),
        rotation_laws::fits(v.len() as int, h),
        rotation_laws::spans(v.len() as int, g, r),
    ensures
        whole_pass(whole_passes(v, g), h) == whole_passes(whole_pass(v, h), g),
    decreases r,
{
    rotation_laws::lemma_spans(v.len() as int, g, r);
    if r > 1 {
        assert(2 * g == (2 * c) * (2 * h)) by (nonlinear_arith)
            requires
                g == c * (2 * h),
        ;
        lemma_whole_pass_and_wider(whole_pass(v, g), h, 2 * g, 2 * c, r / 2);
        lemma_whole_commute(v, h, g, c);
    }
}

proof fn lemma_whole_len(v: Seq<int>, h: int)
    ensures
        whole_passes(v, h).len() == v.len(),
    decreases if h < v.len() { v.len() - h } else { 0 },
{
    if 1 <= h < v.len() {
        lemma_whole_len(whole_pass(v, h), 2 * h);
    }
}

/// The passes made twice multiply every number by as many as they combine.
proof fn lemma_whole_twice(v: Seq<int>, h: int, r: int)
    requires
        rotation_laws::spans(v.len() as int, h, r),
    ensures
        whole_passes(whole_passes(v, h), h) == times_each(v, r),
    decreases r,
{
    let n = v.len() as int;
    rotation_laws::lemma_spans(n, h, r);
    if r > 1 {
        let q = r / 2;
        let once = whole_pass(v, h);
        let twice = whole_pass(once, h);
        lemma_whole_len(once, 2 * h);
        assert(2 * h == 1 * (2 * h));
        lemma_whole_pass_and_wider(once, h, 2 * h, 1, q);
        assert forall|k: int| 0 <= k < n implies #[trigger] twice[k] == 2 * v[k] by {
            rotation_laws::lemma_partner(n, h, k);
        }
        lemma_whole_twice(twice, 2 * h, q);
        assert forall|k: int| 0 <= k < n implies #[trigger] times_each(twice, q)[k] == r
            * v[k] by {
            assert(q * (2 * v[k]) == r * v[k]) by (nonlinear_arith)
                requires
                    r == 2 * q,
            ;
        }
        assert(times_each(twice, q) =~= times_each(v, r));
    } else {
        assert(times_each(v, 1) =~= v);
    }
}

/// The passes on multiplied numbers multiply what the passes give.
proof fn lemma_whole_times(v: Seq<int>, h: int, r: int, factor: int)
    requires
        rotation_laws::spans(v.len() as int, h, r),
    ensures
        whole_passes(times_each(v, factor), h) == times_each(whole_passes(v, h), factor),
    decreases r,
{
    let n = v.len() as int;
    rotation_laws::lemma_spans(n, h, r);
    if r > 1 {
        let w = times_each(v, factor);
        assert forall|k: int| 0 <= k < n implies #[trigger] whole_pass(w, h)[k] == factor
            * whole_pass(v, h)[k] by {
            rotation_laws::lemma_partner(n, h, k);
            if k % (2 * h) < h {
                assert(factor * (v[k] + v[k + h]) == factor * v[k] + factor * v[k + h])
                    by (nonlinear_arith);
            } else {
                assert(factor * (v[k - h] - v[k]) == factor * v[k - h] - factor * v[k])
                    by (nonlinear_arith);
            }
        }
        assert(whole_pass(w, h) =~= times_each(whole_pass(v, h), factor));
        lemma_whole_times(whole_pass(v, h), 2 * h, r / 2, factor);
    }
}

/// Numbers that lie near each other stay so, as many times farther as the passes combine.
proof fn lemma_whole_near(v: Seq<int>, w: Seq<int>, h: int, r: int, slack: int)
    requires
        rotation_laws::spans(v.len() as int, h, r),
        all_near(v, w, slack),
    ensures
        all_near(whole_passes(v, h), whole_passes(w, h), r * slack),
    decreases r,
{
    let n = v.len() as int;
    rotation_laws::lemma_spans(n, h, r);
    if r > 1 {
        let q = r / 2;
        assert forall|k: int| 0 <= k < n implies rounding::near(
            #[trigger] whole_pass(v, h)[k],
            whole_pass(w, h)[k],
            2 * slack,
        ) by {
            rotation_laws::lemma_partner(n, h, k);
            assert(rounding::near(v[k], w[k], slack));
            if k % (2 * h) < h {
                assert(rounding::near(v[k + h], w[k + h], slack));
            } else {
                assert(rounding::near(v[k - h], w[k - h], slack));
            }
        }
        lemma_whole_near(whole_pass(v, h), whole_pass(w, h), 2 * h, q, 2 * slack);
        assert(q * (2 * slack) == r * slack) by (nonlinear_arith)
            requires
                r == 2 * q,
        ;
    }
}

// ---------------------------------------------------------------------------
// The transform
// ---------------------------------------------------------------------------

/// What the entries of a row stand for.
spec fn readings(a: Seq<u32>) -> Seq<int> {
    a.map_values(|x: u32| ieee::value(x))
}

/// A bound of entries after the passes that combine `r` of them.
pub open spec fn pass_bound(bound: int, r: int) -> int
    decreases r,
{
    if r <= 1 {
        bound
    } else {
        pass_bound(2 * bound + rounding::slack_for(2 * bound), r / 2)
    }
}

/// How far entries can be off after the passes that combine `r` of them.
pub open spec fn pass_off(off: int, bound: int, r: int) -> int
    decreases r,
{
    if r <= 1 {
        off
    } else {
        pass_off(
            2 * off + rounding::slack_for(2 * bound),
            2 * bound + rounding::slack_for(2 * bound),
            r / 2,
        )
    }
}

proof fn lemma_pass_bound(bound: int, r: int)
    requires
        0 <= bound,
    ensures
        bound <= pass_bound(bound, r),
        1 < r ==> 2 * bound <= pass_bound(bound, r),
    decreases r,
{
    if r > 1 {
        rounding::lemma_slack(2 * bound);
        lemma_pass_bound(2 * bound + rounding::slack_for(2 * bound), r / 2);
    }
}

/// The bound grows by no more than the square of what is combined.
proof fn lemma_pass_bound_below(bound: int, r: int)
    requires
        2 <= bound,
        1 <= r,
    ensures
        pass_bound(bound, r) <= r * r * bound,
    decreases r,
{
    if r > 1 {
        let (next, q) = (2 * bound + rounding::slack_for(2 * bound), r / 2);
        rounding::lemma_slack(2 * bound);
        lemma_pass_bound_below(next, q);
        assert(q * q * next <= r * r * bound) by (nonlinear_arith)
            requires
                next <= 4 * bound,
                2 * q <= r,
                1 <= q,
                0 <= bound,
        ;
    } else {
        assert(r * r * bound == bound) by (nonlinear_arith)
            requires
                r == 1,
        ;
    }
}

/// Rounded passes stay near the passes on whole numbers, and are bounded.
proof fn lemma_passes_near(m: Calc, a: Seq<u32>, v: Seq<int>, h: int, r: int, bound: int, off: int)
    requires
        ieee::is_ieee(m),
        rotation_laws::spans(a.len() as int, h, r),
        all_near(readings(a), v, off),
        rounding::small(bound, a),
        0 <= bound,
        pass_bound(bound, r) < ieee::limit(),
    ensures
        all_near(
            readings(rotation::passes(m, a, h)),
            whole_passes(v, h),
            pass_off(off, bound, r),
        ),
        rounding::small(pass_bound(bound, r), rotation::passes(m, a, h)),
        rotation::passes(m, a, h).len() == a.len(),
    decreases r,
{
    let n = a.len() as int;
    rotation_laws::lemma_spans(n, h, r);
    rotation::lemma_passes_len(m, a, h);
    if r > 1 {
        let q = r / 2;
        let b = rotation::butterfly(m, a, h);
        let w = whole_pass(v, h);
        let slack = rounding::slack_for(2 * bound);
        lemma_pass_bound(bound, r);
        rounding::lemma_slack(2 * bound);
        assert forall|k: int| 0 <= k < n implies rounding::near(
            #[trigger] readings(b)[k],
            w[k],
            2 * off + slack,
        ) && floatbits::is_finite(b[k])
            && rounding::near(ieee::value(b[k]), 0, 2 * bound + slack) by {
            rotation_laws::lemma_partner(n, h, k);
            let p = if k % (2 * h) < h {
                k + h
            } else {
                k - h
            };
            assert(rounding::near(ieee::value(a[k]), 0, bound)
                && rounding::near(ieee::value(a[p]), 0, bound));
            assert(rounding::near(readings(a)[k], v[k], off));
            assert(rounding::near(readings(a)[p], v[p], off));
            if k % (2 * h) < h {
                rounding::lemma_add(m, a[k], a[p], 2 * bound);
            } else {
                rounding::lemma_sub(m, a[p], a[k], 2 * bound);
            }
        }
        assert forall|k: int| 0 <= k < n implies floatbits::is_finite(#[trigger] b[k])
            && rounding::near(
            ieee::value(b[k]),
            0,
            2 * bound + slack,
        ) by {
            assert(rounding::near(readings(b)[k], w[k], 2 * off + slack));
        }
        lemma_passes_near(m, b, w, 2 * h, q, 2 * bound + slack, 2 * off + slack);
    }
}

/// The root of a number between one and eight thousand.
proof fn lemma_moderate_root(r: u32, square: int)
    requires
        ieee::nearest_root(r, square),
        ieee::one() * ieee::one() <= square <= 8192 * (ieee::one() * ieee::one()),
    ensures
        (FRACTION as int) * ieee::size(ieee::value(r) * ieee::value(r) - square) <= 3 * square,
        ieee::one() <= ieee::value(r) <= 100 * ieee::one(),
{
    let o = ieee::one();
    let v = ieee::value(r);
    ieee::lemma_one();
    assert(FRACTION * FRACTION <= o * o && 8192 * (o * o)
        <= 0x100_0000_0000_0000_0000_0000_0000_0000 * (o * o))
        by (nonlinear_arith)
        requires
            FRACTION <= o,
            0 < FRACTION,
    ;
    rounding::lemma_root_near(r, square);
    assert(o <= v) by {
        if v < o {
            let one_pattern = ONE_BITS;
            assert(ieee::value(one_pattern) == o);
            assert(4 * square <= (o + v) * (o + v));
            assert(false) by (nonlinear_arith)
                requires
                    4 * square <= (o + v) * (o + v),
                    0 <= v < o,
                    o * o <= square,
            ;
        }
    }
    assert(8 * (v * v) <= 9 * square);
    assert(v <= 100 * o) by (nonlinear_arith)
        requires
            v * v <= 9216 * (o * o),
            0 <= v,
            0 < o,
    ;
}

/// The factor of the transform is near the root of one divided by the number of entries.
pub(crate) proof fn lemma_factor(m: Calc, n: nat)
    requires
        ieee::is_ieee(m),
        1 <= n <= 8192,
    ensures
        ({
            let f = rotation::shrink(m, n);
            let s = ieee::value(f);
            &&& floatbits::is_finite(f)
            &&& 0 <= s <= ieee::one()
            &&& (FRACTION as int) * ieee::size(n * s * s - ieee::one() * ieee::one())
                <= 12 * (ieee::one() * ieee::one())
            &&& n == 4 ==> 2 * s == ieee::one()
        }),
{
    let o = ieee::one();
    let f = FRACTION as int;
    ieee::lemma_one();
    let whole = m(Op::Int, n as u32, 0);
    let x = ieee::lemma_has_pattern(n as int, 149);
    assert(ieee::miss(whole, n * o, 1) <= ieee::miss(x, n * o, 1));
    assert(ieee::value(whole) == n * o);
    let root = m(Op::Sqrt, whole, 0);
    let square = n * o * o;
    assert(o * o <= square <= 8192 * (o * o) && square == n * (o * o)) by (nonlinear_arith)
        requires
            square == n * o * o,
            1 <= n <= 8192,
            0 < o,
    ;
    lemma_moderate_root(root, square);
    let r = ieee::value(root);
    let factor = m(Op::Div, ONE_BITS, root);
    let s = ieee::value(factor);
    assert(-(o * r) <= o * o <= o * r) by (nonlinear_arith)
        requires
            0 < o <= r,
    ;
    ieee::lemma_bounds(0);
    rounding::lemma_div(m, ONE_BITS, root, o);
    assert(ieee::divides(ONE_BITS, root, factor));
    assert(o * o * 1 == o * o) by (nonlinear_arith);
    let limit = ieee::limit();
    assert(o * o < limit * r) by (nonlinear_arith)
        requires
            0 < o <= r,
            o < limit,
    ;
    ieee::lemma_exact(ONE_BITS, 1);
    assert(o * 1 == o);
    assert(o * o * 1 <= o * r) by (nonlinear_arith)
        requires
            0 < o <= r,
    ;
    ieee::lemma_keeps_order(factor, o * o, r, ONE_BITS, o, 1);
    ieee::lemma_value_order(factor, 0);
    // How far the square of the factor is off.
    let d1 = s * r - o * o;
    let d2 = r * r - square;
    let oo = o * o;
    assert(f * r <= oo) by (nonlinear_arith)
        requires
            r <= 100 * o,
            0x1_0000_0000_0000 < o,
            f == 0x80_0000,
            oo == o * o,
    ;
    assert(0 < oo) by (nonlinear_arith)
        requires
            oo == o * o,
            0 < o,
    ;
    assert(f * ieee::size(d1) <= oo) by (nonlinear_arith)
        requires
            rounding::parts() * ieee::size(d1) <= ieee::size(oo) + f * r,
            rounding::parts() == 2 * f,
            ieee::size(oo) == oo,
            f * r <= oo,
    ;
    let e = n * s * s - oo;
    let (sr, rs) = (s * r, r * r);
    assert((n * s * s - oo) * rs == n * (sr * sr) - oo * rs) by (nonlinear_arith)
        requires
            sr == s * r,
            rs == r * r,
    ;
    assert(sr * sr == oo * oo + (2 * oo * d1 + d1 * d1)) by (nonlinear_arith)
        requires
            sr == oo + d1,
    ;
    assert(oo * rs == n * (oo * oo) + oo * d2) by (nonlinear_arith)
        requires
            rs == n * oo + d2,
    ;
    let rest = 2 * oo * d1 + d1 * d1;
    assert(n * (oo * oo + rest) == n * (oo * oo) + n * rest) by (nonlinear_arith);
    assert(e * (r * r) == n * (2 * oo * d1 + d1 * d1) - oo * d2);
    let (a, b) = (2 * oo * d1 + d1 * d1, oo * d2);
    assert(f * ieee::size(a) <= 3 * (oo * oo)) by (nonlinear_arith)
        requires
            a == 2 * oo * d1 + d1 * d1,
            f * ieee::size(d1) <= oo,
            ieee::size(d1) == d1 || ieee::size(d1) == -d1,
            0 <= ieee::size(d1),
            ieee::size(a) == a || ieee::size(a) == -a,
            1 <= f,
            0 < oo,
    ;
    assert(f * ieee::size(b) <= 3 * (n * (oo * oo))) by (nonlinear_arith)
        requires
            b == oo * d2,
            f * ieee::size(d2) <= 3 * (n * oo),
            ieee::size(d2) == d2 || ieee::size(d2) == -d2,
            ieee::size(b) == b || ieee::size(b) == -b,
            0 < oo,
            0 <= ieee::size(d2),
    ;
    let rr = r * r;
    assert(n * oo <= 2 * rr) by (nonlinear_arith)
        requires
            d2 == rr - n * oo,
            f * ieee::size(d2) <= 3 * (n * oo),
            ieee::size(d2) >= -d2,
            6 <= f,
            0 <= n * oo,
    ;
    lemma_factor_last(f, e, rr, n as int, oo, a, b);
    if n == 4 {
        lemma_factor_of_four(m, factor, root);
    }
}

proof fn lemma_factor_last(f: int, e: int, rr: int, n: int, oo: int, a: int, b: int)
    requires
        e * rr == n * a - b,
        f * ieee::size(a) <= 3 * (oo * oo),
        f * ieee::size(b) <= 3 * (n * (oo * oo)),
        n * oo <= 2 * rr,
        0 < oo,
        1 <= n,
        0 < f,
    ensures
        f * ieee::size(e) <= 12 * oo,
{
    let t = oo * oo;
    assert(-(n * ieee::size(a)) <= n * a <= n * ieee::size(a) && 0 < n * oo) by (nonlinear_arith)
        requires
            -ieee::size(a) <= a <= ieee::size(a),
            1 <= n,
            0 < oo,
    ;
    assert(f * ieee::size(n * a - b) <= 6 * (n * t)) by (nonlinear_arith)
        requires
            f * ieee::size(a) <= 3 * t,
            f * ieee::size(b) <= 3 * (n * t),
            ieee::size(n * a - b) <= n * ieee::size(a) + ieee::size(b),
            1 <= n,
            0 < f,
    ;
    assert(ieee::size(n * a - b) == ieee::size(e) * rr) by (nonlinear_arith)
        requires
            e * rr == n * a - b,
            0 < rr,
            ieee::size(n * a - b) == if n * a - b < 0 {
                -(n * a - b)
            } else {
                n * a - b
            },
            ieee::size(e) == if e < 0 {
                -e
            } else {
                e
            },
    ;
    assert(f * ieee::size(e) <= 12 * oo) by (nonlinear_arith)
        requires
            f * (ieee::size(e) * rr) <= 6 * (n * (oo * oo)),
            n * oo <= 2 * rr,
            0 < oo,
            1 <= n,
            0 < f,
            0 <= ieee::size(e),
    ;
}

/// The factor of four entries is one half.
proof fn lemma_factor_of_four(m: Calc, factor: u32, root: u32)
    requires
        ieee::nearest_root(root, 4 * ieee::one() * ieee::one()),
        ieee::nearest(factor, ieee::one() * ieee::one(), ieee::value(root)),
    ensures
        2 * ieee::value(factor) == ieee::one(),
{
    let o = ieee::one();
    ieee::lemma_one();
    let r = ieee::value(root);
    let two = TWO_BITS;
    assert(ieee::value(two) == 2 * o);
    if r < 2 * o {
        assert(4 * (4 * o * o) <= (2 * o + r) * (2 * o + r));
        assert(false) by (nonlinear_arith)
            requires
                4 * (4 * o * o) <= (2 * o + r) * (2 * o + r),
                0 <= r < 2 * o,
        ;
    }
    if r > 2 * o {
        assert((2 * o + r) * (2 * o + r) <= 4 * (4 * o * o));
        assert(false) by (nonlinear_arith)
            requires
                (2 * o + r) * (2 * o + r) <= 4 * (4 * o * o),
                2 * o < r,
                0 < o,
        ;
    }
    let half = ieee::lemma_has_pattern(1, 148);
    vstd::arithmetic::power2::lemma_pow2_unfold(149);
    let h = ieee::value(half);
    assert(h * (2 * o) == o * o) by (nonlinear_arith)
        requires
            2 * h == o,
    ;
    assert(ieee::miss(factor, o * o, r) <= ieee::miss(half, o * o, r));
    let s = ieee::value(factor);
    assert(2 * s == o) by (nonlinear_arith)
        requires
            s * (2 * o) == o * o,
            0 < o,
    ;
}

// ---------------------------------------------------------------------------
// The transform
// ---------------------------------------------------------------------------

/// A bound of entries times the factor `s`.
pub open spec fn shrunk_bound(bound: int, s: int) -> int {
    bound * s / ieee::one() + 1
}

/// How far the entries of a row of `n` entries up to `bound` that was transformed twice can be
/// off, in squares of the number one, where the factor of the transform is `s`: what the
/// last product adds, the second passes, the first product and the first passes.
pub open spec fn transform_slack(n: int, bound: int, s: int) -> int {
    let once = shrunk_bound(pass_bound(bound, n), s);
    let middle = once + rounding::slack_for(once);
    let twice = shrunk_bound(pass_bound(middle, n), s);
    ieee::one() * (rounding::slack_for(twice) * ieee::one())
        + ieee::one() * s * pass_off(0, middle, n) + s * (n * (rounding::slack_for(
        once,
    ) * ieee::one())) + s * s * (n * pass_off(0, bound, n))
}

/// The last steps of two transforms: `b` is the row after the first passes, `c` is `b` times
/// the factor, `d` is `c` after the second passes, and `out` is `d` times the factor.
proof fn lemma_chain(
    o: int,
    n: int,
    s: int,
    v: int,
    pb: int,
    pc: int,
    d: int,
    out: int,
    k1: int,
    k2: int,
    k3: int,
    k4: int,
)
    requires
        0 < o,
        0 <= s,
        rounding::near(pb, n * v, k1),
        rounding::near(o * pc, s * pb, k2),
        rounding::near(d, pc, k3),
        rounding::near(o * out, d * s, k4),
    ensures
        rounding::near(o * o * out, n * s * s * v, o * k4 + o * s * k3 + s * k2 + s * s * k1),
{
    let (e1, e2, e3, e4) = (pb - n * v, o * pc - s * pb, d - pc, o * out - d * s);
    assert(o * (o * out - d * s) == o * o * out - o * (d * s)) by (nonlinear_arith);
    assert(o * s * (d - pc) == o * s * d - o * s * pc) by (nonlinear_arith);
    assert(s * (o * pc - s * pb) == s * (o * pc) - s * (s * pb)) by (nonlinear_arith);
    assert(s * s * (pb - n * v) == s * s * pb - s * s * (n * v)) by (nonlinear_arith);
    assert(o * (d * s) == o * s * d) by (nonlinear_arith);
    assert(s * (o * pc) == o * s * pc) by (nonlinear_arith);
    assert(s * (s * pb) == s * s * pb) by (nonlinear_arith);
    assert(s * s * (n * v) == n * s * s * v) by (nonlinear_arith);
    assert(0 <= o * s && 0 <= s * s) by (nonlinear_arith)
        requires
            0 < o,
            0 <= s,
    ;
    rounding::lemma_bounded_product(o, e4, o, k4);
    rounding::lemma_bounded_product(o * s, e3, o * s, k3);
    rounding::lemma_bounded_product(s, e2, s, k2);
    rounding::lemma_bounded_product(s * s, e1, s * s, k1);
}

/// Multiplying an entry by the factor of the transform.
proof fn lemma_shrunk(m: Calc, x: u32, f: u32, bound: int)
    requires
        ieee::is_ieee(m),
        floatbits::is_finite(x),
        floatbits::is_finite(f),
        rounding::near(ieee::value(x), 0, bound),
        0 <= bound,
        0 <= ieee::value(f) <= ieee::one(),
        bound + 1 < ieee::limit(),
    ensures
        ({
            let top = shrunk_bound(bound, ieee::value(f));
            &&& floatbits::is_finite(m(Op::Mul, x, f))
            &&& rounding::near(ieee::one() * ieee::value(m(Op::Mul, x, f)),
                ieee::value(x) * ieee::value(f), rounding::slack_for(top) * ieee::one())
            &&& rounding::near(ieee::value(m(Op::Mul, x, f)), 0, top + rounding::slack_for(top))
            &&& 1 <= top <= bound + 1
        }),
{
    let (o, s) = (ieee::one(), ieee::value(f));
    ieee::lemma_one();
    let top = shrunk_bound(bound, s);
    rounding::lemma_bounded_product(ieee::value(x), s, bound, s);
    assert(0 <= bound * s <= bound * o) by (nonlinear_arith)
        requires
            0 <= bound,
            0 <= s <= o,
    ;
    vstd::arithmetic::div_mod::lemma_fundamental_div_mod(bound * s, o);
    let q = bound * s / o;
    assert(0 <= q <= bound && bound * s <= (q + 1) * o) by (nonlinear_arith)
        requires
            bound * s == o * q + (bound * s) % o,
            0 <= (bound * s) % o < o,
            0 <= bound * s <= bound * o,
            0 < o,
    ;
    rounding::lemma_mul(m, x, f, top);
}

/// In IEEE arithmetic, the transform made twice gives back the row up to rounding: up to what
/// rounding adds in the passes and products, and to how far the square of the factor is
/// off, which is a part of the last place. Four entries up to one half come back to within
/// a millionth.
pub proof fn transform_is_nearly_self_inverse(m: Calc, a: Seq<u32>, bound: int, i: int)
    requires
        ieee::is_ieee(m),
        is_pow2(a.len() as int),
        a.len() <= 8192,
        2 <= bound <= ieee::one(),
        rounding::small(bound, a),
        0 <= i < a.len(),
    ensures
        ({
            let n = a.len() as int;
            let s = ieee::value(rotation::shrink(m, a.len()));
            let back = rotation::transformed(m, rotation::transformed(m, a));
            let off = ieee::size(ieee::value(back[i]) - ieee::value(a[i]));
            let factor_off = ieee::size(n * s * s - ieee::one() * ieee::one());
            &&& back.len() == n
            &&& ieee::one() * ieee::one() * off
                <= transform_slack(n, bound, s) + factor_off * ieee::size(
                ieee::value(a[i]),
            )
            &&& (FRACTION as int) * factor_off <= 12 * (ieee::one() * ieee::one())
            &&& 0 <= s <= ieee::one()
            &&& n == 4 && 2 * bound <= ieee::one() ==> 1000000 * off < ieee::one()
        }),
{
    let n = a.len() as int;
    let o = ieee::one();
    let f = rotation::shrink(m, a.len());
    let s = ieee::value(f);
    rounding::lemma_limit();
    lemma_factor(m, a.len());
    let v = readings(a);
    let b = rotation::passes(m, a, 1);
    let c = rotation::transformed(m, a);
    let d = rotation::passes(m, c, 1);
    let back = rotation::transformed(m, c);
    let full = pass_bound(bound, n);
    let once = shrunk_bound(full, s);
    let (sc, off1) = (rounding::slack_for(once), pass_off(0, bound, n));
    let middle = once + sc;
    let full2 = pass_bound(middle, n);
    let (twice, off2) = (shrunk_bound(full2, s), pass_off(0, middle, n));
    lemma_pass_bound_below(bound, n);
    lemma_pass_bound(bound, n);
    assert(n * n * bound <= 0x400_0000 * o) by (nonlinear_arith)
        requires
            1 <= n <= 8192,
            0 <= bound <= o,
    ;
    assert(n == n * 1);
    assert(all_near(readings(a), v, 0));
    lemma_passes_near(m, a, v, 1, n, bound, 0);
    let vb = readings(b);
    let vc = readings(c);
    assert forall|k: int| 0 <= k < n implies rounding::near(
        o * ieee::value(#[trigger] c[k]),
        ieee::value(b[k]) * s,
        sc * o,
    ) && floatbits::is_finite(c[k]) && rounding::near(ieee::value(c[k]), 0, middle) by {
        assert(rounding::near(ieee::value(b[k]), 0, full));
        lemma_shrunk(m, b[k], f, full);
    }
    assert(rounding::near(ieee::value(b[i]), 0, full));
    lemma_shrunk(m, b[i], f, full);
    rounding::lemma_slack(once);
    assert(3 <= middle <= 0x800_0000 * o);
    lemma_pass_bound_below(middle, n);
    lemma_pass_bound(middle, n);
    assert(n * n * middle <= 0x400_0000 * (0x800_0000 * o)) by (nonlinear_arith)
        requires
            1 <= n <= 8192,
            0 <= middle <= 0x800_0000 * o,
    ;
    assert(all_near(readings(c), vc, 0));
    lemma_passes_near(m, c, vc, 1, n, middle, 0);
    // The second passes, taken back to the first.
    let scaled_c = times_each(vc, o);
    let scaled_b = times_each(vb, s);
    assert forall|k: int| 0 <= k
        < n implies rounding::near(#[trigger] scaled_c[k], scaled_b[k], sc * o) by {
        assert(rounding::near(o * ieee::value(c[k]), ieee::value(b[k]) * s, sc * o));
        assert(ieee::value(b[k]) * s == s * ieee::value(b[k])) by (nonlinear_arith);
    }
    lemma_whole_near(scaled_c, scaled_b, 1, n, sc * o);
    lemma_whole_times(vc, 1, n, o);
    lemma_whole_times(vb, 1, n, s);
    let pv = whole_passes(v, 1);
    lemma_whole_len(v, 1);
    lemma_whole_len(vb, 1);
    lemma_whole_len(vc, 1);
    lemma_whole_near(vb, pv, 1, n, off1);
    lemma_whole_twice(v, 1, n);
    let pb = whole_passes(vb, 1)[i];
    let pc = whole_passes(vc, 1)[i];
    assert(rounding::near(pb, times_each(v, n)[i], n * off1));
    assert(rounding::near(whole_passes(scaled_c, 1)[i], whole_passes(scaled_b, 1)[i],
        n * (sc * o)));
    assert(rounding::near(readings(d)[i], pc, off2));
    assert(rounding::near(ieee::value(d[i]), 0, full2));
    lemma_shrunk(m, d[i], f, full2);
    let so = rounding::slack_for(twice);
    let (x, out) = (ieee::value(a[i]), ieee::value(back[i]));
    lemma_chain(o, n, s, x, pb, pc, ieee::value(d[i]), out, n * off1, n * (sc * o), off2, so * o);
    let e = n * s * s - o * o;
    assert(o * o * (out - x) == (o * o * out - n * s * s * x) + e * x) by (nonlinear_arith)
        requires
            e == n * s * s - o * o,
    ;
    rounding::lemma_bounded_product(e, x, ieee::size(e), ieee::size(x));
    let off = ieee::size(out - x);
    assert(o * o * off == ieee::size(o * o * (out - x))) by (nonlinear_arith)
        requires
            0 < o,
            off == if out - x < 0 {
                -(out - x)
            } else {
                out - x
            },
            ieee::size(o * o * (out - x)) == if o * o * (out - x) < 0 {
                -(o * o * (out - x))
            } else {
                o * o * (out - x)
            },
    ;
    if n == 4 && 2 * bound <= o {
        assert(4 * s * s == o * o) by (nonlinear_arith)
            requires
                2 * s == o,
        ;
        assert(0 * ieee::size(x) == 0) by (nonlinear_arith);
        lemma_four(bound, s, off);
    }
}

/// Four entries up to one half.
proof fn lemma_four(bound: int, s: int, off: int)
    requires
        2 <= bound,
        2 * bound <= ieee::one(),
        2 * s == ieee::one(),
        ieee::one() * ieee::one() * off <= transform_slack(4, bound, s),
        0 <= off,
    ensures
        1000000 * off < ieee::one(),
{
    let o = ieee::one();
    rounding::lemma_limit();
    let (off1, full) = lemma_two_passes(bound);
    let once = shrunk_bound(full, s);
    lemma_halved(full, s);
    let sc = rounding::slack_for(once);
    rounding::lemma_slack(once);
    let middle = once + sc;
    let (off2, full2) = lemma_two_passes(middle);
    let twice = shrunk_bound(full2, s);
    lemma_halved(full2, s);
    let so = rounding::slack_for(twice);
    rounding::lemma_slack(twice);
    assert(2 * (o * (so * o) + o * s * off2 + s * (4 * (sc * o)) + s * s * (4 * off1)) == (2 * so
        + off2 + 4 * sc + 2 * off1) * (o * o)) by (nonlinear_arith)
        requires
            2 * s == o,
    ;
    let total = 2 * so + off2 + 4 * sc + 2 * off1;
    assert(2 * off <= total) by (nonlinear_arith)
        requires
            2 * (o * o * off) <= total * (o * o),
            0 < o,
    ;
}

/// Two passes.
proof fn lemma_two_passes(bound: int) -> (r: (int, int))
    requires
        0 <= bound,
    ensures
        r.0 == pass_off(0, bound, 4),
        r.1 == pass_bound(bound, 4),
        0 <= r.1,
        rounding::parts() * r.0 <= 8 * bound + 8 * rounding::parts() + r.0,
        r.1 <= 4 * bound + r.0,
{
    reveal_with_fuel(pass_bound, 3);
    reveal_with_fuel(pass_off, 3);
    let first = rounding::slack_for(2 * bound);
    rounding::lemma_slack(2 * bound);
    let next = 2 * bound + first;
    rounding::lemma_slack(2 * next);
    (2 * first + rounding::slack_for(2 * next), 2 * next + rounding::slack_for(2 * next))
}

proof fn lemma_halved(x: int, s: int)
    requires
        2 * s == ieee::one(),
    ensures
        shrunk_bound(x, s) == x / 2 + 1,
{
    let o = ieee::one();
    ieee::lemma_one();
    assert(x * s == s * x) by (nonlinear_arith);
    vstd::arithmetic::div_mod::lemma_fundamental_div_mod(x, 2);
    let (q, r) = (x / 2, x % 2);
    assert(x * s == q * o + r * s && 0 <= r * s < o) by (nonlinear_arith)
        requires
            x == 2 * q + r,
            0 <= r < 2,
            2 * s == o,
            0 < o,
    ;
    vstd::arithmetic::div_mod::lemma_fundamental_div_mod_converse(x * s, o, q, r * s);
}

/// The transform keeps numbers within bounds.
pub(crate) proof fn lemma_transformed_small(m: Calc, a: Seq<u32>, bound: int)
    requires
        ieee::is_ieee(m),
        is_pow2(a.len() as int),
        1 <= a.len() <= 8192,
        rounding::small(bound, a),
        2 <= bound <= 0x1_0000 * ieee::one(),
    ensures
        rounding::small(0x800_0000 * bound, rotation::transformed(m, a)),
        rotation::transformed(m, a).len() == a.len(),
{
    let n = a.len() as int;
    let v = readings(a);
    let o = ieee::one();
    let full = pass_bound(bound, n);
    rounding::lemma_limit();
    lemma_pass_bound_below(bound, n);
    lemma_pass_bound(bound, n);
    assert(n * n * bound <= 0x400_0000 * bound) by (nonlinear_arith)
        requires
            1 <= n <= 8192,
            0 <= bound,
    ;
    lemma_passes_near(m, a, v, 1, n, bound, 0);
    lemma_factor(m, a.len());
    let b = rotation::passes(m, a, 1);
    let factor = rotation::shrink(m, a.len());
    rounding::lemma_slack(full);
    assert forall|k: int| 0 <= k < n implies floatbits::is_finite(
        #[trigger] rotation::transformed(m, a)[k],
    ) && rounding::near(ieee::value(rotation::transformed(m, a)[k]), 0, 0x800_0000 * bound) by {
        assert(rounding::near(ieee::value(b[k]), 0, full));
        rounding::lemma_bounded_product(ieee::value(b[k]), ieee::value(factor), full, o);
        rounding::lemma_mul(m, b[k], factor, full);
    }
}

} // verus!
