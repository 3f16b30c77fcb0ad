//! How far Euclidean distances taken from 1-bit codes can lie from the distances to the rows
//! that the codes stand for, in IEEE arithmetic.

use vstd::prelude::*;

use crate::arith;
use crate::arith::{Calc, Op};
use crate::bbq;
use crate::bbq::BbqL2Ctx;
use crate::bbq_rounding_laws;
use crate::doubling_laws;
use crate::floatbits;
use crate::floatbits::TWO_BITS;
use crate::ieee;
use crate::ieee::FRACTION;
use crate::metric;
use crate::rounding;

verus! {

/// Whether up to `n` numbers no larger than `bound`, whose squares are no larger than `high`,
/// can be worked with.
spec fn in_scale(n: int, bound: int, high: int) -> bool {
    &&& 0 <= n <= 1024
    &&& ieee::one() <= bound <= high <= 1024 * ieee::one()
    &&& bound * bound <= high * ieee::one()
}

/// The largest size of a difference of two numbers no larger than `bound`.
spec fn spread(bound: int) -> int {
    2 * bound + rounding::slack_for(2 * bound)
}

/// The sum of the squares of the first `n` entries of a row, each less one of two numbers.
spec fn level_gaps(a: Seq<u32>, flags: Seq<bool>, lower: int, upper: int, n: nat) -> int
    decreases n,
{
    if n == 0 {
        0
    } else {
        let gap = ieee::value(a[n - 1]) - if flags[n - 1] {
            upper
        } else {
            lower
        };
        level_gaps(a, flags, lower, upper, (n - 1) as nat) + gap * gap
    }
}

proof fn lemma_spread(n: int, bound: int, high: int)
    requires
        in_scale(n, bound, high),
    ensures
        0 < rounding::slack_for(2 * bound),
        8 * (rounding::parts() * rounding::slack_for(2 * bound)) <= 17 * bound,
        16 * rounding::slack_for(2 * bound) <= bound,
        (2 * n + 1) * rounding::slack_for(2 * bound) <= bound,
        n * rounding::slack_for(2 * bound) <= bound,
        0 <= n * rounding::slack_for(2 * bound),
        spread(bound) * spread(bound) <= (5 * high) * ieee::one(),
        0x1000_0000_0000_0000 * ieee::one() < ieee::limit(),
        0x1_0000_0000_0000 < ieee::one(),
        high * 0x1_0000_0000 < ieee::limit(),
{
    rounding::lemma_limit();
    rounding::lemma_slack(2 * bound);
    let s = rounding::slack_for(2 * bound);
    let e = spread(bound);
    assert((2 * n + 1) * s <= 2049 * s && n * s <= 1024 * s && 0 <= n * s) by (nonlinear_arith)
        requires
            0 <= n <= 1024,
            0 < s,
    ;
    assert(e * e <= 5 * (bound * bound)) by (nonlinear_arith)
        requires
            16 * e <= 33 * bound,
            0 < e,
    ;
    assert((5 * high) * ieee::one() == 5 * (high * ieee::one())) by (nonlinear_arith);
}

/// The squares of the gaps, taken apart.
proof fn lemma_gaps_parts(a: Seq<u32>, flags: Seq<bool>, lower: int, upper: int, n: nat)
    requires
        n <= flags.len(),
    ensures
        ({
            let set = bbq::set_count(flags.take(n as int));
            let along = lower * rounding::whole_sum(a, n)
                + (upper - lower) * bbq_rounding_laws::set_sum(
                a,
                flags,
                n,
            );
            &&& set <= n
            &&& level_gaps(a, flags, lower, upper, n)
                == rounding::whole_dot(a, a, n) - 2 * along + (set
                * (upper * upper) + (n - set) * (lower * lower))
        }),
    decreases n,
{
    let gap = upper - lower;
    if n > 0 {
        let k = (n - 1) as nat;
        lemma_gaps_parts(a, flags, lower, upper, k);
        assert(flags.take(n as int).drop_last() =~= flags.take(k as int));
        let x = ieee::value(a[n - 1]);
        let (s, t) = (rounding::whole_sum(a, k), bbq_rounding_laws::set_sum(a, flags, k));
        let set = bbq::set_count(flags.take(k as int)) as int;
        assert(lower * (s + x) == lower * s + lower * x && gap * (t + x) == gap * t + gap * x && gap
            * (t + 0) == gap * t && gap * x == upper * x - lower * x) by (nonlinear_arith)
            requires
                gap == upper - lower,
        ;
        assert((x - upper) * (x - upper) == x * x - 2 * (upper * x) + upper * upper && (x - lower)
            * (x - lower) == x * x - 2 * (lower * x) + lower * lower) by (nonlinear_arith);
        let (uu, ll) = (upper * upper, lower * lower);
        assert((set + 1) * uu == set * uu + uu && (n - set) * ll == (n - 1 - set) * ll + ll)
            by (nonlinear_arith);
    } else {
        assert(flags.take(0) =~= Seq::empty());
        assert(lower * 0 == 0 && gap * 0 == 0 && 0 * (upper * upper) == 0 && 0 * (lower * lower)
            == 0) by (nonlinear_arith);
    }
}

/// What the distance is taken from and the distance to the row that bits stand for, entry by
/// entry.
proof fn lemma_gaps_row(
    m: Calc,
    query: Seq<u32>,
    centroid: Seq<u32>,
    bits: Seq<u8>,
    lower: u32,
    upper: u32,
    bound: int,
    high: int,
    n: nat,
)
    requires
        ieee::is_ieee(m),
        in_scale(query.len() as int, bound, high),
        rounding::small(bound, query),
        rounding::small(bound, centroid),
        rounding::small(bound, seq![lower, upper]),
        n <= query.len(),
        query.len() == centroid.len(),
    ensures
        rounding::parts() * ieee::size(
            rounding::whole_gaps(query, bbq::dequantized(m, centroid, bits, lower, upper), n)
                - level_gaps(
                bbq::centered(m, query, centroid),
                bbq::row_flags(bits, query.len()),
                ieee::value(lower),
                ieee::value(upper),
                n,
            ),
        ) <= n * (30 * (bound * bound)),
    decreases n,
{
    let p = rounding::parts();
    if n > 0 {
        let k = n - 1;
        lemma_gaps_row(m, query, centroid, bits, lower, upper, bound, high, k as nat);
        let flags = bbq::row_flags(bits, query.len());
        let row = bbq::dequantized(m, centroid, bits, lower, upper);
        let a = bbq::centered(m, query, centroid);
        let chosen = if flags[k] {
            upper
        } else {
            lower
        };
        let levels = seq![lower, upper];
        assert(levels[0] == lower && levels[1] == upper);
        assert(rounding::near(ieee::value(query[k]), 0, bound)
            && rounding::near(ieee::value(centroid[k]), 0, bound));
        assert(row[k] == m(Op::Add, centroid[k], chosen));
        lemma_spread(query.len() as int, bound, high);
        rounding::lemma_add(m, centroid[k], chosen, 2 * bound);
        rounding::lemma_sub(m, query[k], centroid[k], 2 * bound);
        let s = rounding::slack_for(2 * bound);
        let x = ieee::value(a[k]) - ieee::value(chosen);
        let y = ieee::value(query[k]) - ieee::value(row[k]);
        let (xx, yy) = (x * x, y * y);
        let d = ieee::size(yy - xx);
        assert(-(14 * (s * bound)) <= yy - xx <= 14 * (s * bound)) by (nonlinear_arith)
            requires
                xx == x * x,
                yy == y * y,
                -(2 * s) <= x - y <= 2 * s,
                -(7 * bound) <= x + y <= 7 * bound,
        ;
        assert(p * d <= 30 * (bound * bound)) by (nonlinear_arith)
            requires
                d <= 14 * (s * bound),
                8 * (p * s) <= 17 * bound,
                0 < bound,
                0 < p,
        ;
        let (g0, l0) = (
            rounding::whole_gaps(query, row, k as nat),
            level_gaps(a, flags, ieee::value(lower), ieee::value(upper), k as nat),
        );
        let d0 = ieee::size(g0 - l0);
        assert(ieee::size(g0 + yy - (l0 + xx)) <= d0 + d);
        assert(p * ieee::size(g0 + yy - (l0 + xx)) <= p * d0 + p * d) by (nonlinear_arith)
            requires
                ieee::size(g0 + yy - (l0 + xx)) <= d0 + d,
                0 < p,
        ;
        let e = 30 * (bound * bound);
        assert(k * e + e == n * e) by (nonlinear_arith)
            requires
                k == n - 1,
        ;
    } else {
        assert(p * 0 == 0 && n * (30 * (bound * bound)) == 0) by (nonlinear_arith)
            requires
                n == 0,
        ;
    }
}

/// The inner product with what bits stand for, taken from the bits.
proof fn lemma_along_value(
    m: Calc,
    a: Seq<u32>,
    flags: Seq<bool>,
    lower: u32,
    upper: u32,
    bound: int,
    high: int,
)
    requires
        ieee::is_ieee(m),
        in_scale(a.len() as int, bound, high),
        rounding::small(spread(bound), a),
        rounding::small(bound, seq![lower, upper]),
        a.len() == flags.len(),
    ensures
        ({
            let n = a.len() as int;
            let l = ieee::value(lower);
            let along = m(
                Op::Add,
                m(Op::Mul, lower, arith::total(m, 0, a)),
                m(
                    Op::Mul,
                    m(Op::Sub, upper, lower),
                    arith::total(m, 0, bbq::chosen(a, flags, a.len(), true)),
                ),
            );
            let exact = l * rounding::whole_sum(a, a.len())
                + (ieee::value(upper) - l) * bbq_rounding_laws::set_sum(
                a,
                flags,
                a.len(),
            );
            &&& floatbits::is_finite(along)
            &&& rounding::parts() * ieee::size(ieee::one() * ieee::value(along) - exact)
                <= (6 * n * n + 26 * n + 17) * (high
                * ieee::one())
            &&& rounding::near(ieee::value(along), 0, 6 * (n * high) + 6 * high)
        }),
{
    let n = a.len() as int;
    let (o, p, b, h) = (ieee::one(), rounding::parts(), bound, high);
    let (nb, nh) = (n * b, n * h);
    let e = spread(b);
    let s2 = rounding::slack_for(2 * b);
    lemma_spread(n, b, h);
    ieee::lemma_one();
    assert(0 <= nb <= 1024 * b && 0 <= nh <= 1024 * h) by (nonlinear_arith)
        requires
            nb == n * b,
            nh == n * h,
            0 <= n <= 1024,
            0 < b,
            0 < h,
    ;
    let (t1, h1, h2, h3) = (2 * nb + b, 2 * nh + h, 4 * nh + 3 * h, 6 * nh + 5 * h);
    let (s1, f1, f2, f3) = (rounding::slack_for(t1), rounding::slack_for(h1),
        rounding::slack_for(h2), rounding::slack_for(h3));
    rounding::lemma_slack(t1);
    rounding::lemma_slack(h1);
    rounding::lemma_slack(h2);
    rounding::lemma_slack(h3);
    assert(n * (s2 + s1) <= b && 0 <= n * s1) by (nonlinear_arith)
        requires
            0 <= n <= 1024,
            0 < s1,
            0 < s2,
            1024 * (s2 + s1) <= b,
    ;
    assert(n * (e + s1) == 2 * nb + n * (s2 + s1) && n * e == 2 * nb + n * s2) by (nonlinear_arith)
        requires
            e == 2 * b + s2,
            nb == n * b,
    ;
    rounding::lemma_total_near(m, 0, 0, a, e, t1);
    bbq_rounding_laws::lemma_set_sum(m, a, flags, e, t1, a.len());
    let levels = seq![lower, upper];
    assert(levels[0] == lower && levels[1] == upper);
    let sum = arith::total(m, 0, a);
    let picked = arith::total(m, 0, bbq::chosen(a, flags, a.len(), true));
    let gap = m(Op::Sub, upper, lower);
    rounding::lemma_sub(m, upper, lower, 2 * b);
    let (first, second) = (m(Op::Mul, lower, sum), m(Op::Mul, gap, picked));
    let along = m(Op::Add, first, second);
    let qs = rounding::whole_sum(a, a.len());
    let ss = bbq_rounding_laws::set_sum(a, flags, a.len());
    let (l, u, g) = (ieee::value(lower), ieee::value(upper), ieee::value(gap));
    let (s, k) = (ieee::value(sum), ieee::value(picked));
    let (bb, ho) = (b * b, h * o);
    // The lower level.
    rounding::lemma_bounded_product(l, s, b, t1);
    assert(b * t1 <= h1 * o) by (nonlinear_arith)
        requires
            t1 == 2 * nb + b,
            h1 == 2 * nh + h,
            nb == n * b,
            nh == n * h,
            b * b <= h * o,
            0 <= n,
    ;
    rounding::lemma_mul(m, lower, sum, h1);
    let ns = n * s1;
    rounding::lemma_bounded_product(l, s - qs, b, ns);
    assert(l * (s - qs) == l * s - l * qs) by (nonlinear_arith);
    // The gap between the levels.
    rounding::lemma_bounded_product(g, k, e, t1);
    assert(e * t1 <= h2 * o) by (nonlinear_arith)
        requires
            e == 2 * b + s2,
            t1 == 2 * nb + b,
            h2 == 4 * nh + 3 * h,
            nb == n * b,
            nh == n * h,
            b * b <= h * o,
            (2 * n + 1) * s2 <= b,
            0 <= n,
            0 < b,
    ;
    rounding::lemma_mul(m, gap, picked, h2);
    rounding::lemma_bounded_product(g, k - ss, e, ns);
    rounding::lemma_bounded_product(g - (u - l), ss, s2, n * e);
    assert(g * k - (u - l) * ss == g * (k - ss) + (g - (u - l)) * ss) by (nonlinear_arith);
    rounding::lemma_add(m, first, second, h3);
    let (v1, v2, al) = (ieee::value(first), ieee::value(second), ieee::value(along));
    rounding::lemma_bounded_product(al - (v1 + v2), o, f3, o);
    assert((al - (v1 + v2)) * o == o * al - o * v1 - o * v2) by (nonlinear_arith);
    let exact = l * qs + (u - l) * ss;
    let x = f3 * o + f1 * o + f2 * o + b * ns + e * ns + s2 * (n * e);
    assert(rounding::near(o * al, exact, x));
    // In parts of the last place.
    assert(p * (f3 * o + f1 * o + f2 * o) <= (12 * nh + 12 * h) * o) by (nonlinear_arith)
        requires
            p * f1 + p * f2 + p * f3 <= 12 * nh + 12 * h,
            0 < o,
    ;
    let pns = p * ns;
    assert(pns <= n * (2 * nb + 2 * b)) by (nonlinear_arith)
        requires
            pns == p * ns,
            ns == n * s1,
            p * s1 <= 2 * nb + 2 * b,
            0 <= n,
    ;
    let nbb = n * bb;
    let nnbb = n * nbb;
    assert(b * (n * (2 * nb + 2 * b)) == 2 * nnbb + 2 * nbb && 0 <= nbb && 0 <= nnbb && 0 < bb)
        by (nonlinear_arith)
        requires
            nb == n * b,
            bb == b * b,
            nbb == n * bb,
            nnbb == n * nbb,
            0 <= n,
            0 < b,
    ;
    assert(p * (b * ns) <= b * (n * (2 * nb + 2 * b))) by (nonlinear_arith)
        requires
            pns == p * ns,
            pns <= n * (2 * nb + 2 * b),
            0 < b,
    ;
    let en = n * e;
    assert(p * (e * ns) <= 4 * nnbb + 6 * nbb + 2 * bb) by (nonlinear_arith)
        requires
            ns == n * s1,
            p * s1 <= 2 * nb + 2 * b,
            en == n * e,
            0 <= en <= 2 * nb + b,
            0 <= p * s1,
            nb == n * b,
            0 <= nb,
            bb == b * b,
            nbb == n * bb,
            nnbb == n * nbb,
            0 < b,
    {
        assert(p * (e * ns) == (p * s1) * en);
        assert((p * s1) * en <= (2 * nb + 2 * b) * (2 * nb + b));
        assert((2 * nb + 2 * b) * (2 * nb + b) == 4 * nnbb + 6 * nbb + 2 * bb);
    }
    assert(p * (s2 * en) <= 6 * nbb + 3 * bb) by (nonlinear_arith)
        requires
            p * s2 <= 3 * b,
            0 <= p * s2,
            0 <= en <= 2 * nb + b,
            nb == n * b,
            bb == b * b,
            nbb == n * bb,
            0 < b,
    {
        assert(p * (s2 * en) == (p * s2) * en);
        assert((p * s2) * en <= (3 * b) * (2 * nb + b));
        assert((3 * b) * (2 * nb + b) == 6 * nbb + 3 * bb);
    }
    let (nho, nnho) = (n * ho, n * (n * ho));
    assert(nbb <= nho && nnbb <= nnho && (12 * nh + 12 * h) * o == 12 * nho + 12 * ho)
        by (nonlinear_arith)
        requires
            bb <= ho,
            nbb == n * bb,
            nnbb == n * nbb,
            nho == n * ho,
            nnho == n * (n * ho),
            ho == h * o,
            nh == n * h,
            0 <= n,
    ;
    assert(p * x == p * (f3 * o + f1 * o + f2 * o) + p * (b * ns) + p * (e * ns) + p * (s2 * en))
        by (nonlinear_arith)
        requires
            x == f3 * o + f1 * o + f2 * o + b * ns + e * ns + s2 * en,
    ;
    let off = ieee::size(o * al - exact);
    assert(p * off <= p * x) by (nonlinear_arith)
        requires
            off <= x,
            0 < p,
    ;
    assert((6 * n * n + 26 * n + 17) * ho == 6 * nnho + 26 * nho + 17 * ho) by (nonlinear_arith)
        requires
            nho == n * ho,
            nnho == n * (n * ho),
    ;
}

/// A count times the square of a level, taken as two products.
proof fn lemma_counted_square(
    m: Calc,
    count: u32,
    times: int,
    x: u32,
    bound: int,
    high: int,
    n: int,
)
    requires
        ieee::is_ieee(m),
        in_scale(n, bound, high),
        0 <= times <= n,
        floatbits::is_finite(count),
        rounding::near(ieee::value(count), times * ieee::one(),
            rounding::slack_for(n * ieee::one())),
        floatbits::is_finite(x),
        rounding::near(ieee::value(x), 0, bound),
    ensures
        ({
            let square = m(Op::Mul, m(Op::Mul, count, x), x);
            &&& floatbits::is_finite(square)
            &&& rounding::parts()
                * ieee::size(ieee::one() * ieee::value(square)
                    - times * (ieee::value(x) * ieee::value(x))) <= (3 * n + 7)
                * (high * ieee::one())
            &&& rounding::near(ieee::value(square), 0, n * high + 3 * high)
        }),
{
    let (o, p, b, h) = (ieee::one(), rounding::parts(), bound, high);
    let (nb, nh, no) = (n * b, n * h, n * o);
    let (c, v) = (ieee::value(count), ieee::value(x));
    lemma_spread(n, b, h);
    assert(0 <= nb <= 1024 * b && 0 <= nh <= 1024 * h && 0 <= no <= 1024 * o && 0 <= times * o
        <= no) by (nonlinear_arith)
        requires
            nb == n * b,
            nh == n * h,
            no == n * o,
            0 <= times <= n <= 1024,
            0 < b,
            0 < h,
            0 < o,
    ;
    let (u1, u2) = (nb + b, nh + 2 * h);
    let (s0, s1, s2) = (rounding::slack_for(no), rounding::slack_for(u1), rounding::slack_for(u2));
    rounding::lemma_slack(no);
    rounding::lemma_slack(u1);
    rounding::lemma_slack(u2);
    let once = m(Op::Mul, count, x);
    let square = m(Op::Mul, once, x);
    rounding::lemma_bounded_product(c, v, no + o, b);
    assert((no + o) * b == u1 * o) by (nonlinear_arith)
        requires
            no == n * o,
            nb == n * b,
            u1 == nb + b,
    ;
    rounding::lemma_mul(m, count, x, u1);
    let (y, z) = (ieee::value(once), ieee::value(square));
    rounding::lemma_bounded_product(y, v, nb + 2 * b, b);
    assert((nb + 2 * b) * b <= u2 * o) by (nonlinear_arith)
        requires
            nb == n * b,
            nh == n * h,
            u2 == nh + 2 * h,
            b * b <= h * o,
            0 <= n,
    ;
    rounding::lemma_mul(m, once, x, u2);
    // Once is near the count times the level.
    let w = times * v;
    rounding::lemma_bounded_product(c - times * o, v, s0, b);
    assert((c - times * o) * v == c * v - o * w) by (nonlinear_arith)
        requires
            w == times * v,
    ;
    let j = s1 * o + s0 * b;
    assert(rounding::near(o * y, o * w, j));
    assert(p * j <= (2 * nb + 4 * b) * o) by (nonlinear_arith)
        requires
            j == s1 * o + s0 * b,
            p * s1 <= nb + 2 * b,
            p * s0 <= no + 2 * o,
            no == n * o,
            nb == n * b,
            0 < o,
            0 < b,
    ;
    // And once again.
    let t = times * (v * v);
    assert(o * (y * v - t) == (o * y - o * w) * v) by (nonlinear_arith)
        requires
            w == times * v,
            t == times * (v * v),
    ;
    rounding::lemma_bounded_product(o * y - o * w, v, j, b);
    let off = ieee::size(o * z - t);
    let ooff = o * off;
    assert(ooff <= o * (s2 * o) + j * b) by (nonlinear_arith)
        requires
            ooff == o * off,
            off == o * z - t || off == t - o * z,
            -(s2 * o) <= o * z - y * v <= s2 * o,
            -(j * b) <= o * (y * v - t) <= j * b,
            0 < o,
    ;
    let ho = h * o;
    let nho = n * ho;
    assert(p * (o * (s2 * o)) <= (nho + 3 * ho) * o) by (nonlinear_arith)
        requires
            p * s2 <= nh + 3 * h,
            nh == n * h,
            ho == h * o,
            nho == n * ho,
            0 < o,
    ;
    assert(p * (j * b) <= (2 * nho + 4 * ho) * o) by (nonlinear_arith)
        requires
            p * j <= (2 * nb + 4 * b) * o,
            nb == n * b,
            b * b <= ho,
            nho == n * ho,
            0 <= n,
            0 < b,
            0 < o,
    {
        assert(p * (j * b) <= ((2 * nb + 4 * b) * o) * b);
        assert(((2 * nb + 4 * b) * o) * b == ((2 * n + 4) * (b * b)) * o);
        assert((2 * n + 4) * (b * b) <= (2 * n + 4) * ho);
        assert((2 * n + 4) * ho == 2 * nho + 4 * ho);
    }
    assert(p * off <= 3 * nho + 7 * ho) by (nonlinear_arith)
        requires
            ooff == o * off,
            ooff <= o * (s2 * o) + j * b,
            p * (o * (s2 * o)) <= (nho + 3 * ho) * o,
            p * (j * b) <= (2 * nho + 4 * ho) * o,
            0 < o,
            0 < p,
    {
        assert(p * ooff <= p * (o * (s2 * o)) + p * (j * b));
        assert(p * ooff == (p * off) * o);
        assert((nho + 3 * ho) * o + (2 * nho + 4 * ho) * o == (3 * nho + 7 * ho) * o);
        assert((p * off) * o <= (3 * nho + 7 * ho) * o);
    }
    assert((3 * n + 7) * ho == 3 * nho + 7 * ho) by (nonlinear_arith)
        requires
            nho == n * ho,
    ;
}

/// A count, as a number.
proof fn lemma_counted(m: Calc, k: int)
    requires
        ieee::is_ieee(m),
        0 <= k <= 1024,
    ensures
        floatbits::is_finite(m(Op::Int, k as u32, 0)),
        ieee::value(m(Op::Int, k as u32, 0)) == k * ieee::one(),
{
    let count = m(Op::Int, k as u32, 0);
    let x = ieee::lemma_has_pattern(k, 149);
    assert(ieee::miss(count, k * ieee::one(), 1) <= ieee::miss(x, k * ieee::one(), 1));
}

/// The counts of set and of other bits times the squares of their levels.
proof fn lemma_norm(
    m: Calc,
    set: int,
    lower: u32,
    upper: u32,
    bound: int,
    high: int,
    n: int,
)
    requires
        ieee::is_ieee(m),
        in_scale(n, bound, high),
        0 <= set <= n,
        rounding::small(bound, seq![lower, upper]),
    ensures
        ({
            let pop = m(Op::Int, set as u32, 0);
            let rest = m(Op::Sub, m(Op::Int, n as u32, 0), pop);
            let norm = m(
                Op::Add,
                m(Op::Mul, m(Op::Mul, pop, upper), upper),
                m(Op::Mul, m(Op::Mul, rest, lower), lower),
            );
            let (l, u) = (ieee::value(lower), ieee::value(upper));
            &&& floatbits::is_finite(norm)
            &&& rounding::parts()
                * ieee::size(ieee::one() * ieee::value(norm)
                    - (set * (u * u) + (n - set) * (l * l))) <= (8
                * n + 21) * (high * ieee::one())
            &&& rounding::near(ieee::value(norm), 0, 2 * (n * high) + 7 * high)
        }),
{
    let (o, p, h) = (ieee::one(), rounding::parts(), high);
    let (nh, no) = (n * h, n * o);
    lemma_spread(n, bound, h);
    assert(0 <= nh <= 1024 * h && 0 <= no <= 1024 * o && 0 <= set * o <= no && (n - set) * o == no
        - set * o) by (nonlinear_arith)
        requires
            nh == n * h,
            no == n * o,
            0 <= set <= n <= 1024,
            0 < h,
            0 < o,
    ;
    let levels = seq![lower, upper];
    assert(levels[0] == lower && levels[1] == upper);
    let pop = m(Op::Int, set as u32, 0);
    let all = m(Op::Int, n as u32, 0);
    let rest = m(Op::Sub, all, pop);
    lemma_counted(m, set);
    lemma_counted(m, n);
    rounding::lemma_slack(no);
    rounding::lemma_sub(m, all, pop, no);
    lemma_counted_square(m, pop, set, upper, bound, h, n);
    lemma_counted_square(m, rest, n - set, lower, bound, h, n);
    let up = m(Op::Mul, m(Op::Mul, pop, upper), upper);
    let down = m(Op::Mul, m(Op::Mul, rest, lower), lower);
    let top = 2 * nh + 6 * h;
    rounding::lemma_slack(top);
    rounding::lemma_add(m, up, down, top);
    let norm = m(Op::Add, up, down);
    let (x, y, z) = (ieee::value(up), ieee::value(down), ieee::value(norm));
    let (l, u) = (ieee::value(lower), ieee::value(upper));
    let (tx, ty) = (set * (u * u), (n - set) * (l * l));
    let (ex, ey, ez) = (ieee::size(o * x - tx), ieee::size(o * y - ty), rounding::slack_for(top));
    assert(-(o * ez) <= o * z - o * x - o * y <= o * ez) by (nonlinear_arith)
        requires
            -ez <= z - (x + y) <= ez,
            0 < o,
    ;
    let off = ieee::size(o * z - (tx + ty));
    assert(off <= ex + ey + o * ez);
    let ho = h * o;
    let nho = n * ho;
    assert(p * off <= p * ex + p * ey + (2 * nho + 7 * ho)) by (nonlinear_arith)
        requires
            off <= ex + ey + o * ez,
            p * ez <= 2 * nh + 7 * h,
            nh == n * h,
            ho == h * o,
            nho == n * ho,
            0 < o,
            0 < p,
    {
        assert(p * (o * ez) == o * (p * ez));
        assert(o * (p * ez) <= o * (2 * nh + 7 * h));
        assert(o * (2 * nh + 7 * h) == 2 * nho + 7 * ho);
        assert(p * off <= p * (ex + ey + o * ez));
        assert(p * (ex + ey + o * ez) == p * ex + p * ey + p * (o * ez));
    }
    assert((3 * n + 7) * ho == 3 * nho + 7 * ho && (8 * n + 21) * ho == 8 * nho + 21 * ho)
        by (nonlinear_arith)
        requires
            nho == n * ho,
    ;
}

/// The squared distance taken from bits.
proof fn lemma_squared_near(
    m: Calc,
    query: Seq<u32>,
    centroid: Seq<u32>,
    bits: Seq<u8>,
    lower: u32,
    upper: u32,
    ctx: BbqL2Ctx,
    bound: int,
    high: int,
)
    requires
        ieee::is_ieee(m),
        in_scale(query.len() as int, bound, high),
        query.len() == centroid.len(),
        rounding::small(bound, query),
        rounding::small(bound, centroid),
        rounding::small(bound, seq![lower, upper]),
        ctx.qc@ == bbq::centered(m, query, centroid),
        ctx.qc_dist_sq == arith::total(m, 0, metric::products(m, ctx.qc@, ctx.qc@)),
        ctx.qc_sum == arith::total(m, 0, ctx.qc@),
    ensures
        ({
            let n = query.len() as int;
            let row = bbq::dequantized(m, centroid, bits, lower, upper);
            let bd = bbq::binary_dot(m, ctx.qc@, bits, query.len());
            let squared = bbq::squared_from_bits(m, ctx, lower, upper, bits, query.len(), bd);
            &&& floatbits::is_finite(squared)
            &&& rounding::parts()
                * ieee::size(ieee::one() * ieee::value(squared)
                    - rounding::whole_gaps(query, row, query.len())) <= (17
                * n * n + 146 * n + 108) * (high * ieee::one())
            &&& rounding::near(ieee::value(squared), 0, 19 * (n * high) + 24 * high)
        }),
{
    let n = query.len() as int;
    let (o, p, b, h) = (ieee::one(), rounding::parts(), bound, high);
    let nh = n * h;
    let ho = h * o;
    let (nho, nnho) = (n * ho, n * (n * ho));
    lemma_spread(n, b, h);
    assert(0 <= nh <= 1024 * h && 0 <= nho && 0 <= nnho) by (nonlinear_arith)
        requires
            nh == n * h,
            nho == n * ho,
            nnho == n * (n * ho),
            ho == h * o,
            0 <= n <= 1024,
            0 < h,
            0 < o,
    ;
    let flags = bbq::row_flags(bits, query.len());
    let a = ctx.qc@;
    let (l, u) = (ieee::value(lower), ieee::value(upper));
    let e = spread(b);
    assert forall|d: int| 0 <= d < a.len() implies floatbits::is_finite(#[trigger] a[d])
        && rounding::near(
        ieee::value(a[d]),
        0,
        e,
    ) by {
        assert(floatbits::is_finite(query[d]) && rounding::near(ieee::value(query[d]), 0, b));
        assert(floatbits::is_finite(centroid[d]) && rounding::near(ieee::value(centroid[d]), 0, b));
        rounding::lemma_sub(m, query[d], centroid[d], 2 * b);
    }
    // The distance to the centroid.
    let (d0, d1) = (5 * h, 5 * nh + h);
    let (s0, s1) = (rounding::slack_for(d0), rounding::slack_for(d1));
    rounding::lemma_slack(d0);
    rounding::lemma_slack(d1);
    assert(n * (d0 + s0 + s1) <= d1) by (nonlinear_arith)
        requires
            d0 == 5 * h,
            d1 == 5 * nh + h,
            nh == n * h,
            1024 * (s0 + s1) <= h,
            0 < s0,
            0 < s1,
            0 <= n <= 1024,
    ;
    rounding::lemma_dot_near(m, a, a, e, d0, d1);
    let dot = rounding::whole_dot(a, a, query.len());
    let dist = ieee::value(ctx.qc_dist_sq);
    let ed = ieee::size(o * dist - dot);
    assert(p * ed <= 5 * nnho + 8 * nho) by (nonlinear_arith)
        requires
            ed <= n * (s0 * o) + n * (s1 * o),
            p * s0 <= 6 * h,
            p * s1 <= 5 * nh + 2 * h,
            nh == n * h,
            ho == h * o,
            nho == n * ho,
            nnho == n * (n * ho),
            0 <= n,
            0 < o,
            0 < p,
    {
        assert(p * ed <= p * (n * (s0 * o) + n * (s1 * o)));
        assert(p * (n * (s0 * o) + n * (s1 * o)) == (p * s0) * (n * o) + (p * s1) * (n * o));
        assert(0 <= n * o);
        assert((p * s0) * (n * o) <= (6 * h) * (n * o));
        assert((p * s1) * (n * o) <= (5 * nh + 2 * h) * (n * o));
        assert((6 * h) * (n * o) == 6 * nho);
        assert((5 * nh + 2 * h) * (n * o) == 5 * nnho + 2 * nho);
    }
    // Twice the inner product with what the bits stand for.
    lemma_along_value(m, a, flags, lower, upper, b, h);
    let bd = bbq::binary_dot(m, a, bits, query.len());
    let along = m(
        Op::Add,
        m(Op::Mul, lower, ctx.qc_sum),
        m(Op::Mul, m(Op::Sub, upper, lower), bd),
    );
    let exact = l * rounding::whole_sum(a, query.len()) + (u - l) * bbq_rounding_laws::set_sum(
        a,
        flags,
        query.len(),
    );
    let al = ieee::value(along);
    let ea = ieee::size(o * al - exact);
    let d4 = 12 * nh + 12 * h;
    let s4 = rounding::slack_for(d4);
    rounding::lemma_slack(d4);
    ieee::lemma_one();
    assert(-(d4 * o) <= (2 * o) * al <= d4 * o) by (nonlinear_arith)
        requires
            -(6 * nh + 6 * h) <= al <= 6 * nh + 6 * h,
            d4 == 12 * nh + 12 * h,
            0 < o,
    ;
    rounding::lemma_mul(m, TWO_BITS, along, d4);
    let double = m(Op::Mul, TWO_BITS, along);
    let t = ieee::value(double);
    assert((2 * o) * al == 2 * (o * al)) by (nonlinear_arith);
    let et = ieee::size(o * t - 2 * exact);
    assert(et <= 2 * ea + s4 * o);
    // The squares of the levels.
    let set = bbq::set_count(flags) as int;
    assert(flags.take(n) =~= flags);
    lemma_gaps_parts(a, flags, l, u, query.len());
    lemma_norm(m, set, lower, upper, b, h, n);
    let pop = m(Op::Int, set as u32, 0);
    let rest = m(Op::Sub, m(Op::Int, n as u32, 0), pop);
    let norm = m(
        Op::Add,
        m(Op::Mul, m(Op::Mul, pop, upper), upper),
        m(Op::Mul, m(Op::Mul, rest, lower), lower),
    );
    let norms = set * (u * u) + (n - set) * (l * l);
    let r = ieee::value(norm);
    let er = ieee::size(o * r - norms);
    // All together.
    let (d5, d6) = (17 * nh + 15 * h, 19 * nh + 23 * h);
    let (s5, s6) = (rounding::slack_for(d5), rounding::slack_for(d6));
    rounding::lemma_slack(d5);
    rounding::lemma_slack(d6);
    let partial = m(Op::Sub, ctx.qc_dist_sq, double);
    rounding::lemma_sub(m, ctx.qc_dist_sq, double, d5);
    let squared = m(Op::Add, partial, norm);
    rounding::lemma_add(m, partial, norm, d6);
    let (v, w) = (ieee::value(partial), ieee::value(squared));
    rounding::lemma_bounded_product(v - (dist - t), o, s5, o);
    rounding::lemma_bounded_product(w - (v + r), o, s6, o);
    assert((v - (dist - t)) * o == o * v - o * dist + o * t && (w - (v + r)) * o == o * w - o * v
        - o * r) by (nonlinear_arith);
    let row = bbq::dequantized(m, centroid, bits, lower, upper);
    lemma_gaps_row(m, query, centroid, bits, lower, upper, b, h, query.len());
    let gaps = rounding::whole_gaps(query, row, query.len());
    let steps = level_gaps(a, flags, l, u, query.len());
    assert(steps == dot - 2 * exact + norms);
    let eg = ieee::size(gaps - steps);
    assert(n * (30 * (b * b)) <= 30 * nho) by (nonlinear_arith)
        requires
            b * b <= ho,
            nho == n * ho,
            0 <= n,
    ;
    let off = ieee::size(o * w - gaps);
    assert(off <= s6 * o + s5 * o + ed + (2 * ea + s4 * o) + er + eg);
    let so = s6 * o + s5 * o + s4 * o;
    assert(p * so <= 48 * nho + 53 * ho) by (nonlinear_arith)
        requires
            so == s6 * o + s5 * o + s4 * o,
            p * s4 + p * s5 + p * s6 <= 48 * nh + 53 * h,
            nh == n * h,
            ho == h * o,
            nho == n * ho,
            0 < o,
    {
        assert(p * so == (p * s4 + p * s5 + p * s6) * o);
        assert((p * s4 + p * s5 + p * s6) * o <= (48 * nh + 53 * h) * o);
        assert((48 * nh + 53 * h) * o == 48 * nho + 53 * ho);
    }
    assert(p * off <= p * so + p * ed + 2 * (p * ea) + p * er + p * eg) by (nonlinear_arith)
        requires
            off <= so + ed + 2 * ea + er + eg,
            0 < p,
    ;
    assert((6 * n * n + 26 * n + 17) * ho == 6 * nnho + 26 * nho + 17 * ho && (8 * n + 21) * ho == 8
        * nho + 21 * ho && (17 * n * n + 146 * n + 108) * ho == 17 * nnho + 146 * nho + 108 * ho)
        by (nonlinear_arith)
        requires
            nho == n * ho,
            nnho == n * (n * ho),
    ;
}

proof fn lemma_gaps_not_negative(a: Seq<u32>, b: Seq<u32>, n: nat)
    ensures
        0 <= rounding::whole_gaps(a, b, n),
    decreases n,
{
    if n > 0 {
        lemma_gaps_not_negative(a, b, (n - 1) as nat);
        let gap = ieee::value(a[n - 1]) - ieee::value(b[n - 1]);
        assert(0 <= gap * gap) by (nonlinear_arith);
    }
}

/// The root of a number that is not negative, and zero for others.
proof fn lemma_clamped_root(m: Calc, x: u32, top: int, gaps: int)
    requires
        ieee::is_ieee(m),
        floatbits::is_finite(x),
        rounding::near(ieee::value(x), 0, top),
        top <= 0x1_0000_0000 * ieee::one(),
        0 <= gaps,
    ensures
        ({
            let r = ieee::value(m(Op::Sqrt, floatbits::at_least_zero(x), 0));
            &&& 0 <= r
            &&& rounding::parts() * ieee::size(r * r - gaps)
                <= rounding::parts() * ieee::size(ieee::one() * ieee::value(x) - gaps) + 6 * (top
                * ieee::one())
        }),
{
    let (o, p) = (ieee::one(), rounding::parts());
    let f = FRACTION as int;
    rounding::lemma_limit();
    ieee::lemma_one();
    ieee::lemma_value_order(0, x);
    let clamped = floatbits::at_least_zero(x);
    let (d, c) = (ieee::value(x), ieee::value(clamped));
    let root = m(Op::Sqrt, clamped, 0);
    let r = ieee::value(root);
    let rr = r * r;
    let square = c * o;
    assert(floatbits::is_finite(clamped) && !floatbits::is_negative(clamped));
    assert(ieee::nearest_root(root, square));
    assert(square <= top * o && o * d == d * o && (d <= 0 ==> o * d <= 0)) by (nonlinear_arith)
        requires
            square == c * o,
            c <= top,
            0 < o,
    ;
    let e = ieee::size(rr - square);
    if c > 0 {
        assert(o <= square && top * o <= 0x100_0000_0000_0000_0000_0000_0000_0000 * (o
            * o)) by (nonlinear_arith)
            requires
                square == c * o,
                1 <= c,
                top <= 0x1_0000_0000 * o,
                0 < o,
        ;
        rounding::lemma_root_near(root, square);
        assert(p * e <= 6 * square);
    } else {
        assert(square == 0) by (nonlinear_arith)
            requires
                square == c * o,
                c == 0,
        ;
        doubling_laws::lemma_root_of_nothing(root);
        assert(rr == 0) by (nonlinear_arith)
            requires
                rr == r * r,
                r == 0,
        ;
        assert(0 <= top * o) by (nonlinear_arith)
            requires
                0 <= top,
                0 < o,
        ;
    }
    let off = ieee::size(o * d - gaps);
    assert(ieee::size(rr - gaps) <= e + off);
    assert(p * ieee::size(rr - gaps) <= p * e + p * off) by (nonlinear_arith)
        requires
            ieee::size(rr - gaps) <= e + off,
            0 < p,
    ;
}

/// In IEEE arithmetic, the square of the Euclidean distance taken from a row's bits lies near
/// that of the distance of the query to the row that the bits stand for: off by no more than
/// some seventeen times the square of the number of components, in parts of the last place
/// of `high`, where no number is larger than `bound`, nor its square than `high`. Of up to
/// twenty-four components with squares up to two, the distance itself lies within five
/// thousandths of the true one wherever that is at least a quarter, and the squares lie
/// within two thousandths anywhere. No distance is negative. (Squares are compared in
/// squares of the number one.)
pub proof fn l2_from_bits_is_near_the_distance(
    m: Calc,
    query: Seq<u32>,
    centroid: Seq<u32>,
    bits: Seq<u8>,
    lower: u32,
    upper: u32,
    ctx: BbqL2Ctx,
    bound: int,
    high: int,
)
    requires
        ieee::is_ieee(m),
        query.len() <= 1024,
        ieee::one() <= bound <= high <= 1024 * ieee::one(),
        bound * bound <= high * ieee::one(),
        query.len() == centroid.len(),
        rounding::small(bound, query),
        rounding::small(bound, centroid),
        rounding::small(bound, seq![lower, upper]),
        ctx.qc@ == bbq::centered(m, query, centroid),
        ctx.qc_dist_sq == arith::total(m, 0, metric::products(m, ctx.qc@, ctx.qc@)),
        ctx.qc_sum == arith::total(m, 0, ctx.qc@),
    ensures
        ({
            let n = query.len() as int;
            let row = bbq::dequantized(m, centroid, bits, lower, upper);
            let bd = bbq::binary_dot(m, ctx.qc@, bits, query.len());
            let r = ieee::value(bbq::l2_from_bits(m, ctx, lower, upper, bits, query.len(), bd));
            let gaps = rounding::whole_gaps(query, row, query.len());
            let off = ieee::size(r * r - gaps);
            &&& rounding::parts() * off <= (17 * n * n + 260 * n + 252) * (high * ieee::one())
            &&& n <= 24 && high <= 2 * ieee::one() ==> 500 * off < ieee::one() * ieee::one()
            &&& n <= 24 && high <= 2 * ieee::one() && ieee::one() * ieee::one() <= 16 * gaps ==> {
                &&& ieee::one() <= 200 * r
                &&& (200 * r - ieee::one()) * (200 * r - ieee::one()) <= 40000 * gaps
                &&& 40000 * gaps <= (200 * r + ieee::one()) * (200 * r + ieee::one())
            }
            &&& 0 <= r
        }),
{
    let n = query.len() as int;
    let (o, p, h) = (ieee::one(), rounding::parts(), high);
    let ho = h * o;
    let nh = n * h;
    let (nho, nnho) = (n * ho, n * (n * ho));
    lemma_spread(n, bound, h);
    lemma_squared_near(m, query, centroid, bits, lower, upper, ctx, bound, h);
    let row = bbq::dequantized(m, centroid, bits, lower, upper);
    let bd = bbq::binary_dot(m, ctx.qc@, bits, query.len());
    let squared = bbq::squared_from_bits(m, ctx, lower, upper, bits, query.len(), bd);
    let gaps = rounding::whole_gaps(query, row, query.len());
    lemma_gaps_not_negative(query, row, query.len());
    let top = 19 * nh + 24 * h;
    assert(nh <= 1024 * h) by (nonlinear_arith)
        requires
            nh == n * h,
            n <= 1024,
            0 < h,
    ;
    lemma_clamped_root(m, squared, top, gaps);
    assert(top * o == 19 * nho + 24 * ho && (17 * n * n + 146 * n + 108) * ho == 17 * nnho + 146
        * nho + 108 * ho && (17 * n * n + 260 * n + 252) * ho == 17 * nnho + 260 * nho + 252 * ho)
        by (nonlinear_arith)
        requires
            top == 19 * nh + 24 * h,
            nh == n * h,
            ho == h * o,
            nho == n * ho,
            nnho == n * (n * ho),
    ;
    let r = ieee::value(bbq::l2_from_bits(m, ctx, lower, upper, bits, query.len(), bd));
    let off = ieee::size(r * r - gaps);
    if n <= 24 && h <= 2 * o {
        let oo = o * o;
        let roundings = 17 * n * n + 260 * n + 252;
        assert(roundings <= 16284) by (nonlinear_arith)
            requires
                roundings == 17 * n * n + 260 * n + 252,
                0 <= n <= 24,
        ;
        assert(0 < oo && roundings * ho <= 32568 * oo) by (nonlinear_arith)
            requires
                roundings <= 16284,
                ho == h * o,
                0 < h <= 2 * o,
                oo == o * o,
        ;
        if oo <= 16 * gaps {
            let rr = r * r;
            let ro = r * o;
            assert(50 * r >= 12 * o) by (nonlinear_arith)
                requires
                    17 * rr >= oo,
                    rr == r * r,
                    oo == o * o,
                    0 <= r,
                    0 < o,
            ;
            assert(50 * ro >= 12 * oo) by (nonlinear_arith)
                requires
                    50 * r >= 12 * o,
                    ro == r * o,
                    oo == o * o,
                    0 < o,
            ;
            assert((200 * r - o) * (200 * r - o) == 40000 * rr - 400 * ro + oo && (200 * r + o)
                * (200 * r + o) == 40000 * rr + 400 * ro + oo) by (nonlinear_arith)
                requires
                    rr == r * r,
                    ro == r * o,
                    oo == o * o,
            ;
        }
    }
}

} // verus!
