//! How far distances taken from 1-bit codes can lie from the distances to the rows that
//! the codes stand for, in IEEE arithmetic.

use vstd::prelude::*;

use crate::arith;
use crate::arith::{Calc, Op};
use crate::bbq;
use crate::bbq::BbqDotCtx;
use crate::floatbits;
use crate::floatbits::ONE_BITS;
use crate::ieee;
use crate::metric;
use crate::rounding;

verus! {

/// The sum of the first `n` entries of a row whose flag is set.
pub open spec fn set_sum(a: Seq<u32>, flags: Seq<bool>, n: nat) -> int
    decreases n,
{
    if n == 0 {
        0
    } else {
        set_sum(a, flags, (n - 1) as nat) + if flags[n - 1] {
            ieee::value(a[n - 1])
        } else {
            0
        }
    }
}

/// The inner product of the first `n` entries of a row with a centroid to which each flag
/// adds one of two numbers.
spec fn whole_along(
    a: Seq<u32>,
    centroid: Seq<u32>,
    flags: Seq<bool>,
    lower: int,
    upper: int,
    n: nat,
) -> int
    decreases n,
{
    if n == 0 {
        0
    } else {
        whole_along(a, centroid, flags, lower, upper, (n - 1) as nat)
            + ieee::value(a[n - 1]) * (ieee::value(
            centroid[n - 1],
        ) + if flags[n - 1] {
            upper
        } else {
            lower
        })
    }
}

/// The sum of the entries at set bits.
pub(crate) proof fn lemma_set_sum(
    m: Calc,
    a: Seq<u32>,
    flags: Seq<bool>,
    bound: int,
    top: int,
    n: nat,
)
    requires
        ieee::is_ieee(m),
        rounding::small(bound, a),
        n <= a.len(),
        n <= flags.len(),
        0 <= bound,
        0 <= top < ieee::limit(),
        n * (bound + rounding::slack_for(top)) <= top,
    ensures
        ({
            let sum = arith::total(m, 0, bbq::chosen(a, flags, n, true));
            &&& floatbits::is_finite(sum)
            &&& rounding::near(ieee::value(sum), set_sum(a, flags, n), n * rounding::slack_for(top))
            &&& rounding::near(ieee::value(sum), 0, n * (bound + rounding::slack_for(top)))
            &&& rounding::near(set_sum(a, flags, n), 0, n * bound)
        }),
    decreases n,
{
    let slack = rounding::slack_for(top);
    rounding::lemma_slack(top);
    if n > 0 {
        let before = bbq::chosen(a, flags, (n - 1) as nat, true);
        assert((n - 1) * (bound + slack) + (bound + slack) == n * (bound + slack) && (n - 1) * slack
            + slack == n * slack && (n - 1) * bound + bound == n * bound && 0 <= (n - 1) * (bound
            + slack)) by (nonlinear_arith)
            requires
                0 <= bound,
                0 < slack,
                1 <= n,
        ;
        lemma_set_sum(m, a, flags, bound, top, (n - 1) as nat);
        assert(before.push(a[n - 1]).drop_last() =~= before);
        assert(rounding::near(ieee::value(a[n - 1]), 0, bound));
        if flags[n - 1] {
            rounding::lemma_add(m, arith::total(m, 0, before), a[n - 1], top);
        }
    } else {
        ieee::lemma_one();
        assert(n * slack == 0 && n * (bound + slack) == 0 && n * bound == 0) by (nonlinear_arith)
            requires
                n == 0,
        ;
    }
}

/// The inner product, taken apart.
proof fn lemma_along_parts(
    a: Seq<u32>,
    centroid: Seq<u32>,
    flags: Seq<bool>,
    lower: int,
    upper: int,
    n: nat,
)
    ensures
        whole_along(a, centroid, flags, lower, upper, n)
            == rounding::whole_dot(a, centroid, n) + lower
            * rounding::whole_sum(a, n) + (upper - lower) * set_sum(a, flags, n),
    decreases n,
{
    if n > 0 {
        let k = (n - 1) as nat;
        lemma_along_parts(a, centroid, flags, lower, upper, k);
        let (x, c) = (ieee::value(a[n - 1]), ieee::value(centroid[n - 1]));
        let (s, t) = (rounding::whole_sum(a, k), set_sum(a, flags, k));
        let gap = upper - lower;
        assert(lower * (s + x) == lower * s + lower * x && gap * (t + x) == gap * t + gap * x && x
            * (c + upper) == x * c + x * upper && x * (c + lower) == x * c + x * lower && gap * x
            == x * upper - x * lower && lower * x == x * lower && gap * (t + 0) == gap * t)
            by (nonlinear_arith)
            requires
                gap == upper - lower,
        ;
    } else {
        assert(lower * 0 == 0 && (upper - lower) * 0 == 0) by (nonlinear_arith);
    }
}

/// The row that bits stand for is near what it should be.
proof fn lemma_along_row(
    m: Calc,
    a: Seq<u32>,
    centroid: Seq<u32>,
    bits: Seq<u8>,
    lower: u32,
    upper: u32,
    bound: int,
    n: nat,
)
    requires
        ieee::is_ieee(m),
        rounding::small(bound, a),
        rounding::small(bound, centroid),
        rounding::small(bound, seq![lower, upper]),
        0 <= bound,
        2 * bound < ieee::limit(),
        n <= a.len(),
        a.len() == centroid.len(),
    ensures
        rounding::near(
            rounding::whole_dot(a, bbq::dequantized(m, centroid, bits, lower, upper), n),
            whole_along(
                a,
                centroid,
                bbq::row_flags(bits, a.len()),
                ieee::value(lower),
                ieee::value(upper),
                n,
            ),
            n * (rounding::slack_for(2 * bound) * bound),
        ),
    decreases n,
{
    if n > 0 {
        let k = n - 1;
        lemma_along_row(m, a, centroid, bits, lower, upper, bound, k as nat);
        let row = bbq::dequantized(m, centroid, bits, lower, upper);
        let level = if bbq::row_flags(bits, a.len())[k] {
            upper
        } else {
            lower
        };
        let levels = seq![lower, upper];
        assert(levels[0] == lower && levels[1] == upper);
        assert(rounding::near(ieee::value(a[k]), 0, bound)
            && rounding::near(ieee::value(centroid[k]), 0, bound));
        assert(row[k] == m(Op::Add, centroid[k], level));
        rounding::lemma_add(m, centroid[k], level, 2 * bound);
        let (x, y, z) = (ieee::value(a[k]), ieee::value(row[k]),
            ieee::value(centroid[k]) + ieee::value(level));
        let slack = rounding::slack_for(2 * bound);
        assert(-(slack * bound) <= x * y - x * z <= slack * bound) by (nonlinear_arith)
            requires
                -bound <= x <= bound,
                -slack <= y - z <= slack,
        ;
        let e = slack * bound;
        assert(k * e + e == n * e) by (nonlinear_arith)
            requires
                k == n - 1,
        ;
    }
}

/// What rounding sums and products adds up to.
proof fn lemma_slacks(n: int, h: int, f0: int, f1: int, f2: int, f4: int)
    requires
        0 <= n,
        rounding::parts() * f0 <= 2 * h,
        rounding::parts() * f1 <= n * h + 2 * h,
        rounding::parts() * f2 <= 2 * (n * h) + 4 * h,
        rounding::parts() * f4 <= 4 * (n * h) + 11 * h,
    ensures
        ({
            let o = ieee::one();
            let slacks = n * (f0 * o) + n * (f1 * o) + f1 * o + 2 * (f2 * o) + 2 * (f4 * o);
            let ho = h * o;
            rounding::parts() * slacks <= n * (n * ho) + 17 * (n * ho) + 32 * ho
        }),
{
    let (p, o, nh) = (rounding::parts(), ieee::one(), n * h);
    let ho = h * o;
    let (no, nho) = (n * o, n * ho);
    ieee::lemma_one();
    let (p0, p1, p2, p4) = (p * f0, p * f1, p * f2, p * f4);
    assert(0 <= no) by (nonlinear_arith)
        requires
            no == n * o,
            0 <= n,
            0 < o,
    ;
    assert(p * (n * (f0 * o)) == p0 * no && p * (n * (f1 * o)) == p1 * no && p * (f1 * o) == p1 * o
        && p * (f2 * o) == p2 * o && p * (f4 * o) == p4 * o) by (nonlinear_arith)
        requires
            p0 == p * f0,
            p1 == p * f1,
            p2 == p * f2,
            p4 == p * f4,
            no == n * o,
    ;
    assert(p0 * no <= (2 * h) * no && p1 * no <= (nh + 2 * h) * no) by (nonlinear_arith)
        requires
            p0 <= 2 * h,
            p1 <= nh + 2 * h,
            0 <= no,
    ;
    assert(p1 * o <= (nh + 2 * h) * o && p2 * o <= (2 * nh + 4 * h) * o && p4 * o <= (4 * nh + 11
        * h) * o) by (nonlinear_arith)
        requires
            p1 <= nh + 2 * h,
            p2 <= 2 * nh + 4 * h,
            p4 <= 4 * nh + 11 * h,
            0 < o,
    ;
    assert((2 * h) * no == 2 * nho && (nh + 2 * h) * no == n * nho + 2 * nho) by (nonlinear_arith)
        requires
            nh == n * h,
            no == n * o,
            nho == n * ho,
            ho == h * o,
    ;
    assert((nh + 2 * h) * o == nho + 2 * ho && (2 * nh + 4 * h) * o == 2 * nho + 4 * ho && (4 * nh
        + 11 * h) * o == 4 * nho + 11 * ho) by (nonlinear_arith)
        requires
            nh == n * h,
            nho == n * ho,
            ho == h * o,
    ;
    let slacks = n * (f0 * o) + n * (f1 * o) + f1 * o + 2 * (f2 * o) + 2 * (f4 * o);
    assert(p * slacks == p * (n * (f0 * o)) + p * (n * (f1 * o)) + p * (f1 * o) + 2 * (p * (f2 * o))
        + 2 * (p * (f4 * o))) by (nonlinear_arith)
        requires
            slacks == n * (f0 * o) + n * (f1 * o) + f1 * o + 2 * (f2 * o) + 2 * (f4 * o),
    ;
}

/// What levels make of rounded sums and gaps.
proof fn lemma_moved(n: int, b: int, eg: int, s1: int)
    requires
        0 <= n,
        0 < b,
        0 <= s1,
        0 <= n * eg <= b,
        rounding::parts() * s1 <= n * b + 2 * b,
        rounding::parts() * eg <= 3 * b,
    ensures
        ({
            let ns = n * s1;
            let moved = b * ns + (2 * b + eg) * ns + eg * (n * b) + n * (eg * b);
            let bb = b * b;
            rounding::parts() * moved <= 3 * (n * (n * bb)) + 13 * (n * bb) + 2 * bb
        }),
{
    let (p, bb, nb, ns) = (rounding::parts(), b * b, n * b, n * s1);
    let nbb = n * bb;
    let (ps, pe, ne) = (p * s1, p * eg, n * eg);
    let moved = b * ns + (2 * b + eg) * ns + eg * nb + n * (eg * b);
    assert(moved == s1 * (3 * nb) + s1 * ne + 2 * (eg * nb)) by (nonlinear_arith)
        requires
            moved == b * ns + (2 * b + eg) * ns + eg * nb + n * (eg * b),
            ns == n * s1,
            nb == n * b,
            ne == n * eg,
    ;
    let (x, y, z) = (s1 * (3 * nb), s1 * ne, eg * nb);
    assert(p * x == ps * (3 * nb)) by (nonlinear_arith)
        requires
            x == s1 * (3 * nb),
            ps == p * s1,
    ;
    assert(p * y == ps * ne) by (nonlinear_arith)
        requires
            y == s1 * ne,
            ps == p * s1,
    ;
    assert(p * z == pe * nb) by (nonlinear_arith)
        requires
            z == eg * nb,
            pe == p * eg,
    ;
    assert(p * moved == p * x + p * y + 2 * (p * z)) by (nonlinear_arith)
        requires
            moved == x + y + 2 * z,
    ;
    assert(0 <= nb) by (nonlinear_arith)
        requires
            nb == n * b,
            0 <= n,
            0 < b,
    ;
    assert(ps * (3 * nb) <= (nb + 2 * b) * (3 * nb) && pe * nb <= (3 * b) * nb)
        by (nonlinear_arith)
        requires
            ps <= nb + 2 * b,
            pe <= 3 * b,
            0 <= nb,
    ;
    assert(ps * ne <= (nb + 2 * b) * b) by (nonlinear_arith)
        requires
            0 <= ps <= nb + 2 * b,
            0 <= ne <= b,
    ;
    assert((nb + 2 * b) * (3 * nb) == 3 * (n * nbb) + 6 * nbb && (nb + 2 * b) * b == nbb + 2 * bb
        && (3 * b) * nb == 3 * nbb) by (nonlinear_arith)
        requires
            nb == n * b,
            bb == b * b,
            nbb == n * bb,
    ;
}

/// The inner product taken from a row's bits.
proof fn lemma_similarity(
    m: Calc,
    query: Seq<u32>,
    centroid: Seq<u32>,
    bits: Seq<u8>,
    lower: u32,
    upper: u32,
    ctx: BbqDotCtx,
    bound: int,
    high: int,
)
    requires
        ieee::is_ieee(m),
        query.len() <= 1024,
        ieee::one() <= bound <= high <= 1024 * ieee::one(),
        bound * bound <= high * ieee::one(),
        query.len() == centroid.len(),
        rounding::small(bound, query),
        rounding::small(bound, centroid),
        rounding::small(bound, seq![lower, upper]),
        ctx.qc_dot == arith::total(m, 0, metric::products(m, query, centroid)),
        ctx.q_sum == arith::total(m, 0, query),
    ensures
        ({
            let (n, o, b, h) = (query.len() as int, ieee::one(), bound, high);
            let (nb, nh) = (n * b, n * h);
            let (eg, s1) = (rounding::slack_for(2 * b), rounding::slack_for(nb + b));
            let (f0, f1) = (rounding::slack_for(h), rounding::slack_for(nh + h));
            let (f2, f4) = (rounding::slack_for(2 * nh + 3 * h),
                rounding::slack_for(4 * nh + 10 * h));
            let row = bbq::dequantized(m, centroid, bits, lower, upper);
            let bd = bbq::binary_dot(m, query, bits, query.len());
            let similarity = m(
                Op::Add,
                m(Op::Add, ctx.qc_dot, m(Op::Mul, lower, ctx.q_sum)),
                m(Op::Mul, m(Op::Sub, upper, lower), bd),
            );
            let slacks = n * (f0 * o) + n * (f1 * o) + f1 * o + 2 * (f2 * o) + f4 * o;
            let ns = n * s1;
            let moved = b * ns + (2 * b + eg) * ns + eg * nb + n * (eg * b);
            &&& floatbits::is_finite(similarity)
            &&& rounding::near(ieee::value(similarity), 0, 4 * nh + 9 * h)
            &&& rounding::near(o * ieee::value(similarity),
                rounding::whole_dot(query, row, query.len()), slacks + moved)
            &&& 0 <= n * eg <= b
        }),
{
    let n = query.len() as int;
    let (o, b, h) = (ieee::one(), bound, high);
    rounding::lemma_limit();
    let flags = bbq::row_flags(bits, query.len());
    let row = bbq::dequantized(m, centroid, bits, lower, upper);
    let bd = bbq::binary_dot(m, query, bits, query.len());
    let levels = seq![lower, upper];
    assert(levels[0] == lower && levels[1] == upper);
    let (l, u) = (ieee::value(lower), ieee::value(upper));
    let (nb, nh) = (n * b, n * h);
    let (t1, h1, h2, h4) = (nb + b, nh + h, 2 * nh + 3 * h, 4 * nh + 10 * h);
    let (eg, s1) = (rounding::slack_for(2 * b), rounding::slack_for(t1));
    let (f0, f1, f2, f4) = (rounding::slack_for(h), rounding::slack_for(h1),
        rounding::slack_for(h2), rounding::slack_for(h4));
    assert(0 <= nb <= 1024 * b && 0 <= nh <= 1024 * h) by (nonlinear_arith)
        requires
            nb == n * b,
            nh == n * h,
            0 <= n <= 1024,
            0 < b,
            0 < h,
    ;
    rounding::lemma_slack(2 * b);
    rounding::lemma_slack(t1);
    rounding::lemma_slack(h);
    rounding::lemma_slack(h1);
    rounding::lemma_slack(h2);
    rounding::lemma_slack(h4);
    assert(0 <= n * s1 <= b && n * (f0 + f1) <= h && n * eg <= b && (n + 1) * eg <= b && 0 <= n
        * eg) by (nonlinear_arith)
        requires
            0 <= n <= 1024,
            0 < s1,
            0 < f0,
            0 < f1,
            0 < eg,
            2048 * s1 <= b,
            2048 * (f0 + f1) <= h,
            2048 * eg <= b,
    ;
    assert(n * (b + s1) == nb + n * s1 && n * (h + f0 + f1) == nh + n * (f0 + f1))
        by (nonlinear_arith)
        requires
            nb == n * b,
            nh == n * h,
    ;
    rounding::lemma_dot_near(m, query, centroid, b, h, h1);
    rounding::lemma_total_near(m, 0, 0, query, b, t1);
    lemma_set_sum(m, query, flags, b, t1, query.len());
    lemma_along_parts(query, centroid, flags, l, u, query.len());
    lemma_along_row(m, query, centroid, bits, lower, upper, b, query.len());
    let qc = rounding::whole_dot(query, centroid, query.len());
    let qs = rounding::whole_sum(query, query.len());
    let ss = set_sum(query, flags, query.len());
    let (sum, k) = (ieee::value(ctx.q_sum), ieee::value(bd));
    let ns = n * s1;
    // The lower level.
    let first = m(Op::Mul, lower, ctx.q_sum);
    rounding::lemma_bounded_product(l, sum, b, t1);
    assert(b * t1 <= h1 * o) by (nonlinear_arith)
        requires
            t1 == nb + b,
            h1 == nh + h,
            nb == n * b,
            nh == n * h,
            b * b <= h * o,
            0 <= n,
    ;
    rounding::lemma_mul(m, lower, ctx.q_sum, h1);
    rounding::lemma_bounded_product(l, sum - qs, b, ns);
    assert(l * (sum - qs) == l * sum - l * qs) by (nonlinear_arith);
    // The gap between the levels.
    let gap = m(Op::Sub, upper, lower);
    rounding::lemma_sub(m, upper, lower, 2 * b);
    let g = ieee::value(gap);
    let e = 2 * b + eg;
    let second = m(Op::Mul, gap, bd);
    rounding::lemma_bounded_product(g, k, e, t1);
    assert(e * t1 <= h2 * o) by (nonlinear_arith)
        requires
            e == 2 * b + eg,
            t1 == nb + b,
            h2 == 2 * nh + 3 * h,
            nb == n * b,
            nh == n * h,
            b * b <= h * o,
            (n + 1) * eg <= b,
            0 <= n,
            0 < b,
    ;
    rounding::lemma_mul(m, gap, bd, h2);
    rounding::lemma_bounded_product(g, k - ss, e, ns);
    rounding::lemma_bounded_product(g - (u - l), ss, eg, nb);
    assert(g * k - (u - l) * ss == g * (k - ss) + (g - (u - l)) * ss) by (nonlinear_arith);
    // All together.
    let partial = m(Op::Add, ctx.qc_dot, first);
    let similarity = m(Op::Add, partial, second);
    ieee::lemma_one();
    rounding::lemma_add(m, ctx.qc_dot, first, h2);
    rounding::lemma_add(m, partial, second, h4);
    let (a1, v1, v2) = (ieee::value(ctx.qc_dot), ieee::value(first), ieee::value(second));
    let (w1, w2) = (ieee::value(partial), ieee::value(similarity));
    rounding::lemma_bounded_product(w1 - (a1 + v1), o, f2, o);
    rounding::lemma_bounded_product(w2 - (w1 + v2), o, f4, o);
    assert((w1 - (a1 + v1)) * o == o * w1 - o * a1 - o * v1 && (w2 - (w1 + v2)) * o == o * w2 - o
        * w1 - o * v2) by (nonlinear_arith);
}

/// In IEEE arithmetic, the dot product distance taken from a row's bits lies near that of the
/// query to the row that the bits stand for: off by no more than some four times the square
/// of the number of components, in parts of the last place of `high`, where no number is
/// larger than `bound`, nor its square than `high`; and for 32 components no larger than
/// one by less than five parts in ten thousand. It is never negative. (Distances are
/// compared in squares of the number one.)
pub proof fn dot_from_bits_is_near_the_distance(
    m: Calc,
    query: Seq<u32>,
    centroid: Seq<u32>,
    bits: Seq<u8>,
    lower: u32,
    upper: u32,
    ctx: BbqDotCtx,
    bound: int,
    high: int,
)
    requires
        ieee::is_ieee(m),
        query.len() <= 1024,
        ieee::one() <= bound <= high <= 1024 * ieee::one(),
        bound * bound <= high * ieee::one(),
        query.len() == centroid.len(),
        rounding::small(bound, query),
        rounding::small(bound, centroid),
        rounding::small(bound, seq![lower, upper]),
        ctx.qc_dot == arith::total(m, 0, metric::products(m, query, centroid)),
        ctx.q_sum == arith::total(m, 0, query),
    ensures
        ({
            let n = query.len() as int;
            let row = bbq::dequantized(m, centroid, bits, lower, upper);
            let bd = bbq::binary_dot(m, query, bits, query.len());
            let result = ieee::value(bbq::dot_from_bits(m, ctx, lower, upper, bd));
            let aim = rounding::not_below_zero(
                ieee::one() * ieee::one() - rounding::whole_dot(query, row, query.len()),
            );
            let off = ieee::size(ieee::one() * result - aim);
            &&& rounding::parts() * off <= (4 * n * n + 30 * n + 34) * (high * ieee::one())
            &&& n <= 32 && high == ieee::one() ==> 10000 * off < 5 * (ieee::one() * ieee::one())
            &&& 0 <= result
        }),
{
    let n = query.len() as int;
    let (o, b, h) = (ieee::one(), bound, high);
    rounding::lemma_limit();
    let row = bbq::dequantized(m, centroid, bits, lower, upper);
    let bd = bbq::binary_dot(m, query, bits, query.len());
    let (nb, nh) = (n * b, n * h);
    let (t1, h1, h2, h4) = (nb + b, nh + h, 2 * nh + 3 * h, 4 * nh + 10 * h);
    let (eg, s1) = (rounding::slack_for(2 * b), rounding::slack_for(t1));
    let (f0, f1, f2, f4) = (rounding::slack_for(h), rounding::slack_for(h1),
        rounding::slack_for(h2), rounding::slack_for(h4));
    assert(0 <= nb <= 1024 * b && 0 <= nh <= 1024 * h) by (nonlinear_arith)
        requires
            nb == n * b,
            nh == n * h,
            0 <= n <= 1024,
            0 < b,
            0 < h,
    ;
    rounding::lemma_slack(2 * b);
    rounding::lemma_slack(t1);
    rounding::lemma_slack(h);
    rounding::lemma_slack(h1);
    rounding::lemma_slack(h2);
    rounding::lemma_slack(h4);
    lemma_similarity(m, query, centroid, bits, lower, upper, ctx, b, h);
    let similarity = m(
        Op::Add,
        m(Op::Add, ctx.qc_dot, m(Op::Mul, lower, ctx.q_sum)),
        m(Op::Mul, m(Op::Sub, upper, lower), bd),
    );
    let distance = m(Op::Sub, ONE_BITS, similarity);
    ieee::lemma_one();
    rounding::lemma_sub(m, ONE_BITS, similarity, h4);
    let (w2, d) = (ieee::value(similarity), ieee::value(distance));
    rounding::lemma_bounded_product(d - (o - w2), o, f4, o);
    assert((d - (o - w2)) * o == o * d - o * o + o * w2) by (nonlinear_arith);
    let (ns, e) = (n * s1, 2 * b + eg);
    let slacks = n * (f0 * o) + n * (f1 * o) + f1 * o + 2 * (f2 * o) + 2 * (f4 * o);
    let moved = b * ns + e * ns + eg * nb + n * (eg * b);
    let x = slacks + moved;
    let aim = o * o - rounding::whole_dot(query, row, query.len());
    assert(rounding::near(o * d, aim, x));
    // In parts of the last place.
    let p = rounding::parts();
    let (bb, ho) = (b * b, h * o);
    let (nho, nnho) = (n * ho, n * (n * ho));
    lemma_slacks(n, h, f0, f1, f2, f4);
    let (nbb, nnbb) = (n * bb, n * (n * bb));
    lemma_moved(n, b, eg, s1);
    assert(nbb <= nho && nnbb <= nnho) by (nonlinear_arith)
        requires
            bb <= ho,
            nbb == n * bb,
            nnbb == n * (n * bb),
            nho == n * ho,
            nnho == n * (n * ho),
            0 <= n,
    ;
    let roundings = 4 * n * n + 30 * n + 34;
    assert(roundings * ho == 4 * nnho + 30 * nho + 34 * ho && p * x == p * slacks + p * moved)
        by (nonlinear_arith)
        requires
            roundings == 4 * n * n + 30 * n + 34,
            nho == n * ho,
            nnho == n * (n * ho),
            x == slacks + moved,
    ;
    assert(p * x <= roundings * ho);
    ieee::lemma_value_order(0, distance);
    assert((d <= 0 ==> o * d <= 0 && o * 0 == 0) && (d > 0 ==> o * d > 0)) by (nonlinear_arith)
        requires
            0 < o,
    ;
    let result = ieee::value(bbq::dot_from_bits(m, ctx, lower, upper, bd));
    let off = ieee::size(o * result - rounding::not_below_zero(aim));
    assert(off <= x);
    assert(p * off <= p * x) by (nonlinear_arith)
        requires
            off <= x,
            0 < p,
    ;
    if n <= 32 && h == o {
        assert(roundings <= 5090) by (nonlinear_arith)
            requires
                roundings == 4 * n * n + 30 * n + 34,
                0 <= n <= 32,
        ;
        assert(0 < ho && roundings * ho <= 5090 * ho) by (nonlinear_arith)
            requires
                roundings <= 5090,
                ho == h * o,
                h == o,
                0 < o,
        ;
    }
}

} // verus!
