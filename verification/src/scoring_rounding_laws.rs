//! How far scores taken from packed codes can lie from what the codes stand for, in IEEE
//! arithmetic.

use vstd::prelude::*;

use crate::arith;
use crate::arith::{Calc, Op};
use crate::floatbits;
use crate::floatbits::ONE_BITS;
use crate::ieee;
use crate::ieee::FRACTION;
use crate::rotation;
use crate::rounding;
use crate::scoring;
use crate::turboquant;
use crate::turboquant::{Calibration, Levels};

verus! {

/// Whether levels are finite and lie between minus one and one, shifts and rotated components
/// between minus two and two, and scales are finite and positive, and not tiny.
pub open spec fn moderate(rot: Seq<u32>, c: Levels, t: Calibration) -> bool {
    &&& rounding::small(2 * ieee::one(), rot)
    &&& rounding::small(ieee::one(), c.centroids)
    &&& rounding::small(2 * ieee::one(), t.shift)
    &&& forall|i: int|
        0 <= i < rot.len()
            ==> floatbits::is_finite(#[trigger] t.scale[i]) && ieee::one() <= 0x100_0000
            * ieee::value(t.scale[i])
    &&& t.shift.len() >= rot.len()
    &&& t.scale.len() >= rot.len()
}

/// The quotient of the level of code `i` by its scale.
pub open spec fn quotient(m: Calc, packed: Seq<u8>, c: Levels, t: Calibration, i: int) -> u32 {
    m(Op::Div, c.centroids[turboquant::code_at(packed, i) as int], t.scale[i])
}

/// The sizes of the products of the first `n` rotated components with the quotients of their
/// levels and with their shifts, added up.
pub open spec fn mass(
    m: Calc,
    rot: Seq<u32>,
    packed: Seq<u8>,
    c: Levels,
    t: Calibration,
    n: nat,
) -> int
    decreases n,
{
    if n == 0 {
        0
    } else {
        mass(m, rot, packed, c, t, (n - 1) as nat)
            + ieee::size(ieee::value(rot[n - 1])) * (ieee::size(
            ieee::value(quotient(m, packed, c, t, n - 1)),
        ) + ieee::size(ieee::value(t.shift[n - 1])))
    }
}

/// The sizes of the first `n` entries of a row, added up.
spec fn sizes(a: Seq<u32>, n: nat) -> int
    decreases n,
{
    if n == 0 {
        0
    } else {
        sizes(a, (n - 1) as nat) + ieee::size(ieee::value(a[n - 1]))
    }
}

proof fn lemma_sizes_prefix(a: Seq<u32>, b: Seq<u32>, n: nat)
    requires
        n <= a.len(),
        n <= b.len(),
        forall|i: int| 0 <= i < n ==> #[trigger] a[i] == b[i],
    ensures
        sizes(a, n) == sizes(b, n),
        0 <= sizes(a, n),
    decreases n,
{
    if n > 0 {
        lemma_sizes_prefix(a, b, (n - 1) as nat);
    }
}

spec fn all_finite(a: Seq<u32>) -> bool {
    forall|i: int| 0 <= i < a.len() ==> floatbits::is_finite(#[trigger] a[i])
}

/// A sum of a first number and further ones.
proof fn lemma_total_sizes(m: Calc, from: u32, terms: Seq<u32>, top: int)
    requires
        ieee::is_ieee(m),
        floatbits::is_finite(from),
        all_finite(terms),
        0 <= top < ieee::limit(),
        ieee::size(ieee::value(from)) + sizes(terms, terms.len())
            + terms.len() * rounding::slack_for(top) <= top,
    ensures
        ({
            let sum = arith::total(m, from, terms);
            &&& floatbits::is_finite(sum)
            &&& rounding::near(
                ieee::value(sum),
                ieee::value(from) + rounding::whole_sum(terms, terms.len()),
                terms.len() * rounding::slack_for(top),
            )
            &&& ieee::size(ieee::value(sum))
                <= ieee::size(ieee::value(from)) + sizes(terms, terms.len()) + terms.len()
                * rounding::slack_for(top)
        }),
    decreases terms.len(),
{
    let n = terms.len() as int;
    let slack = rounding::slack_for(top);
    rounding::lemma_slack(top);
    if n > 0 {
        let before = terms.drop_last();
        assert((n - 1) * slack + slack == n * slack) by (nonlinear_arith);
        assert forall|i: int| 0 <= i < before.len() implies floatbits::is_finite(
            #[trigger] before[i],
        ) by {
            assert(before[i] == terms[i]);
        }
        rounding::lemma_whole_sum_prefix(terms, before, (n - 1) as nat);
        lemma_sizes_prefix(terms, before, (n - 1) as nat);
        lemma_total_sizes(m, from, before, top);
        assert(floatbits::is_finite(terms[n - 1]));
        rounding::lemma_add(m, arith::total(m, from, before), terms[n - 1], top);
    } else {
        assert(n * slack == 0) by (nonlinear_arith)
            requires
                n == 0,
        ;
    }
}

/// Numbers taken off zero, one by one.
proof fn lemma_reduced_sizes(m: Calc, terms: Seq<u32>, top: int)
    requires
        ieee::is_ieee(m),
        all_finite(terms),
        0 <= top < ieee::limit(),
        sizes(terms, terms.len()) + terms.len() * rounding::slack_for(top) <= top,
    ensures
        ({
            let rest = scoring::reduced(m, 0, terms);
            &&& floatbits::is_finite(rest)
            &&& rounding::near(
                ieee::value(rest),
                -rounding::whole_sum(terms, terms.len()),
                terms.len() * rounding::slack_for(top),
            )
            &&& ieee::size(ieee::value(rest))
                <= sizes(terms, terms.len()) + terms.len() * rounding::slack_for(top)
        }),
    decreases terms.len(),
{
    let n = terms.len() as int;
    let slack = rounding::slack_for(top);
    rounding::lemma_slack(top);
    if n > 0 {
        let before = terms.drop_last();
        assert((n - 1) * slack + slack == n * slack) by (nonlinear_arith);
        assert forall|i: int| 0 <= i < before.len() implies floatbits::is_finite(
            #[trigger] before[i],
        ) by {
            assert(before[i] == terms[i]);
        }
        rounding::lemma_whole_sum_prefix(terms, before, (n - 1) as nat);
        lemma_sizes_prefix(terms, before, (n - 1) as nat);
        lemma_reduced_sizes(m, before, top);
        assert(floatbits::is_finite(terms[n - 1]));
        rounding::lemma_sub(m, scoring::reduced(m, 0, before), terms[n - 1], top);
    } else {
        ieee::lemma_one();
        assert(n * slack == 0) by (nonlinear_arith)
            requires
                n == 0,
        ;
    }
}

/// The product of the quotient of a first number with a second is near the product of the
/// first with the quotient of the second.
proof fn lemma_moved_quotient(o: int, q: int, k: int, w: int, d: int, f: int, c: int)
    requires
        0 < o,
        0 < w,
        rounding::near(q, 0, 2 * o),
        rounding::near(k, 0, o),
        rounding::parts() * ieee::size(d * w - o * q) <= ieee::size(o * q) + FRACTION * w,
        rounding::parts() * ieee::size(f * w - o * k) <= ieee::size(o * k) + FRACTION * w,
        rounding::parts() * ieee::size(o * c - d * k) <= ieee::size(d * k) + FRACTION * o,
    ensures
        rounding::parts() * ieee::size(o * c - q * f)
            <= 4 * ieee::size(q * f) + 4 * rounding::parts() * o,
{
    let (p, h) = (rounding::parts(), FRACTION as int);
    let z = ieee::size(q) * ieee::size(k) * o;
    let (e1, e2, e3) = (d * w - o * q, f * w - o * k, o * c - d * k);
    let (sq, sk) = (ieee::size(q), ieee::size(k));
    assert(ieee::size(o * q) == o * sq && ieee::size(o * k) == o * sk) by (nonlinear_arith)
        requires
            0 < o,
            sq == if q < 0 {
                -q
            } else {
                q
            },
            sk == if k < 0 {
                -k
            } else {
                k
            },
            ieee::size(o * q) == if o * q < 0 {
                -(o * q)
            } else {
                o * q
            },
            ieee::size(o * k) == if o * k < 0 {
                -(o * k)
            } else {
                o * k
            },
    ;
    lemma_size_product(e1, k);
    lemma_size_product(q, e2);
    lemma_size_product(q, k);
    lemma_size_product(q, f);
    lemma_size_product(d, k);
    let (se1, se2) = (ieee::size(e1), ieee::size(e2));
    // What the two quotients are off, each times the other number.
    assert(p * (se1 * sk) <= z + h * w * sk) by (nonlinear_arith)
        requires
            p * se1 <= o * sq + h * w,
            z == sq * sk * o,
            0 <= sk,
    ;
    assert(p * (sq * se2) <= z + h * w * sq) by (nonlinear_arith)
        requires
            p * se2 <= o * sk + h * w,
            z == sq * sk * o,
            0 <= sq,
    ;
    let hwo = h * w * o;
    assert(h * w * sk <= hwo && h * w * sq <= 2 * hwo && 0 < hwo) by (nonlinear_arith)
        requires
            0 <= sk <= o,
            0 <= sq <= 2 * o,
            0 < w,
            0 < h,
            0 < o,
            hwo == h * w * o,
    ;
    assert((d * k - q * f) * w == e1 * k - q * e2) by (nonlinear_arith)
        requires
            e1 == d * w - o * q,
            e2 == f * w - o * k,
    ;
    let g = d * k - q * f;
    assert(ieee::size(g) * w == ieee::size(g * w)) by (nonlinear_arith)
        requires
            0 < w,
            ieee::size(g) == if g < 0 {
                -g
            } else {
                g
            },
            ieee::size(g * w) == if g * w < 0 {
                -(g * w)
            } else {
                g * w
            },
    ;
    let gw = ieee::size(g) * w;
    assert(gw <= se1 * sk + sq * se2);
    // The first product.
    let dk = ieee::size(d * k);
    assert(d * k * w == e1 * k + o * q * k) by (nonlinear_arith)
        requires
            e1 == d * w - o * q,
    ;
    assert(dk * w <= se1 * sk + z) by (nonlinear_arith)
        requires
            d * k * w == e1 * k + o * q * k,
            ieee::size(e1 * k) == se1 * sk,
            ieee::size(e1 * k) >= e1 * k,
            ieee::size(e1 * k) >= -(e1 * k),
            ieee::size(q * k) == sq * sk,
            ieee::size(q * k) >= q * k,
            ieee::size(q * k) >= -(q * k),
            z == sq * sk * o,
            dk == d * k || dk == -(d * k),
            0 < w,
            0 < o,
    ;
    let (ew, es) = (ieee::size(e3) * w, ieee::size(e3));
    assert(p * ew <= dk * w + hwo) by (nonlinear_arith)
        requires
            ew == es * w,
            p * es <= dk + h * o,
            hwo == h * w * o,
            0 < w,
    ;
    // How large the products are.
    let qf = ieee::size(q * f);
    let qfw = qf * w;
    assert(q * e2 == q * f * w - o * (q * k)) by (nonlinear_arith)
        requires
            e2 == f * w - o * k,
    ;
    assert(z <= qfw + sq * se2) by (nonlinear_arith)
        requires
            q * e2 == q * f * w - o * (q * k),
            ieee::size(q * e2) == sq * se2,
            ieee::size(q * e2) >= q * e2,
            ieee::size(q * e2) >= -(q * e2),
            ieee::size(q * k) == sq * sk,
            ieee::size(q * k) == q * k || ieee::size(q * k) == -(q * k),
            qf >= q * f,
            qf >= -(q * f),
            qfw == qf * w,
            z == sq * sk * o,
            0 < w,
    ;
    // All together, times the scale.
    let t = ieee::size(o * c - q * f);
    assert(t <= es + ieee::size(g));
    let tw = t * w;
    assert(tw <= ew + gw) by (nonlinear_arith)
        requires
            t <= es + ieee::size(g),
            tw == t * w,
            ew == es * w,
            gw == ieee::size(g) * w,
            0 < w,
    ;
    assert(p * tw <= 4 * qfw + 8 * hwo);
    assert(8 * hwo == 4 * p * o * w) by (nonlinear_arith)
        requires
            hwo == h * w * o,
            p == 2 * h,
    ;
    assert(p * t <= 4 * qf + 4 * p * o) by (nonlinear_arith)
        requires
            p * tw <= 4 * qfw + 4 * p * o * w,
            tw == t * w,
            qfw == qf * w,
            0 < w,
    ;
}

proof fn lemma_size_product(x: int, y: int)
    ensures
        ieee::size(x * y) == ieee::size(x) * ieee::size(y),
{
    let (a, b) = (ieee::size(x), ieee::size(y));
    assert(x * y == a * b || x * y == -(a * b)) by (nonlinear_arith)
        requires
            a == x || a == -x,
            b == y || b == -y,
    ;
    assert(0 <= a * b) by (nonlinear_arith)
        requires
            0 <= a,
            0 <= b,
    ;
}

/// A table entry, what the shift takes off, and the component that the code stands for.
proof fn lemma_term(m: Calc, x: u32, level: u32, scale: u32, shift: u32)
    requires
        ieee::is_ieee(m),
        floatbits::is_finite(x),
        floatbits::is_finite(level),
        floatbits::is_finite(scale),
        floatbits::is_finite(shift),
        rounding::near(ieee::value(x), 0, 2 * ieee::one()),
        rounding::near(ieee::value(level), 0, ieee::one()),
        rounding::near(ieee::value(shift), 0, 2 * ieee::one()),
        ieee::one() <= 0x100_0000 * ieee::value(scale),
    ensures
        ({
            let f = ieee::value(m(Op::Div, level, scale));
            let y = ieee::value(turboquant::level_value(m, level, shift, scale));
            let c = m(Op::Mul, m(Op::Div, x, scale), level);
            let p = m(Op::Mul, x, shift);
            let (q, h) = (ieee::value(x), ieee::value(shift));
            let weight = ieee::size(q) * (ieee::size(f) + ieee::size(h));
            &&& floatbits::less(0, scale)
            &&& floatbits::is_finite(c)
            &&& floatbits::is_finite(p)
            &&& 0 <= weight
            &&& rounding::parts()
                * ieee::size(ieee::one() * (ieee::value(c) - ieee::value(p)) - q * y)
                    <= 5 * weight + 5 * (rounding::parts()
                * ieee::one())
            &&& rounding::parts()
                * (ieee::one() * (ieee::size(ieee::value(c)) + ieee::size(ieee::value(p))))
                    <= (rounding::parts() + 5) * weight + 5
                * (rounding::parts() * ieee::one())
        }),
{
    let (o, p) = (ieee::one(), rounding::parts());
    let (q, k, w, h) = (ieee::value(x), ieee::value(level), ieee::value(scale), ieee::value(shift));
    let reach = 0x200_0000 * o;
    rounding::lemma_limit();
    ieee::lemma_one();
    ieee::lemma_value_order(0, scale);
    assert(rounding::near(o * q, 0, reach * w)
        && rounding::near(o * k, 0, reach * w)) by (nonlinear_arith)
        requires
            rounding::near(q, 0, 2 * o),
            rounding::near(k, 0, o),
            reach == 0x200_0000 * o,
            o <= 0x100_0000 * w,
            0 < o,
    ;
    rounding::lemma_div(m, x, scale, reach);
    rounding::lemma_div(m, level, scale, reach);
    rounding::lemma_slack(reach);
    let quotient = m(Op::Div, x, scale);
    let fraction = m(Op::Div, level, scale);
    let (d, f) = (ieee::value(quotient), ieee::value(fraction));
    rounding::lemma_bounded_product(d, k, 2 * reach, o);
    rounding::lemma_mul(m, quotient, level, 2 * reach);
    rounding::lemma_bounded_product(q, h, 2 * o, 2 * o);
    assert((2 * o) * (2 * o) == (4 * o) * o) by (nonlinear_arith);
    rounding::lemma_mul(m, x, shift, 4 * o);
    rounding::lemma_sub(m, fraction, shift, 2 * reach);
    let c = ieee::value(m(Op::Mul, quotient, level));
    let taken = ieee::value(m(Op::Mul, x, shift));
    let y = ieee::value(m(Op::Sub, fraction, shift));
    lemma_moved_quotient(o, q, k, w, d, f, c);
    lemma_size_product(q, f);
    lemma_size_product(q, h);
    let (sq, sf, sh) = (ieee::size(q), ieee::size(f), ieee::size(h));
    let weight = sq * (sf + sh);
    assert(weight == sq * sf + sq * sh && 0 <= sq * sf && 0 <= sq * sh) by (nonlinear_arith)
        requires
            weight == sq * (sf + sh),
            0 <= sq,
            0 <= sf,
            0 <= sh,
    ;
    let off = y - (f - h);
    lemma_size_product(q, off);
    let so = ieee::size(off);
    assert(p * (sq * so) <= weight) by (nonlinear_arith)
        requires
            p * so <= sf + sh,
            0 <= sq,
            weight == sq * (sf + sh),
    ;
    assert(q * y == q * off + q * f - q * h) by (nonlinear_arith)
        requires
            off == y - (f - h),
    ;
    assert(o * (c - taken) == o * c - o * taken) by (nonlinear_arith);
    let po = p * o;
    assert(2 * (FRACTION * o) == po && 4 * p * o == 4 * po) by (nonlinear_arith)
        requires
            po == p * o,
            p == 2 * FRACTION,
    ;
    let (sc, st) = (ieee::size(o * c - q * f), ieee::size(o * taken - q * h));
    assert(ieee::size(o * (c - taken) - q * y) <= sc + st + sq * so);
    assert(p * ieee::size(o * (c - taken) - q * y) <= p * sc + p * st + p * (sq * so))
        by (nonlinear_arith)
        requires
            ieee::size(o * (c - taken) - q * y) <= sc + st + sq * so,
            0 < p,
    ;
    lemma_size_product(o, c);
    lemma_size_product(o, taken);
    let (oc, ot) = (o * ieee::size(c), o * ieee::size(taken));
    assert(o * (ieee::size(c) + ieee::size(taken)) == oc + ot) by (nonlinear_arith)
        requires
            oc == o * ieee::size(c),
            ot == o * ieee::size(taken),
    ;
    assert(oc <= sq * sf + sc && ot <= sq * sh + st);
    assert(p * (oc + ot) <= p * weight + p * sc + p * st) by (nonlinear_arith)
        requires
            oc + ot <= weight + sc + st,
            0 < p,
    ;
    assert((p + 5) * weight == p * weight + 5 * weight) by (nonlinear_arith);
}

/// What is added up for a row: its table entries, less what the shifts take off.
proof fn lemma_parts(
    m: Calc,
    rot: Seq<u32>,
    packed: Seq<u8>,
    c: Levels,
    t: Calibration,
    picked: Seq<u32>,
    taken: Seq<u32>,
    n: nat,
)
    requires
        ieee::is_ieee(m),
        moderate(rot, c, t),
        rot.len() == 2 * packed.len(),
        scoring::levels_known(packed, rot.len(), c),
        picked.len() == rot.len(),
        taken.len() == rot.len(),
        forall|i: int|
            0 <= i < rot.len() ==> #[trigger] picked[i] == scoring::contribution(
                m,
                rot[i],
                t.scale[i],
                c.centroids[turboquant::code_at(packed, i) as int],
            ),
        forall|i: int|
            0 <= i < rot.len() ==> #[trigger] taken[i] == m(Op::Mul, rot[i], t.shift[i]),
        n <= rot.len(),
    ensures
        forall|i: int| 0 <= i < n ==> floatbits::is_finite(#[trigger] picked[i]),
        forall|i: int| 0 <= i < n ==> floatbits::is_finite(#[trigger] taken[i]),
        ({
            let inner = rounding::whole_dot(rot, scoring::decoded(m, packed, rot.len(), c, t), n);
            let weight = mass(m, rot, packed, c, t, n);
            &&& 0 <= weight
            &&& rounding::parts()
                * ieee::size(ieee::one()
                    * (rounding::whole_sum(picked, n) - rounding::whole_sum(taken, n)) - inner) <= 5
                * weight + 5 * (n * (rounding::parts() * ieee::one()))
            &&& rounding::parts() * (ieee::one() * (sizes(picked, n) + sizes(taken, n)))
                <= (rounding::parts() + 5) * weight
                + 5 * (n * (rounding::parts() * ieee::one()))
        }),
    decreases n,
{
    let (o, p) = (ieee::one(), rounding::parts());
    let po = p * o;
    let y = scoring::decoded(m, packed, rot.len(), c, t);
    if n > 0 {
        let i = n - 1;
        let before = i as nat;
        lemma_parts(m, rot, packed, c, t, picked, taken, before);
        let level = c.centroids[turboquant::code_at(packed, i) as int];
        let scale = t.scale[i];
        assert(turboquant::code_at(packed, i) < c.centroids.len());
        assert(floatbits::is_finite(rot[i])
            && rounding::near(ieee::value(rot[i]), 0, 2 * ieee::one()));
        assert(floatbits::is_finite(level) && rounding::near(ieee::value(level), 0, ieee::one()));
        assert(floatbits::is_finite(t.shift[i])
            && rounding::near(ieee::value(t.shift[i]), 0, 2 * ieee::one()));
        lemma_term(m, rot[i], level, scale, t.shift[i]);
        assert(picked[i] == m(Op::Mul, m(Op::Div, rot[i], scale), level));
        assert(y[i] == turboquant::level_value(m, level, t.shift[i], scale));
        let (cs, ts) = (rounding::whole_sum(picked, before), rounding::whole_sum(taken, before));
        let (cv, tv) = (ieee::value(picked[i]), ieee::value(taken[i]));
        let (a, b) = (o * (cs - ts), o * (cv - tv));
        assert(o * (cs + cv - (ts + tv)) == a + b) by (nonlinear_arith)
            requires
                a == o * (cs - ts),
                b == o * (cv - tv),
        ;
        let (t0, t1) = (rounding::whole_dot(rot, y, before),
            ieee::value(rot[i]) * ieee::value(y[i]));
        let (e0, e1) = (ieee::size(a - t0), ieee::size(b - t1));
        assert(ieee::size(a + b - (t0 + t1)) <= e0 + e1);
        assert(p * ieee::size(a + b - (t0 + t1)) <= p * e0 + p * e1) by (nonlinear_arith)
            requires
                ieee::size(a + b - (t0 + t1)) <= e0 + e1,
                0 < p,
        ;
        let (s0, s1) = (
            sizes(picked, before) + sizes(taken, before),
            ieee::size(cv) + ieee::size(tv),
        );
        let (w0, w1) = (
            mass(m, rot, packed, c, t, before),
            mass(m, rot, packed, c, t, n) - mass(m, rot, packed, c, t, before),
        );
        assert(p * (o * (s0 + s1)) == p * (o * s0) + p * (o * s1) && (p + 5) * (w0 + w1) == (p + 5)
            * w0 + (p + 5) * w1 && n * po == i * po + po) by (nonlinear_arith)
            requires
                i == n - 1,
        ;
    } else {
        assert(o * (0 - 0) == 0 && p * 0 == 0 && p * (o * 0) == 0 && (p + 5) * 0 == 0 && n * po
            == 0) by (nonlinear_arith)
            requires
                n == 0,
        ;
    }
}

/// The largest size that a sum for a row can have.
spec fn highest(bound: int) -> int {
    bound + bound / 64
}

/// How far the sums for a row can go, and how far they are off.
proof fn lemma_highest(n: int, bound: int, all: int, weight: int)
    requires
        0 <= n <= 8192,
        ieee::one() <= bound <= 0x10_0000 * ieee::one(),
        0 <= weight <= bound * ieee::one(),
        rounding::parts() * (ieee::one() * all)
            <= (rounding::parts() + 5) * weight + 5 * (n * (rounding::parts() * ieee::one())),
    ensures
        all + 2 * (n * rounding::slack_for(highest(bound))) <= highest(bound),
        32 * (rounding::parts() * (2 * (n * rounding::slack_for(highest(bound)))))
            <= 66 * (n * bound),
        64 * highest(bound) <= 65 * bound,
        highest(bound) < ieee::limit(),
{
    let (o, p) = (ieee::one(), rounding::parts());
    let top = highest(bound);
    let es = rounding::slack_for(top);
    rounding::lemma_limit();
    rounding::lemma_slack(top);
    let wide = (p + 5) * bound + 5 * (n * p);
    assert((p + 5) * weight <= (p + 5) * (bound * o)) by (nonlinear_arith)
        requires
            0 <= weight <= bound * o,
            0 < p,
    ;
    assert((p + 5) * (bound * o) + 5 * (n * (p * o)) == wide * o) by (nonlinear_arith)
        requires
            wide == (p + 5) * bound + 5 * (n * p),
    ;
    assert(p * all <= wide) by (nonlinear_arith)
        requires
            p * (o * all) <= wide * o,
            0 < o,
    ;
    assert(n * es <= 8192 * es && 0 <= n * es && n * p <= 8192 * p) by (nonlinear_arith)
        requires
            0 <= n <= 8192,
            0 < es,
            0 < p,
    ;
    assert(p == 16777216);
    assert((p + 5) * bound == 16777221 * bound);
    assert(64 * all <= 64 * bound + bound / 1000);
    assert(p * (n * es) == n * (p * es)) by (nonlinear_arith);
    let pes = p * es;
    assert(32 * pes <= 33 * bound);
    assert(32 * (n * pes) <= 33 * (n * bound)) by (nonlinear_arith)
        requires
            32 * pes <= 33 * bound,
            0 <= n,
    ;
}

/// The steps from the sum for a row to its distance.
proof fn lemma_rounded_score(
    n: int,
    bound: int,
    length: int,
    exact: int,
    inner: int,
    sum: int,
    r: int,
    ip: int,
    d: int,
)
    requires
        0 <= n <= 8192,
        ieee::one() <= bound,
        rounding::near(r, 0, length),
        rounding::parts() * ieee::size(ieee::one() * exact - inner)
            <= 5 * (bound * ieee::one()) + 5 * (n * (rounding::parts() * ieee::one())),
        32 * (rounding::parts() * ieee::size(sum - exact)) <= 66 * (n * bound),
        64 * ieee::size(sum) <= 65 * bound,
        rounding::parts() * ieee::size(ieee::one() * ip - sum * r)
            <= ieee::size(sum * r) + FRACTION * ieee::one(),
        rounding::parts() * ieee::size(d - (ieee::one() - ip)) <= ieee::size(ieee::one() - ip),
    ensures
        32 * (rounding::parts()
            * ieee::size(ieee::one() * ieee::one() * d
                - (ieee::one() * ieee::one() * ieee::one() - r * inner))) <= (66 * n
            + 228) * (bound * length * ieee::one())
                + 34 * (ieee::one() * ieee::one() * ieee::one()),
{
    let (o, p) = (ieee::one(), rounding::parts());
    rounding::lemma_limit();
    let bl = bound * length;
    let (blo, ooo, oo) = (bound * length * o, o * o * o, o * o);
    // The sum, against the inner product.
    let e1 = ieee::size(o * exact - inner);
    let e2 = ieee::size(sum - exact);
    let e3 = ieee::size(o * sum - inner);
    assert(o * sum - inner == o * (sum - exact) + (o * exact - inner)) by (nonlinear_arith);
    lemma_size_product(o, sum - exact);
    assert(e3 <= o * e2 + e1);
    let bo = bound * o;
    assert(160 * (n * (p * o)) <= bo) by (nonlinear_arith)
        requires
            0 <= n <= 8192,
            p == 16777216,
            0x1_0000_0000_0000 <= bound,
            bo == bound * o,
            0 < o,
    ;
    assert(32 * (p * (o * e2)) <= 66 * (n * bo)) by (nonlinear_arith)
        requires
            32 * (p * e2) <= 66 * (n * bound),
            bo == bound * o,
            0 < o,
    ;
    assert(p * e3 <= p * (o * e2) + p * e1) by (nonlinear_arith)
        requires
            e3 <= o * e2 + e1,
            0 < p,
    ;
    assert(32 * (p * e3) <= 66 * (n * bo) + 161 * bo);
    // Times the stored length.
    let sr = ieee::size(r);
    lemma_size_product(o * sum - inner, r);
    let e4 = e3 * sr;
    let nb = 66 * (n * bo) + 161 * bo;
    assert(32 * (p * e4) <= nb * length) by (nonlinear_arith)
        requires
            32 * (p * e3) <= nb,
            e4 == e3 * sr,
            0 <= e3,
            0 <= sr <= length,
            0 < p,
    ;
    assert(nb * length == 66 * (n * blo) + 161 * blo) by (nonlinear_arith)
        requires
            nb == 66 * (n * bo) + 161 * bo,
            bo == bound * o,
            blo == bound * length * o,
    ;
    assert((o * sum - inner) * r == o * (sum * r) - r * inner) by (nonlinear_arith);
    // The product, rounded.
    lemma_size_product(sum, r);
    let turned = ieee::size(sum * r);
    assert(64 * turned <= 65 * bl && 0 <= bl) by (nonlinear_arith)
        requires
            turned == ieee::size(sum) * sr,
            64 * ieee::size(sum) <= 65 * bound,
            0 <= ieee::size(sum),
            0 <= sr <= length,
            bl == bound * length,
            0 < bound,
    ;
    let e5 = ieee::size(o * ip - sum * r);
    lemma_size_product(o, o * ip - sum * r);
    let oe5 = o * e5;
    let (tuo, fo) = (o * turned, FRACTION * o);
    assert(p * oe5 <= tuo + o * fo) by (nonlinear_arith)
        requires
            oe5 == o * e5,
            tuo == o * turned,
            p * e5 <= turned + fo,
            0 < o,
    ;
    assert(64 * tuo <= 65 * blo && 32 * (o * fo) <= ooo) by (nonlinear_arith)
        requires
            tuo == o * turned,
            64 * turned <= 65 * bl,
            bl == bound * length,
            blo == bound * length * o,
            ooo == o * o * o,
            fo == FRACTION * o,
            FRACTION == 0x80_0000,
            0x1_0000_0000_0000 < o,
    ;
    assert(o * (o * ip - sum * r) == oo * ip - o * (sum * r)) by (nonlinear_arith)
        requires
            oo == o * o,
    ;
    // Taken off one.
    let e6 = ieee::size(d - (o - ip));
    let si = ieee::size(ip);
    lemma_size_product(o, ip);
    lemma_size_product(oo, d - (o - ip));
    let oi = o * si;
    assert(oi <= turned + e5);
    let ooe = oo * e6;
    assert(p * ooe <= ooo + o * oi) by (nonlinear_arith)
        requires
            ooe == oo * e6,
            oo == o * o,
            ooo == o * o * o,
            p * e6 <= o + si,
            oi == o * si,
            0 < o,
    ;
    assert(o * oi <= tuo + oe5) by (nonlinear_arith)
        requires
            oi <= turned + e5,
            tuo == o * turned,
            oe5 == o * e5,
            0 < o,
    ;
    assert(0 <= oo && 0 <= oe5 && 0 <= blo && 0 <= ooo) by (nonlinear_arith)
        requires
            oo == o * o,
            oe5 == o * e5,
            0 <= e5,
            0 < o,
            ooo == o * o * o,
            blo == bound * length * o,
            bl == bound * length,
            0 <= bl,
    ;
    assert(oo * (d - (o - ip)) == oo * d - ooo + oo * ip) by (nonlinear_arith)
        requires
            oo == o * o,
            ooo == o * o * o,
    ;
    // All together.
    let off = ieee::size(oo * d - (ooo - r * inner));
    assert(off <= ooe + oe5 + e4);
    assert(p == 16777216);
    assert((66 * n + 228) * blo == 66 * (n * blo) + 228 * blo) by (nonlinear_arith);
}

/// In IEEE arithmetic, the distance taken from a packed row's codes lies near one less the
/// inner product of the rotated query with the rotated row that the codes stand for, times
/// the row's stored length, but not below zero: about two roundings for each component take
/// it away from there, of a size that grows with the products that are added up. Where up
/// to thirty-two components have products that add up to one and a half, and the stored
/// length is at most five quarters, it lies within a hundred-thousandth; and it is never
/// negative. (Levels lie between minus one and one, shifts and the rotated query between
/// minus two and two. Distances are compared in cubes of the number one.)
pub proof fn scoring_is_near_the_reconstruction(
    m: Calc,
    query: Seq<u32>,
    dim: nat,
    packed: Seq<u8>,
    c: Levels,
    t: Calibration,
    renorm: u32,
    bound: int,
    length: int,
)
    requires
        ieee::is_ieee(m),
        turboquant::padded_of(dim) <= 8192,
        moderate(scoring::rotated_query(m, query, dim), c, t),
        2 * packed.len() == turboquant::padded_of(dim),
        scoring::levels_known(packed, turboquant::padded_of(dim), c),
        ieee::one() <= bound <= 0x10_0000 * ieee::one(),
        mass(
            m,
            scoring::rotated_query(m, query, dim),
            packed,
            c,
            t,
            turboquant::padded_of(dim),
        ) <= bound * ieee::one(),
        floatbits::is_finite(renorm),
        rounding::near(ieee::value(renorm), 0, length),
        length <= 0x10_0000 * ieee::one(),
    ensures
        ({
            let n = turboquant::padded_of(dim);
            let rot = scoring::rotated_query(m, query, dim);
            let p = scoring::prepared(m, query, dim, t, c);
            let result = ieee::value(scoring::dot_distance(m, p, packed, renorm));
            let inner = rounding::whole_dot(rot, scoring::decoded(m, packed, n, c, t), n);
            let aim = rounding::not_below_zero(
                ieee::one() * ieee::one() * ieee::one() - ieee::value(renorm) * inner,
            );
            let off = ieee::size(ieee::one() * ieee::one() * result - aim);
            &&& 32 * (rounding::parts() * off)
                <= (66 * n + 228) * (bound * length * ieee::one()) + 34 * (ieee::one()
                * ieee::one() * ieee::one())
            &&& n <= 32 && 2 * bound <= 3 * ieee::one() && 4 * length <= 5 * ieee::one()
                ==> 100000 * off
                < ieee::one() * ieee::one() * ieee::one()
            &&& 0 <= result
        }),
{
    let padded = turboquant::padded_of(dim);
    let n = padded as int;
    let o = ieee::one();
    let rot = scoring::rotated_query(m, query, dim);
    rotation::lemma_rotated_len(
        m,
        query.take(dim as int),
        padded,
        rotation::signs_of(padded as usize),
    );
    let p = scoring::prepared(m, query, dim, t, c);
    let picked = scoring::picked(p, packed);
    let taken = Seq::new(rot.len(), |i: int| m(Op::Mul, rot[i], t.shift[i]));
    assert forall|i: int| 0 <= i < rot.len() implies #[trigger] picked[i]
        == scoring::contribution(
        m,
        rot[i],
        t.scale[i],
        c.centroids[turboquant::code_at(packed, i) as int],
    ) by {
        assert(turboquant::code_at(packed, i) < c.centroids.len());
    }
    lemma_parts(m, rot, packed, c, t, picked, taken, padded);
    let weight = mass(m, rot, packed, c, t, padded);
    let all = sizes(picked, padded) + sizes(taken, padded);
    lemma_sizes_prefix(picked, picked, padded);
    lemma_sizes_prefix(taken, taken, padded);
    lemma_highest(n, bound, all, weight);
    let top = highest(bound);
    rounding::lemma_limit();
    rounding::lemma_slack(top);
    let ns = n * rounding::slack_for(top);
    assert(0 <= ns) by (nonlinear_arith)
        requires
            ns == n * rounding::slack_for(top),
            0 <= n,
            0 < rounding::slack_for(top),
    ;
    lemma_reduced_sizes(m, taken, top);
    lemma_total_sizes(m, p.bias, picked, top);
    let sum = arith::total(m, p.bias, picked);
    let exact = rounding::whole_sum(picked, padded) - rounding::whole_sum(taken, padded);
    let inner = rounding::whole_dot(rot, scoring::decoded(m, packed, padded, c, t), padded);
    let (s, r) = (ieee::value(sum), ieee::value(renorm));
    assert(rounding::near(s, exact, 2 * ns));
    assert(32 * (rounding::parts() * ieee::size(s - exact))
        <= 66 * (n * bound)) by (nonlinear_arith)
        requires
            ieee::size(s - exact) <= 2 * ns,
            32 * (rounding::parts() * (2 * ns)) <= 66 * (n * bound),
            0 < rounding::parts(),
    ;
    assert(5 * weight <= 5 * (bound * o));
    let wide = 0x200_0000_0000 * o;
    assert(rounding::near(s * r, 0, wide * o)) by (nonlinear_arith)
        requires
            rounding::near(s, 0, 0x20_0000 * o),
            rounding::near(r, 0, 0x10_0000 * o),
            wide == 0x200_0000_0000 * o,
            0 < o,
    ;
    rounding::lemma_mul(m, sum, renorm, wide);
    rounding::lemma_slack(wide);
    ieee::lemma_one();
    let product = m(Op::Mul, sum, renorm);
    rounding::lemma_sub(m, ONE_BITS, product, 4 * wide);
    let distance = m(Op::Sub, ONE_BITS, product);
    let d = ieee::value(distance);
    lemma_rounded_score(n, bound, length, exact, inner, s, r, ieee::value(product), d);
    ieee::lemma_value_order(0, distance);
    let result = ieee::value(scoring::dot_distance(m, p, packed, renorm));
    let ooo = o * o * o;
    let aim = ooo - r * inner;
    assert(o * o * 0 == 0 && (d <= 0 ==> o * o * d <= 0) && (d > 0 ==> o * o * d > 0))
        by (nonlinear_arith)
        requires
            0 < o,
    ;
    let off = ieee::size(o * o * result - rounding::not_below_zero(aim));
    assert(off <= ieee::size(o * o * d - aim));
    assert(rounding::parts() == 16777216);
    if n <= 32 && 2 * bound <= 3 * o && 4 * length <= 5 * o {
        let blo = bound * length * o;
        assert(8 * blo <= 15 * ooo && 0 <= blo) by (nonlinear_arith)
            requires
                blo == bound * length * o,
                ooo == o * o * o,
                0 < bound,
                2 * bound <= 3 * o,
                0 <= length,
                4 * length <= 5 * o,
                0 < o,
        ;
        assert((66 * n + 228) * blo <= 2340 * blo) by (nonlinear_arith)
            requires
                n <= 32,
                0 <= blo,
        ;
        assert(0 < ooo) by (nonlinear_arith)
            requires
                ooo == o * o * o,
                0 < o,
        ;
    }
}

} // verus!
