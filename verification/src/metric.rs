//! Distances between rows of components, and the scaling to unit length that makes
//! cosine distance a dot product.

use vstd::prelude::*;

use crate::arith;
use crate::arith::{minus, over, plus, root, times, Calc, Op};
use crate::floatbits;
use crate::floatbits::{lt, max_zero, ONE_BITS};
use crate::ieee;
use crate::options::{Metric, VectorDistance};
use crate::rotation;
use crate::turboquant;

verus! {

// ---------------------------------------------------------------------------
// Unit length
// ---------------------------------------------------------------------------

/// A row scaled to unit length; a row without length as it is.
pub open spec fn unit_row(m: Calc, row: Seq<u32>) -> Seq<u32> {
    let norm_sq = arith::total(m, 0, rotation::squares(m, row));
    if floatbits::less(0, norm_sq) {
        row.map_values(|x: u32| m(Op::Mul, x, m(Op::Div, ONE_BITS, m(Op::Sqrt, norm_sq, 0))))
    } else {
        row
    }
}

/// Scales a row to unit length. A row without length is left as it is.
pub fn l2_normalize<A: Fn(Op, u32, u32) -> u32>(arith: &A, v: &mut Vec<u32>)
    requires
        arith::is_arithmetic(*arith),
    ensures
        final(v)@ == unit_row(arith::calc(*arith), old(v)@),
        final(v)@.len() == old(v)@.len(),
{
    let ghost m = arith::calc(*arith);
    let ghost before = v@;
    let ghost terms = rotation::squares(m, before);
    let n: usize = v.len();
    let mut norm_sq: u32 = 0;
    for i in 0..n
        invariant
            arith::is_arithmetic(*arith),
            m == arith::calc(*arith),
            v@ == before,
            n == before.len(),
            terms == rotation::squares(m, before),
            norm_sq == arith::total(m, 0, terms.take(i as int)),
    {
        let x: u32 = v[i];
        norm_sq = plus(arith, norm_sq, times(arith, x, x));
        proof {
            arith::lemma_total_next(m, 0, terms, i as int);
        }
    }
    assert(terms.take(n as int) =~= terms);
    if lt(0, norm_sq) {
        let inv: u32 = over(arith, ONE_BITS, root(arith, norm_sq));
        for i in 0..n
            invariant
                arith::is_arithmetic(*arith),
                m == arith::calc(*arith),
                n == v@.len(),
                n == before.len(),
                forall|k: int| 0 <= k < i ==> #[trigger] v@[k] == m(Op::Mul, before[k], inv),
                forall|k: int| i <= k < n ==> #[trigger] v@[k] == before[k],
        {
            let x: u32 = v[i];
            v[i] = times(arith, x, inv);
        }
        assert(v@ =~= unit_row(m, before));
    }
}

/// The first `n` rows, each scaled to unit length.
pub open spec fn unit_rows(m: Calc, flat: Seq<u32>, dim: nat, n: nat) -> Seq<u32>
    decreases n,
{
    if n == 0 {
        Seq::empty()
    } else {
        unit_rows(m, flat, dim, (n - 1) as nat) + unit_row(
            m,
            turboquant::row_at(flat, dim, n - 1),
        )
    }
}

/// Row-major components with every row scaled to unit length. What does not fill a
/// row stays as it is.
pub open spec fn normalized(m: Calc, flat: Seq<u32>, dim: nat) -> Seq<u32> {
    let n = flat.len() / dim;
    unit_rows(m, flat, dim, n) + flat.skip((n * dim) as int)
}

/// Scales every row to unit length in cosine fields; leaves other fields as they are.
pub fn normalize_flat_for_cosine<A: Fn(Op, u32, u32) -> u32>(
    arith: &A,
    flat: &mut Vec<u32>,
    dim: usize,
    dist: VectorDistance,
)
    requires
        arith::is_arithmetic(*arith),
        dist == VectorDistance::Cosine ==> dim > 0,
    ensures
        final(flat)@ == if dist == VectorDistance::Cosine {
            normalized(arith::calc(*arith), old(flat)@, dim as nat)
        } else {
            old(flat)@
        },
        final(flat)@.len() == old(flat)@.len(),
{
    if !dist.normalizes() {
        return;
    }
    let ghost m = arith::calc(*arith);
    let ghost before = flat@;
    let len: usize = flat.len();
    let n: usize = len / dim;
    assert(n * dim <= len) by (nonlinear_arith)
        requires
            n == len / dim,
            dim > 0,
    ;
    let mut out: Vec<u32> = Vec::new();
    for i in 0..n
        invariant
            arith::is_arithmetic(*arith),
            m == arith::calc(*arith),
            flat@ == before,
            n * dim <= before.len(),
            before.len() <= usize::MAX,
            out@ == unit_rows(m, before, dim as nat, i as nat),
            out@.len() == i * dim,
    {
        proof {
            turboquant::lemma_row_range(n as int, dim as int, i as int);
            assert((i + 1) * dim == i * dim + dim) by (nonlinear_arith);
        }
        let start: usize = i * dim;
        let mut row: Vec<u32> = Vec::new();
        row.extend_from_slice(&flat.as_slice()[start..start + dim]);
        assert(row@ =~= turboquant::row_at(before, dim as nat, i as int));
        l2_normalize(arith, &mut row);
        let ghost done = out@;
        out.extend_from_slice(row.as_slice());
        assert(out@ =~= done + row@);
    }
    let tail: usize = n * dim;
    let ghost done = out@;
    out.extend_from_slice(&flat.as_slice()[tail..len]);
    assert(out@ =~= done + before.skip(tail as int));
    *flat = out;
}

// ---------------------------------------------------------------------------
// Distances
// ---------------------------------------------------------------------------

/// The squared differences of two rows.
pub open spec fn squared_gaps(m: Calc, a: Seq<u32>, b: Seq<u32>) -> Seq<u32> {
    Seq::new(
        a.len(),
        |i: int| m(Op::Mul, m(Op::Sub, a[i], b[i]), m(Op::Sub, a[i], b[i])),
    )
}

/// Root of the summed squared differences of two rows.
pub open spec fn l2_distance(m: Calc, a: Seq<u32>, b: Seq<u32>) -> u32 {
    m(Op::Sqrt, arith::total(m, 0, squared_gaps(m, a, b)), 0)
}

/// The products of the components of two rows.
pub open spec fn products(m: Calc, a: Seq<u32>, b: Seq<u32>) -> Seq<u32> {
    Seq::new(a.len(), |i: int| m(Op::Mul, a[i], b[i]))
}

/// One less the dot product of two rows, but not below zero.
pub open spec fn dot_distance(m: Calc, a: Seq<u32>, b: Seq<u32>) -> u32 {
    floatbits::at_least_zero(
        m(Op::Sub, ONE_BITS, arith::total(m, 0, products(m, a, b))),
    )
}

/// Distance of two rows by a metric.
pub open spec fn distance(m: Calc, metric: Metric, a: Seq<u32>, b: Seq<u32>) -> u32 {
    match metric {
        Metric::L2 => l2_distance(m, a, b),
        Metric::Dot => dot_distance(m, a, b),
    }
}

/// Root of the summed squared differences of two rows.
pub fn dist_l2<A: Fn(Op, u32, u32) -> u32>(arith: &A, a: &[u32], b: &[u32]) -> (r: u32)
    requires
        arith::is_arithmetic(*arith),
        a@.len() <= b@.len(),
    ensures
        r == l2_distance(arith::calc(*arith), a@, b@),
{
    let ghost m = arith::calc(*arith);
    let ghost terms = squared_gaps(m, a@, b@);
    let n: usize = a.len();
    let mut acc: u32 = 0;
    for i in 0..n
        invariant
            arith::is_arithmetic(*arith),
            m == arith::calc(*arith),
            n == a@.len(),
            n <= b@.len(),
            terms == squared_gaps(m, a@, b@),
            acc == arith::total(m, 0, terms.take(i as int)),
    {
        let d: u32 = minus(arith, a[i], b[i]);
        acc = plus(arith, acc, times(arith, d, d));
        proof {
            arith::lemma_total_next(m, 0, terms, i as int);
        }
    }
    assert(terms.take(n as int) =~= terms);
    root(arith, acc)
}

/// The sum of the products of two rows' components.
pub(crate) fn dot<A: Fn(Op, u32, u32) -> u32>(arith: &A, a: &[u32], b: &[u32]) -> (r: u32)
    requires
        arith::is_arithmetic(*arith),
        a@.len() <= b@.len(),
    ensures
        r == arith::total(
            arith::calc(*arith),
            0,
            products(arith::calc(*arith), a@, b@),
        ),
{
    let ghost m = arith::calc(*arith);
    let ghost terms = products(m, a@, b@);
    let n: usize = a.len();
    let mut acc: u32 = 0;
    for i in 0..n
        invariant
            arith::is_arithmetic(*arith),
            m == arith::calc(*arith),
            n == a@.len(),
            n <= b@.len(),
            terms == products(m, a@, b@),
            acc == arith::total(m, 0, terms.take(i as int)),
    {
        acc = plus(arith, acc, times(arith, a[i], b[i]));
        proof {
            arith::lemma_total_next(m, 0, terms, i as int);
        }
    }
    assert(terms.take(n as int) =~= terms);
    acc
}

/// One less the dot product of two rows, but not below zero.
pub fn dist_dot<A: Fn(Op, u32, u32) -> u32>(arith: &A, a: &[u32], b: &[u32]) -> (r: u32)
    requires
        arith::is_arithmetic(*arith),
        a@.len() <= b@.len(),
    ensures
        r == dot_distance(arith::calc(*arith), a@, b@),
{
    max_zero(minus(arith, ONE_BITS, dot(arith, a, b)))
}

/// Distance of two rows by the arithmetic of a field's metric.
pub fn distance_fn_for<A: Fn(Op, u32, u32) -> u32>(
    arith: &A,
    dist: VectorDistance,
    a: &[u32],
    b: &[u32],
) -> (r: u32)
    requires
        arith::is_arithmetic(*arith),
        a@.len() == b@.len(),
    ensures
        r == distance(arith::calc(*arith), dist.spec_metric(), a@, b@),
{
    match dist.metric() {
        Metric::L2 => dist_l2(arith, a, b),
        Metric::Dot => dist_dot(arith, a, b),
    }
}

/// The score that a distance stands for: one divided by one more than the distance.
pub open spec fn score_of(m: Calc, distance: u32) -> u32 {
    m(Op::Div, ONE_BITS, m(Op::Add, ONE_BITS, distance))
}

/// The score that a distance stands for.
pub fn distance_to_score<A: Fn(Op, u32, u32) -> u32>(arith: &A, distance: u32) -> (r: u32)
    requires
        arith::is_arithmetic(*arith),
    ensures
        r == score_of(arith::calc(*arith), distance),
{
    over(arith, ONE_BITS, plus(arith, ONE_BITS, distance))
}

// ---------------------------------------------------------------------------
// Laws
// ---------------------------------------------------------------------------

/// What is not farther scores no lower. The score of a finite distance lies above zero and
/// not above one, which is the score of the distance zero. (This is for IEEE arithmetic.)
pub proof fn nearer_scores_no_lower(m: Calc, near: u32, far: u32)
    requires
        ieee::is_ieee(m),
        floatbits::is_finite(near),
        floatbits::is_finite(far),
        floatbits::at_least(near, 0),
        !floatbits::less(far, near),
    ensures
        !floatbits::less(score_of(m, near), score_of(m, far)),
        floatbits::less(0, score_of(m, near)),
        !floatbits::less(ONE_BITS, score_of(m, near)),
        score_of(m, 0) == ONE_BITS,
{
    lemma_score(m, near);
    lemma_score(m, far);
    lemma_score(m, 0);
    let one = ieee::one();
    let (x, y) = (m(Op::Add, ONE_BITS, near), m(Op::Add, ONE_BITS, far));
    ieee::lemma_one();
    ieee::lemma_value_order(far, near);
    ieee::lemma_keeps_order(x, one + ieee::value(near), 1, y, one + ieee::value(far), 1);
    let (a, b) = (ieee::value(x), ieee::value(y));
    let (r, s) = (score_of(m, near), score_of(m, far));
    assert(one * one * a <= one * one * b) by (nonlinear_arith)
        requires
            a <= b,
            0 < one,
    ;
    ieee::lemma_keeps_order(s, one * one, b, r, one * one, a);
    ieee::lemma_value_order(r, s);
    ieee::lemma_value_order(0, r);
    ieee::lemma_value_order(ONE_BITS, r);
    // The distance zero.
    ieee::lemma_exact(ONE_BITS, 1);
    ieee::lemma_exact(ONE_BITS, one);
    assert(one * 1 == one);
    ieee::lemma_one_nearest(m(Op::Add, ONE_BITS, 0), ONE_BITS, one, 1);
    ieee::lemma_one_nearest(score_of(m, 0), ONE_BITS, one * one, one);
}

/// One more than a distance, and its quotient.
proof fn lemma_score(m: Calc, d: u32)
    requires
        ieee::is_ieee(m),
        floatbits::is_finite(d),
        floatbits::at_least(d, 0),
    ensures
        ({
            let x = m(Op::Add, ONE_BITS, d);
            let r = score_of(m, d);
            &&& ieee::nearest(x, ieee::one() + ieee::value(d), 1)
            &&& !floatbits::is_negative(x)
            &&& ieee::one() <= ieee::value(x)
            &&& ieee::nearest(r, ieee::one() * ieee::one(), ieee::value(x))
            &&& !floatbits::is_negative(r)
            &&& 0 < ieee::value(r) <= ieee::one()
        }),
{
    let one = ieee::one();
    let x = m(Op::Add, ONE_BITS, d);
    let r = score_of(m, d);
    ieee::lemma_one();
    ieee::lemma_value_order(d, 0);
    ieee::lemma_bounds(d);
    assert(ieee::adds(ONE_BITS, d, x));
    ieee::lemma_exact(ONE_BITS, 1);
    assert(one * 1 == one);
    ieee::lemma_keeps_order(ONE_BITS, one, 1, x, one + ieee::value(d), 1);
    ieee::lemma_bounds(x);
    let den = ieee::value(x);
    let limit = ieee::limit();
    assert(one * one < limit * den) by (nonlinear_arith)
        requires
            0 < one <= den,
            one < limit,
    ;
    assert(one * one * 1 == one * one) by (nonlinear_arith);
    assert(ieee::divides(ONE_BITS, x, r));
    assert(one * one * 1 <= one * den) by (nonlinear_arith)
        requires
            0 < one <= den,
    ;
    ieee::lemma_keeps_order(r, one * one, den, ONE_BITS, one, 1);
    // The smallest positive number.
    assert(ieee::value(1) == 1) by {
        ieee::lemma_units(0, 1);
        vstd::arithmetic::power2::lemma2_to64();
    }
    ieee::lemma_exact(1, 1);
    ieee::lemma_keeps_order(1, 1, 1, r, one * one, den);
}

} // verus!
