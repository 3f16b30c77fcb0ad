//! Arithmetic without rounding.
//!
//! Rounded sums and products do not obey the laws of arithmetic, so two formulas for
//! one quantity differ in their last digits. What such formulas have in common is
//! stated for operations that do obey these laws on a set of patterns.

use vstd::prelude::*;

use crate::arith;
use crate::arith::{Calc, Op};
use crate::floatbits::{NEG_ONE_BITS, ONE_BITS, TWO_BITS};
use crate::metric;

verus! {

/// The laws of two numbers.
pub open spec fn laws_of_two(m: Calc, num: Set<u32>, x: u32, y: u32) -> bool {
    num.contains(x) && num.contains(y) ==> {
        &&& num.contains(m(Op::Add, x, y))
        &&& num.contains(m(Op::Sub, x, y))
        &&& num.contains(m(Op::Mul, x, y))
        &&& m(Op::Add, x, y) == m(Op::Add, y, x)
        &&& m(Op::Mul, x, y) == m(Op::Mul, y, x)
        &&& m(Op::Add, m(Op::Sub, x, y), y) == x
        &&& y != 0 ==> num.contains(m(Op::Div, x, y)) && m(Op::Mul, m(Op::Div, x, y), y) == x
    }
}

/// The laws of three numbers.
pub open spec fn laws_of_three(m: Calc, num: Set<u32>, x: u32, y: u32, z: u32) -> bool {
    num.contains(x) && num.contains(y) && num.contains(z) ==> {
        &&& m(Op::Add, m(Op::Add, x, y), z) == m(Op::Add, x, m(Op::Add, y, z))
        &&& m(Op::Mul, m(Op::Mul, x, y), z) == m(Op::Mul, x, m(Op::Mul, y, z))
        &&& m(Op::Mul, x, m(Op::Add, y, z)) == m(Op::Add, m(Op::Mul, x, y), m(Op::Mul, x, z))
    }
}

/// The laws of zero and one.
pub open spec fn laws_of_one(m: Calc, num: Set<u32>, x: u32) -> bool {
    num.contains(x) ==> m(Op::Add, x, 0) == x && m(Op::Mul, x, ONE_BITS) == x
}

/// The image of an integer is one more than the image of the integer before.
pub open spec fn law_of_int(m: Calc, n: u32) -> bool {
    m(Op::Int, n, 0) == if n == 0 {
        0
    } else {
        m(Op::Add, m(Op::Int, (n - 1) as u32, 0), ONE_BITS)
    }
}

/// Whether sums, differences, products and quotients of the patterns in a set stay in
/// the set and obey the laws of a field, in which the patterns of 0, 1, -1 and 2 and
/// the images of the integers stand for what they name.
#[verifier::opaque]
pub open spec fn is_exact(m: Calc, num: Set<u32>) -> bool {
    &&& num.contains(0) && num.contains(ONE_BITS) && num.contains(NEG_ONE_BITS)
    &&& forall|x: u32, y: u32| #[trigger] laws_of_two(m, num, x, y)
    &&& forall|x: u32, y: u32, z: u32| #[trigger] laws_of_three(m, num, x, y, z)
    &&& forall|x: u32| #[trigger] laws_of_one(m, num, x)
    &&& forall|n: u32| #[trigger] law_of_int(m, n)
    &&& m(Op::Add, ONE_BITS, NEG_ONE_BITS) == 0
    &&& m(Op::Add, ONE_BITS, ONE_BITS) == TWO_BITS
}

/// Whether all numbers of a row are in a set.
pub open spec fn all_in(num: Set<u32>, row: Seq<u32>) -> bool {
    forall|i: int| 0 <= i < row.len() ==> num.contains(#[trigger] row[i])
}

// ---------------------------------------------------------------------------
// Two and three numbers
// ---------------------------------------------------------------------------

pub(crate) proof fn lemma_zero(m: Calc, num: Set<u32>)
    requires
        is_exact(m, num),
    ensures
        num.contains(0),
        num.contains(ONE_BITS),
        num.contains(NEG_ONE_BITS),
        m(Op::Add, 0, 0) == 0,
{
    reveal(is_exact);
    assert(laws_of_one(m, num, 0));
}

pub(crate) proof fn lemma_closed(m: Calc, num: Set<u32>, x: u32, y: u32)
    requires
        is_exact(m, num),
        num.contains(x),
        num.contains(y),
    ensures
        num.contains(0),
        num.contains(ONE_BITS),
        num.contains(m(Op::Add, x, y)),
        num.contains(m(Op::Sub, x, y)),
        num.contains(m(Op::Mul, x, y)),
        m(Op::Add, x, y) == m(Op::Add, y, x),
        m(Op::Mul, x, y) == m(Op::Mul, y, x),
        m(Op::Add, m(Op::Sub, x, y), y) == x,
        m(Op::Add, x, 0) == x,
        m(Op::Add, 0, x) == x,
        m(Op::Mul, x, ONE_BITS) == x,
        m(Op::Mul, ONE_BITS, x) == x,
{
    reveal(is_exact);
    assert(laws_of_two(m, num, x, y));
    assert(laws_of_two(m, num, 0, x));
    assert(laws_of_two(m, num, ONE_BITS, x));
    assert(laws_of_one(m, num, x));
}

pub(crate) proof fn lemma_three(m: Calc, num: Set<u32>, x: u32, y: u32, z: u32)
    requires
        is_exact(m, num),
        num.contains(x),
        num.contains(y),
        num.contains(z),
    ensures
        m(Op::Add, m(Op::Add, x, y), z) == m(Op::Add, x, m(Op::Add, y, z)),
        m(Op::Mul, m(Op::Mul, x, y), z) == m(Op::Mul, x, m(Op::Mul, y, z)),
        m(Op::Mul, x, m(Op::Add, y, z)) == m(Op::Add, m(Op::Mul, x, y), m(Op::Mul, x, z)),
        m(Op::Mul, m(Op::Add, y, z), x) == m(Op::Add, m(Op::Mul, y, x), m(Op::Mul, z, x)),
{
    reveal(is_exact);
    assert(laws_of_three(m, num, x, y, z));
    lemma_closed(m, num, y, z);
    lemma_closed(m, num, x, y);
    lemma_closed(m, num, x, z);
    lemma_closed(m, num, x, m(Op::Add, y, z));
}

/// Equal sums with one number have equal other numbers.
pub(crate) proof fn lemma_cancel(m: Calc, num: Set<u32>, x: u32, y: u32, z: u32)
    requires
        is_exact(m, num),
        num.contains(x),
        num.contains(y),
        num.contains(z),
        m(Op::Add, x, z) == m(Op::Add, y, z),
    ensures
        x == y,
{
    lemma_closed(m, num, x, z);
    lemma_closed(m, num, y, z);
    let w = m(Op::Sub, 0, z);
    lemma_closed(m, num, 0, z);
    lemma_closed(m, num, z, w);
    lemma_three(m, num, x, z, w);
    lemma_three(m, num, y, z, w);
}

/// A sum of two numbers less one of them is the other.
pub(crate) proof fn lemma_sub_is(m: Calc, num: Set<u32>, x: u32, y: u32, d: u32)
    requires
        is_exact(m, num),
        num.contains(x),
        num.contains(y),
        num.contains(d),
        m(Op::Add, d, y) == x,
    ensures
        m(Op::Sub, x, y) == d,
{
    lemma_closed(m, num, x, y);
    lemma_cancel(m, num, m(Op::Sub, x, y), d, y);
}

/// Two sums, summed, are the sums of their parts.
pub(crate) proof fn lemma_sum_of_sums(m: Calc, num: Set<u32>, a: u32, b: u32, c: u32, d: u32)
    requires
        is_exact(m, num),
        num.contains(a),
        num.contains(b),
        num.contains(c),
        num.contains(d),
    ensures
        m(Op::Add, m(Op::Add, a, b), m(Op::Add, c, d)) == m(
            Op::Add,
            m(Op::Add, a, c),
            m(Op::Add, b, d),
        ),
{
    lemma_closed(m, num, a, b);
    lemma_closed(m, num, c, d);
    lemma_closed(m, num, a, c);
    lemma_closed(m, num, b, d);
    lemma_closed(m, num, b, c);
    lemma_three(m, num, a, b, m(Op::Add, c, d));
    lemma_three(m, num, b, c, d);
    lemma_three(m, num, c, b, d);
    lemma_three(m, num, a, c, m(Op::Add, b, d));
}

/// A difference of two sums is the sum of their parts' differences.
pub(crate) proof fn lemma_difference_of_sums(
    m: Calc,
    num: Set<u32>,
    a: u32,
    b: u32,
    c: u32,
    d: u32,
)
    requires
        is_exact(m, num),
        num.contains(a),
        num.contains(b),
        num.contains(c),
        num.contains(d),
    ensures
        m(Op::Sub, m(Op::Add, a, b), m(Op::Add, c, d)) == m(
            Op::Add,
            m(Op::Sub, a, c),
            m(Op::Sub, b, d),
        ),
{
    lemma_closed(m, num, a, b);
    lemma_closed(m, num, c, d);
    lemma_closed(m, num, a, c);
    lemma_closed(m, num, b, d);
    let ac = m(Op::Sub, a, c);
    let bd = m(Op::Sub, b, d);
    lemma_closed(m, num, ac, bd);
    lemma_sum_of_sums(m, num, ac, bd, c, d);
    lemma_sub_is(m, num, m(Op::Add, a, b), m(Op::Add, c, d), m(Op::Add, ac, bd));
}

/// Differences of differences can be taken in either order.
pub(crate) proof fn lemma_difference_of_differences(
    m: Calc,
    num: Set<u32>,
    a: u32,
    b: u32,
    c: u32,
    d: u32,
)
    requires
        is_exact(m, num),
        num.contains(a),
        num.contains(b),
        num.contains(c),
        num.contains(d),
    ensures
        m(Op::Sub, m(Op::Sub, a, b), m(Op::Sub, c, d)) == m(
            Op::Sub,
            m(Op::Sub, a, c),
            m(Op::Sub, b, d),
        ),
{
    lemma_closed(m, num, a, b);
    lemma_closed(m, num, c, d);
    lemma_closed(m, num, a, c);
    lemma_closed(m, num, b, d);
    let ac = m(Op::Sub, a, c);
    let bd = m(Op::Sub, b, d);
    lemma_closed(m, num, ac, bd);
    let r = m(Op::Sub, ac, bd);
    // (r + bd) + (c - d + d) == a and bd + d == b.
    let cd = m(Op::Sub, c, d);
    lemma_sum_of_sums(m, num, r, bd, cd, d);
    lemma_closed(m, num, r, cd);
    lemma_closed(m, num, m(Op::Add, r, cd), b);
    lemma_sub_is(m, num, a, b, m(Op::Add, r, cd));
    lemma_sub_is(m, num, m(Op::Sub, a, b), cd, r);
}

/// Nothing multiplies to nothing, and a difference is multiplied by its parts.
pub(crate) proof fn lemma_mul_sub(m: Calc, num: Set<u32>, x: u32, y: u32, z: u32)
    requires
        is_exact(m, num),
        num.contains(x),
        num.contains(y),
        num.contains(z),
    ensures
        m(Op::Mul, x, 0) == 0,
        m(Op::Mul, 0, x) == 0,
        m(Op::Mul, x, m(Op::Sub, y, z)) == m(Op::Sub, m(Op::Mul, x, y), m(Op::Mul, x, z)),
        m(Op::Mul, m(Op::Sub, y, z), x) == m(Op::Sub, m(Op::Mul, y, x), m(Op::Mul, z, x)),
{
    lemma_closed(m, num, x, y);
    lemma_closed(m, num, x, z);
    lemma_closed(m, num, y, z);
    lemma_closed(m, num, 0, 0);
    lemma_closed(m, num, x, 0);
    lemma_three(m, num, x, 0, 0);
    let zero = m(Op::Mul, x, 0);
    lemma_closed(m, num, zero, zero);
    lemma_cancel(m, num, zero, 0, zero);
    let d = m(Op::Sub, y, z);
    lemma_three(m, num, x, d, z);
    lemma_closed(m, num, x, d);
    lemma_sub_is(m, num, m(Op::Mul, x, y), m(Op::Mul, x, z), m(Op::Mul, x, d));
}

/// A product of sums, and how sums and differences of two numbers combine.
pub(crate) proof fn lemma_sum_and_difference(m: Calc, num: Set<u32>, x: u32, y: u32)
    requires
        is_exact(m, num),
        num.contains(x),
        num.contains(y),
    ensures
        m(Op::Add, m(Op::Add, x, y), m(Op::Sub, x, y)) == m(Op::Add, x, x),
        m(Op::Sub, m(Op::Add, x, y), m(Op::Sub, x, y)) == m(Op::Add, y, y),
{
    lemma_closed(m, num, x, y);
    let d = m(Op::Sub, x, y);
    lemma_closed(m, num, d, y);
    lemma_three(m, num, x, y, d);
    lemma_closed(m, num, y, y);
    lemma_closed(m, num, m(Op::Add, x, y), d);
    lemma_three(m, num, d, y, y);
    lemma_closed(m, num, m(Op::Add, y, y), d);
    lemma_sub_is(m, num, m(Op::Add, x, y), d, m(Op::Add, y, y));
}

/// What is taken off one part of a sum can be taken off another.
pub(crate) proof fn lemma_take_off_other(m: Calc, num: Set<u32>, a: u32, b: u32, c: u32, d: u32)
    requires
        is_exact(m, num),
        num.contains(a),
        num.contains(b),
        num.contains(c),
        num.contains(d),
    ensures
        m(Op::Add, m(Op::Add, a, b), m(Op::Sub, c, d)) == m(
            Op::Add,
            m(Op::Add, a, c),
            m(Op::Sub, b, d),
        ),
{
    let (bd, cd) = (m(Op::Sub, b, d), m(Op::Sub, c, d));
    let (ab, ac) = (m(Op::Add, a, b), m(Op::Add, a, c));
    lemma_closed(m, num, b, d);
    lemma_closed(m, num, c, d);
    lemma_closed(m, num, a, b);
    lemma_closed(m, num, a, c);
    lemma_closed(m, num, b, c);
    lemma_closed(m, num, ab, cd);
    lemma_closed(m, num, ac, bd);
    lemma_three(m, num, ab, cd, d);
    lemma_three(m, num, ac, bd, d);
    lemma_three(m, num, a, b, c);
    lemma_three(m, num, a, c, b);
    lemma_cancel(m, num, m(Op::Add, ab, cd), m(Op::Add, ac, bd), d);
}

/// The product of two sums and the product of the differences, added.
pub(crate) proof fn lemma_products_of_pairs(
    m: Calc,
    num: Set<u32>,
    x: u32,
    y: u32,
    u: u32,
    v: u32,
)
    requires
        is_exact(m, num),
        num.contains(x),
        num.contains(y),
        num.contains(u),
        num.contains(v),
    ensures
        m(
            Op::Add,
            m(Op::Mul, m(Op::Add, x, y), m(Op::Add, u, v)),
            m(Op::Mul, m(Op::Sub, x, y), m(Op::Sub, u, v)),
        ) == m(
            Op::Add,
            m(Op::Add, m(Op::Mul, x, u), m(Op::Mul, x, u)),
            m(Op::Add, m(Op::Mul, y, v), m(Op::Mul, y, v)),
        ),
{
    let (sum, gap) = (m(Op::Add, u, v), m(Op::Sub, u, v));
    lemma_closed(m, num, u, v);
    lemma_closed(m, num, x, y);
    lemma_three(m, num, sum, x, y);
    lemma_mul_sub(m, num, gap, x, y);
    lemma_closed(m, num, x, sum);
    lemma_closed(m, num, y, sum);
    lemma_closed(m, num, x, gap);
    lemma_closed(m, num, y, gap);
    lemma_take_off_other(
        m,
        num,
        m(Op::Mul, x, sum),
        m(Op::Mul, y, sum),
        m(Op::Mul, x, gap),
        m(Op::Mul, y, gap),
    );
    lemma_three(m, num, x, sum, gap);
    lemma_mul_sub(m, num, y, sum, gap);
    lemma_sum_and_difference(m, num, u, v);
    lemma_three(m, num, x, u, u);
    lemma_three(m, num, y, v, v);
}

/// Two products, multiplied, are the products of their parts.
pub(crate) proof fn lemma_mul_pairs(m: Calc, num: Set<u32>, a: u32, b: u32, c: u32, d: u32)
    requires
        is_exact(m, num),
        num.contains(a),
        num.contains(b),
        num.contains(c),
        num.contains(d),
    ensures
        m(Op::Mul, m(Op::Mul, a, b), m(Op::Mul, c, d)) == m(
            Op::Mul,
            m(Op::Mul, a, c),
            m(Op::Mul, b, d),
        ),
{
    lemma_closed(m, num, a, b);
    lemma_closed(m, num, c, d);
    lemma_closed(m, num, a, c);
    lemma_closed(m, num, b, d);
    lemma_closed(m, num, b, c);
    lemma_three(m, num, a, b, m(Op::Mul, c, d));
    lemma_three(m, num, b, c, d);
    lemma_three(m, num, c, b, d);
    lemma_three(m, num, a, c, m(Op::Mul, b, d));
}

/// A quotient multiplied by its divisor is the dividend.
pub(crate) proof fn lemma_quotient(m: Calc, num: Set<u32>, x: u32, y: u32)
    requires
        is_exact(m, num),
        num.contains(x),
        num.contains(y),
        y != 0,
    ensures
        num.contains(m(Op::Div, x, y)),
        m(Op::Mul, m(Op::Div, x, y), y) == x,
{
    reveal(is_exact);
    assert(laws_of_two(m, num, x, y));
}

/// Minus one, multiplied by itself, is one.
pub(crate) proof fn lemma_neg_one_squared(m: Calc, num: Set<u32>)
    requires
        is_exact(m, num),
    ensures
        num.contains(ONE_BITS),
        num.contains(NEG_ONE_BITS),
        m(Op::Mul, NEG_ONE_BITS, NEG_ONE_BITS) == ONE_BITS,
        m(Op::Mul, ONE_BITS, ONE_BITS) == ONE_BITS,
{
    assert(num.contains(NEG_ONE_BITS) && num.contains(ONE_BITS) && m(
        Op::Add,
        ONE_BITS,
        NEG_ONE_BITS,
    ) == 0) by {
        reveal(is_exact);
    }
    let n = NEG_ONE_BITS;
    lemma_closed(m, num, n, n);
    lemma_closed(m, num, n, ONE_BITS);
    lemma_closed(m, num, ONE_BITS, ONE_BITS);
    lemma_three(m, num, n, n, ONE_BITS);
    lemma_mul_sub(m, num, n, n, n);
    lemma_closed(m, num, ONE_BITS, n);
    lemma_cancel(m, num, m(Op::Mul, n, n), ONE_BITS, n);
}

/// Two is one and one.
pub(crate) proof fn lemma_two(m: Calc, num: Set<u32>)
    requires
        is_exact(m, num),
    ensures
        num.contains(ONE_BITS),
        num.contains(TWO_BITS),
        m(Op::Add, ONE_BITS, ONE_BITS) == TWO_BITS,
{
    lemma_zero(m, num);
    lemma_closed(m, num, ONE_BITS, ONE_BITS);
    reveal(is_exact);
}

/// Images of integers.
pub(crate) proof fn lemma_int(m: Calc, num: Set<u32>, n: u32)
    requires
        is_exact(m, num),
    ensures
        num.contains(m(Op::Int, n, 0)),
        m(Op::Int, 0, 0) == 0,
        m(Op::Int, 1, 0) == ONE_BITS,
        0 < n ==> m(Op::Int, n, 0) == m(Op::Add, m(Op::Int, (n - 1) as u32, 0), ONE_BITS),
    decreases n,
{
    lemma_zero(m, num);
    assert(law_of_int(m, 0) && law_of_int(m, 1) && law_of_int(m, n)) by {
        reveal(is_exact);
    }
    lemma_closed(m, num, ONE_BITS, 0);
    if n > 0 {
        lemma_int(m, num, (n - 1) as u32);
        lemma_closed(m, num, m(Op::Int, (n - 1) as u32, 0), ONE_BITS);
    }
}

/// The image of a sum is the sum of the images.
pub(crate) proof fn lemma_int_sum(m: Calc, num: Set<u32>, a: u32, b: u32)
    requires
        is_exact(m, num),
        a + b <= u32::MAX,
    ensures
        m(Op::Int, (a + b) as u32, 0) == m(Op::Add, m(Op::Int, a, 0), m(Op::Int, b, 0)),
    decreases b,
{
    lemma_zero(m, num);
    lemma_int(m, num, a);
    lemma_int(m, num, b);
    lemma_closed(m, num, m(Op::Int, a, 0), ONE_BITS);
    if b > 0 {
        let c = (b - 1) as u32;
        lemma_int_sum(m, num, a, c);
        lemma_int(m, num, c);
        lemma_int(m, num, (a + b) as u32);
        lemma_three(m, num, m(Op::Int, a, 0), m(Op::Int, c, 0), ONE_BITS);
    }
}

// ---------------------------------------------------------------------------
// Sums of many numbers
// ---------------------------------------------------------------------------

/// The sum of some numbers.
pub open spec fn sum(m: Calc, terms: Seq<u32>) -> u32 {
    arith::total(m, 0, terms)
}

pub(crate) proof fn lemma_total(m: Calc, num: Set<u32>, from: u32, terms: Seq<u32>)
    requires
        is_exact(m, num),
        num.contains(from),
        all_in(num, terms),
    ensures
        num.contains(arith::total(m, from, terms)),
        num.contains(sum(m, terms)),
        arith::total(m, from, terms) == m(Op::Add, from, sum(m, terms)),
    decreases terms.len(),
{
    lemma_closed(m, num, from, from);
    if terms.len() > 0 {
        let init = terms.drop_last();
        assert forall|i: int| 0 <= i < init.len() implies num.contains(#[trigger] init[i]) by {
            assert(init[i] == terms[i]);
        }
        lemma_total(m, num, from, init);
        let x = terms.last();
        lemma_closed(m, num, arith::total(m, from, init), x);
        lemma_closed(m, num, sum(m, init), x);
        lemma_three(m, num, from, sum(m, init), x);
    }
}

/// The sum of a sequence is the sum of its parts' sums.
pub(crate) proof fn lemma_sum_concat(m: Calc, num: Set<u32>, a: Seq<u32>, b: Seq<u32>)
    requires
        is_exact(m, num),
        all_in(num, a),
        all_in(num, b),
    ensures
        all_in(num, a + b),
        sum(m, a + b) == m(Op::Add, sum(m, a), sum(m, b)),
    decreases b.len(),
{
    lemma_zero(m, num);
    lemma_total(m, num, 0, a);
    if b.len() == 0 {
        lemma_closed(m, num, sum(m, a), 0);
        assert(a + b =~= a);
    } else {
        let init = b.drop_last();
        assert forall|i: int| 0 <= i < init.len() implies num.contains(#[trigger] init[i]) by {
            assert(init[i] == b[i]);
        }
        lemma_sum_concat(m, num, a, init);
        lemma_total(m, num, 0, init);
        assert((a + b).drop_last() =~= a + init);
        assert((a + b).last() == b.last());
        lemma_three(m, num, sum(m, a), sum(m, init), b.last());
    }
}

/// Sums of the same numbers of terms, added term by term.
pub(crate) proof fn lemma_sum_of_pairs(
    m: Calc,
    num: Set<u32>,
    a: Seq<u32>,
    b: Seq<u32>,
    c: Seq<u32>,
)
    requires
        is_exact(m, num),
        a.len() == b.len(),
        c.len() == a.len(),
        all_in(num, a),
        all_in(num, b),
        forall|i: int| 0 <= i < c.len() ==> #[trigger] c[i] == m(Op::Add, a[i], b[i]),
    ensures
        sum(m, c) == m(Op::Add, sum(m, a), sum(m, b)),
        all_in(num, c),
    decreases a.len(),
{
    lemma_zero(m, num);
    if a.len() > 0 {
        let (x, y, z) = (a.drop_last(), b.drop_last(), c.drop_last());
        assert forall|i: int| 0 <= i < z.len() implies num.contains(#[trigger] x[i])
            && num.contains(#[trigger] y[i]) && #[trigger] z[i] == m(Op::Add, x[i], y[i]) by {
            assert(x[i] == a[i] && y[i] == b[i] && z[i] == c[i]);
        }
        lemma_sum_of_pairs(m, num, x, y, z);
        lemma_total(m, num, 0, x);
        lemma_total(m, num, 0, y);
        assert(c.last() == m(Op::Add, a.last(), b.last()));
        lemma_sum_of_sums(m, num, sum(m, x), sum(m, y), a.last(), b.last());
        assert forall|i: int| 0 <= i < c.len() implies num.contains(#[trigger] c[i]) by {
            lemma_closed(m, num, a[i], b[i]);
        }
    }
}

/// A sum whose terms are all multiplied by a factor.
pub(crate) proof fn lemma_sum_of_multiples(
    m: Calc,
    num: Set<u32>,
    a: Seq<u32>,
    factor: u32,
    c: Seq<u32>,
)
    requires
        is_exact(m, num),
        num.contains(factor),
        c.len() == a.len(),
        all_in(num, a),
        forall|i: int| 0 <= i < c.len() ==> #[trigger] c[i] == m(Op::Mul, a[i], factor),
    ensures
        sum(m, c) == m(Op::Mul, sum(m, a), factor),
        all_in(num, c),
    decreases a.len(),
{
    lemma_mul_sub(m, num, factor, factor, factor);
    lemma_closed(m, num, factor, factor);
    if a.len() > 0 {
        let (x, z) = (a.drop_last(), c.drop_last());
        assert forall|i: int| 0 <= i < z.len() implies num.contains(#[trigger] x[i])
            && #[trigger] z[i] == m(Op::Mul, x[i], factor) by {
            assert(x[i] == a[i] && z[i] == c[i]);
        }
        lemma_sum_of_multiples(m, num, x, factor, z);
        lemma_total(m, num, 0, x);
        assert(c.last() == m(Op::Mul, a.last(), factor));
        lemma_three(m, num, factor, sum(m, x), a.last());
        assert forall|i: int| 0 <= i < c.len() implies num.contains(#[trigger] c[i]) by {
            lemma_closed(m, num, a[i], factor);
        }
    }
}

/// The sum of the products of two rows' components.
pub open spec fn dot(m: Calc, a: Seq<u32>, b: Seq<u32>) -> u32 {
    sum(m, metric::products(m, a, b))
}

pub(crate) proof fn lemma_products_in(m: Calc, num: Set<u32>, a: Seq<u32>, b: Seq<u32>)
    requires
        is_exact(m, num),
        a.len() <= b.len(),
        all_in(num, a),
        all_in(num, b),
    ensures
        all_in(num, metric::products(m, a, b)),
        num.contains(dot(m, a, b)),
{
    assert forall|i: int| 0 <= i < a.len() implies num.contains(
        #[trigger] metric::products(m, a, b)[i],
    ) by {
        lemma_closed(m, num, a[i], b[i]);
    }
    lemma_zero(m, num);
    lemma_total(m, num, 0, metric::products(m, a, b));
}

} // verus!
