//! Arithmetic on 32-bit IEEE numbers, as the caller performs it.
//!
//! A function that computes with numbers takes the operations from its caller, on
//! bit patterns. What it returns is stated over the results of these operations:
//! which are performed on what, and in which order.

use vstd::prelude::*;

verus! {

/// An operation on numbers.
#[derive(Clone, Copy, Debug, PartialEq, Eq, Structural)]
pub enum Op {
    /// Sum of two numbers.
    Add,
    /// First number less the second.
    Sub,
    /// Product of two numbers.
    Mul,
    /// First number divided by the second.
    Div,
    /// Square root of the first number; the second is not looked at.
    Sqrt,
    /// The number nearest to an integer, which stands in the place of the first
    /// number's pattern; the second is not looked at.
    Int,
}

/// Results of the operations.
pub type Calc = spec_fn(Op, u32, u32) -> u32;

/// Whether the operations work on all patterns and give the same result for the
/// same operands each time.
pub open spec fn is_arithmetic<A: Fn(Op, u32, u32) -> u32>(a: A) -> bool {
    &&& forall|op: Op, x: u32, y: u32| #[trigger] a.requires((op, x, y))
    &&& forall|op: Op, x: u32, y: u32, r1: u32, r2: u32| #[trigger]
        a.ensures((op, x, y), r1) && #[trigger] a.ensures((op, x, y), r2) ==> r1 == r2
}

/// The results that the operations give.
pub open spec fn calc<A: Fn(Op, u32, u32) -> u32>(a: A) -> Calc {
    |op: Op, x: u32, y: u32| choose|r: u32| a.ensures((op, x, y), r)
}

/// The sum of a first number and further ones, added one by one.
pub open spec fn total(m: Calc, from: u32, terms: Seq<u32>) -> u32
    decreases terms.len(),
{
    if terms.len() == 0 {
        from
    } else {
        m(Op::Add, total(m, from, terms.drop_last()), terms.last())
    }
}

/// Sum.
pub(crate) fn plus<A: Fn(Op, u32, u32) -> u32>(a: &A, x: u32, y: u32) -> (r: u32)
    requires
        is_arithmetic(*a),
    ensures
        r == calc(*a)(Op::Add, x, y),
{
    a(Op::Add, x, y)
}

/// Difference.
pub(crate) fn minus<A: Fn(Op, u32, u32) -> u32>(a: &A, x: u32, y: u32) -> (r: u32)
    requires
        is_arithmetic(*a),
    ensures
        r == calc(*a)(Op::Sub, x, y),
{
    a(Op::Sub, x, y)
}

/// Product.
pub(crate) fn times<A: Fn(Op, u32, u32) -> u32>(a: &A, x: u32, y: u32) -> (r: u32)
    requires
        is_arithmetic(*a),
    ensures
        r == calc(*a)(Op::Mul, x, y),
{
    a(Op::Mul, x, y)
}

/// Quotient.
pub(crate) fn over<A: Fn(Op, u32, u32) -> u32>(a: &A, x: u32, y: u32) -> (r: u32)
    requires
        is_arithmetic(*a),
    ensures
        r == calc(*a)(Op::Div, x, y),
{
    a(Op::Div, x, y)
}

/// Square root.
pub(crate) fn root<A: Fn(Op, u32, u32) -> u32>(a: &A, x: u32) -> (r: u32)
    requires
        is_arithmetic(*a),
    ensures
        r == calc(*a)(Op::Sqrt, x, 0),
{
    a(Op::Sqrt, x, 0)
}

/// The number nearest to an integer.
pub(crate) fn whole<A: Fn(Op, u32, u32) -> u32>(a: &A, x: u32) -> (r: u32)
    requires
        is_arithmetic(*a),
    ensures
        r == calc(*a)(Op::Int, x, 0),
{
    a(Op::Int, x, 0)
}

pub(crate) proof fn lemma_total_next(m: Calc, from: u32, terms: Seq<u32>, i: int)
    requires
        0 <= i < terms.len(),
    ensures
        total(m, from, terms.take(i + 1)) == m(Op::Add, total(m, from, terms.take(i)), terms[i]),
{
    assert(terms.take(i + 1).drop_last() =~= terms.take(i));
}

/// Summing adds each number once, in its order, to what was summed before.
pub proof fn sums_add_each_number(m: Calc, from: u32, terms: Seq<u32>, x: u32)
    ensures
        total(m, from, Seq::empty()) == from,
        total(m, from, terms.push(x)) == m(Op::Add, total(m, from, terms), x),
{
    assert(terms.push(x).drop_last() =~= terms);
}

} // verus!
