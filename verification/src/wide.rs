//! Arithmetic on 64-bit IEEE numbers, as the caller performs it, and comparisons of
//! their bit patterns.

use vstd::prelude::*;

verus! {

/// An operation on 64-bit numbers.
#[derive(Clone, Copy, Debug, PartialEq, Eq, Structural)]
pub enum WideOp {
    /// Sum of two numbers.
    Add,
    /// First number less the second.
    Sub,
    /// Product of two numbers.
    Mul,
    /// First number divided by the second.
    Div,
    /// Square root of the first number; the second is not looked at.
    Sqrt,
    /// The exponential function of the first number; the second is not looked at.
    Exp,
    /// The number nearest to an integer, which stands in the place of the first
    /// number's pattern; the second is not looked at.
    Int,
    /// The integer nearest to the first number, zero for what is below or is no number;
    /// the second is not looked at.
    Round,
    /// The 32-bit number nearest to the first number, its pattern in the low half; the
    /// second is not looked at.
    Narrow,
    /// The 32-bit number whose pattern stands in the place of the first number's; the
    /// second is not looked at.
    Widen,
}

/// Results of the operations.
pub type WideCalc = spec_fn(WideOp, u64, u64) -> u64;

/// Whether the operations work on all patterns and give the same result for the same
/// operands each time.
pub open spec fn is_arithmetic<W: Fn(WideOp, u64, u64) -> u64>(w: W) -> bool {
    &&& forall|op: WideOp, x: u64, y: u64| #[trigger] w.requires((op, x, y))
    &&& forall|op: WideOp, x: u64, y: u64, r1: u64, r2: u64| #[trigger]
        w.ensures((op, x, y), r1) && #[trigger] w.ensures((op, x, y), r2) ==> r1 == r2
}

/// The results that the operations give.
pub open spec fn calc<W: Fn(WideOp, u64, u64) -> u64>(w: W) -> WideCalc {
    |op: WideOp, x: u64, y: u64| choose|r: u64| w.ensures((op, x, y), r)
}

/// Performs an operation.
pub(crate) fn perform<W: Fn(WideOp, u64, u64) -> u64>(w: &W, op: WideOp, x: u64, y: u64) -> (r: u64)
    requires
        is_arithmetic(*w),
    ensures
        r == calc(*w)(op, x, y),
{
    w(op, x, y)
}

// ---------------------------------------------------------------------------
// Patterns
// ---------------------------------------------------------------------------

/// Pattern of negative zero, and the weight of the sign bit.
pub const SIGN_BIT: u64 = 0x8000_0000_0000_0000;

/// Pattern of positive infinity.
pub const INFINITY_BITS: u64 = 0x7ff0_0000_0000_0000;

/// Whether the sign bit is set.
pub open spec fn is_negative(bits: u64) -> bool {
    bits >= SIGN_BIT
}

/// The pattern without its sign bit.
pub open spec fn magnitude(bits: u64) -> int {
    if is_negative(bits) {
        bits - SIGN_BIT
    } else {
        bits as int
    }
}

/// Whether the pattern is not a number.
pub open spec fn is_nan(bits: u64) -> bool {
    magnitude(bits) > INFINITY_BITS
}

/// Position of a number on the number line; both zeros stand at 0.
pub open spec fn value_rank(bits: u64) -> int {
    if is_negative(bits) {
        -magnitude(bits)
    } else {
        magnitude(bits)
    }
}

/// IEEE `a < b`.
pub open spec fn less(a: u64, b: u64) -> bool {
    !is_nan(a) && !is_nan(b) && value_rank(a) < value_rank(b)
}

/// The pattern with its sign bit cleared.
pub open spec fn absolute(bits: u64) -> u64 {
    magnitude(bits) as u64
}

/// The pattern with its sign bit turned over.
pub open spec fn opposite(bits: u64) -> u64 {
    if is_negative(bits) {
        (bits - SIGN_BIT) as u64
    } else {
        (bits + SIGN_BIT) as u64
    }
}

/// Absolute value.
pub fn abs(bits: u64) -> (r: u64)
    ensures
        r == absolute(bits),
{
    if bits >= SIGN_BIT {
        bits - SIGN_BIT
    } else {
        bits
    }
}

/// Negation.
pub fn neg(bits: u64) -> (r: u64)
    ensures
        r == opposite(bits),
{
    if bits >= SIGN_BIT {
        bits - SIGN_BIT
    } else {
        bits + SIGN_BIT
    }
}

/// IEEE `a < b` on patterns.
pub fn lt(a: u64, b: u64) -> (r: bool)
    ensures
        r == less(a, b),
{
    if abs(a) > INFINITY_BITS || abs(b) > INFINITY_BITS {
        false
    } else if a >= SIGN_BIT {
        if b >= SIGN_BIT {
            a > b
        } else {
            a > SIGN_BIT || b > 0
        }
    } else {
        b < SIGN_BIT && a < b
    }
}

/// How patterns are ordered: patterns without the sign bit like the integers that they are,
/// patterns with it the other way round and below those without. Only a zero is not below
/// the other zero, and what is not a number is below nothing and above nothing.
pub proof fn patterns_are_ordered_by_sign_and_size(a: u64, b: u64)
    ensures
        ({
            let (x, y) = (a as int, b as int);
            let sign = 0x8000_0000_0000_0000int;
            let top = 0x7ff0_0000_0000_0000int;
            let below = if x < sign && y < sign {
                x < y
            } else if x >= sign && y >= sign {
                x > y
            } else {
                x >= sign
            };
            &&& less(a, b)
                == (x % sign <= top && y % sign <= top && below && !(x == sign && y == 0))
            &&& absolute(a) == x % sign
            &&& opposite(a) == (x + sign) % (2 * sign)
        }),
{
}

} // verus!
