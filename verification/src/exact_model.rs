//! A model of exact arithmetic: the integers modulo seven.

use vstd::prelude::*;

use crate::arith::{Calc, Op};
use crate::exact;
use crate::floatbits::{NEG_ONE_BITS, ONE_BITS, TWO_BITS};
use crate::rotation;
use crate::rotation_laws;

verus! {

/// The residue that a pattern stands for; 7 for patterns that stand for none.
#[verifier::opaque]
pub open spec fn residue(x: u32) -> int {
    if x == 0 {
        0
    } else if x == ONE_BITS {
        1
    } else if x == TWO_BITS {
        2
    } else if x == 3 {
        3
    } else if x == 4 {
        4
    } else if x == 5 {
        5
    } else if x == NEG_ONE_BITS {
        6
    } else {
        7
    }
}

/// The pattern that stands for a residue.
#[verifier::opaque]
pub open spec fn pattern(r: int) -> u32 {
    if r == 0 {
        0
    } else if r == 1 {
        ONE_BITS
    } else if r == 2 {
        TWO_BITS
    } else if r == 3 {
        3
    } else if r == 4 {
        4
    } else if r == 5 {
        5
    } else {
        NEG_ONE_BITS
    }
}

/// What a residue is multiplied by to give one.
pub open spec fn inverse(r: int) -> int {
    if r == 2 {
        4
    } else if r == 4 {
        2
    } else if r == 3 {
        5
    } else if r == 5 {
        3
    } else {
        r
    }
}

/// A root of the residues that have one.
pub open spec fn root(r: int) -> int {
    if r == 2 {
        3
    } else if r == 4 {
        2
    } else {
        r
    }
}

/// The operations on residues.
pub open spec fn modular() -> Calc {
    |op: Op, x: u32, y: u32|
        match op {
            Op::Add => pattern((residue(x) + residue(y)) % 7),
            Op::Sub => pattern((residue(x) - residue(y)) % 7),
            Op::Mul => pattern((residue(x) * residue(y)) % 7),
            Op::Div => pattern((residue(x) * inverse(residue(y))) % 7),
            Op::Sqrt => pattern(root(residue(x))),
            Op::Int => pattern(x as int % 7),
        }
}

/// The patterns that stand for residues.
pub open spec fn residues() -> Set<u32> {
    Set::new(|x: u32| residue(x) < 7)
}

proof fn lemma_pattern(r: int)
    requires
        0 <= r < 7,
    ensures
        residue(pattern(r)) == r,
        residues().contains(pattern(r)),
{
    reveal(residue);
    reveal(pattern);
}

proof fn lemma_residue(x: u32)
    ensures
        0 <= residue(x),
        residue(x) < 7 ==> pattern(residue(x)) == x,
        residue(0) == 0,
        residue(ONE_BITS) == 1,
        residue(TWO_BITS) == 2,
        residue(NEG_ONE_BITS) == 6,
        pattern(0) == 0,
        pattern(2) == TWO_BITS,
        residue(x) == 0 ==> x == 0,
{
    reveal(residue);
    reveal(pattern);
}

proof fn lemma_two(x: u32, y: u32)
    ensures
        exact::laws_of_two(modular(), residues(), x, y),
{
    let (a, b) = (residue(x), residue(y));
    lemma_residue(x);
    lemma_residue(y);
    if a < 7 && b < 7 {
        lemma_pattern((a + b) % 7);
        lemma_pattern((a - b) % 7);
        lemma_pattern((a * b) % 7);
        assert(((a - b) % 7 + b) % 7 == a);
        assert(a * b == b * a) by (nonlinear_arith);
        if b != 0 {
            let c = inverse(b);
            lemma_pattern((a * c) % 7);
            vstd::arithmetic::div_mod::lemma_mul_mod_noop_left(a * c, b, 7);
            assert((a * c) * b == a * (c * b)) by (nonlinear_arith);
            assert(c * b == 1 || c * b == 8 || c * b == 15 || c * b == 36) by (nonlinear_arith)
                requires
                    (b == 1 && c == 1) || (b == 2 && c == 4) || (b == 3 && c == 5) || (b == 4 && c
                        == 2) || (b == 5 && c == 3) || (b == 6 && c == 6),
            ;
            vstd::arithmetic::div_mod::lemma_mul_mod_noop_right(a, c * b, 7);
            assert(a * 1 == a && (c * b) % 7 == 1);
        }
    }
}

proof fn lemma_three(x: u32, y: u32, z: u32)
    ensures
        exact::laws_of_three(modular(), residues(), x, y, z),
{
    let (a, b, c) = (residue(x), residue(y), residue(z));
    lemma_residue(x);
    lemma_residue(y);
    lemma_residue(z);
    if a < 7 && b < 7 && c < 7 {
        lemma_pattern((a + b) % 7);
        lemma_pattern((b + c) % 7);
        lemma_pattern((a * b) % 7);
        lemma_pattern((b * c) % 7);
        lemma_pattern((a * c) % 7);
        lemma_residue_sums(a, b, c);
        lemma_residue_products(a, b, c);
    }
}

proof fn lemma_residue_sums(a: int, b: int, c: int)
    ensures
        ((a + b) % 7 + c) % 7 == (a + (b + c) % 7) % 7,
{
}

proof fn lemma_residue_products(a: int, b: int, c: int)
    ensures
        ((a * b) % 7 * c) % 7 == (a * ((b * c) % 7)) % 7,
        (a * ((b + c) % 7)) % 7 == ((a * b) % 7 + (a * c) % 7) % 7,
{
    vstd::arithmetic::div_mod::lemma_mul_mod_noop_left(a * b, c, 7);
    vstd::arithmetic::div_mod::lemma_mul_mod_noop_right(a, b * c, 7);
    vstd::arithmetic::mul::lemma_mul_is_associative(a, b, c);
    vstd::arithmetic::div_mod::lemma_mul_mod_noop_right(a, b + c, 7);
    vstd::arithmetic::mul::lemma_mul_is_distributive_add(a, b, c);
    vstd::arithmetic::div_mod::lemma_add_mod_noop(a * b, a * c, 7);
}

proof fn lemma_int(n: u32)
    ensures
        exact::law_of_int(modular(), n),
{
    if n > 0 {
        lemma_pattern((n - 1) % 7);
    }
    lemma_residue(ONE_BITS);
}

/// There is exact arithmetic in which the length of every rotation has a root: the
/// integers modulo seven are such.
pub proof fn exact_arithmetic_exists()
    ensures
        exact::is_exact(modular(), residues()),
        forall|n: nat|
            rotation::has_rotation(n as int) ==> #[trigger] rotation_laws::has_exact_root(
                modular(),
                residues(),
                n,
            ),
{
    assert forall|x: u32, y: u32| #[trigger]
        exact::laws_of_two(modular(), residues(), x, y) by {
        lemma_two(x, y);
    }
    assert forall|x: u32, y: u32, z: u32| #[trigger]
        exact::laws_of_three(modular(), residues(), x, y, z) by {
        lemma_three(x, y, z);
    }
    assert forall|n: u32| #[trigger] exact::law_of_int(modular(), n) by {
        lemma_int(n);
    }
    assert forall|x: u32| #[trigger] exact::laws_of_one(modular(), residues(), x) by {
        lemma_residue(x);
        assert(residue(x) * 1 == residue(x));
    }
    assert forall|n: nat| rotation::has_rotation(n as int) implies #[trigger]
        rotation_laws::has_exact_root(modular(), residues(), n) by {
        let r = n as int % 7;
        assert(r == 1 || r == 2 || r == 4);
        lemma_pattern(r);
        lemma_pattern(root(r));
        lemma_residue(pattern(root(r)));
        assert((root(r) * root(r)) % 7 == r) by (nonlinear_arith)
            requires
                (r == 1 && root(r) == 1) || (r == 2 && root(r) == 3) || (r == 4 && root(r) == 2),
        ;
    }
    lemma_residue(0);
    reveal(exact::is_exact);
}

} // verus!
