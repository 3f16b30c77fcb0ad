//! The random rotation that spreads a vector over all its components: sign flips
//! followed by a Walsh-Hadamard transform.

use vstd::arithmetic::power2::is_pow2;
use vstd::prelude::*;

use crate::arith;
use crate::arith::{minus, over, plus, root, times, whole, Calc, Op};
use crate::floatbits;
use crate::floatbits::{lt, NEG_ONE_BITS, ONE_BITS, TINY_BITS};

verus! {

// ---------------------------------------------------------------------------
// Signs
// ---------------------------------------------------------------------------

/// What the state of the sign generator grows by each step.
pub const SIGN_STEP: u64 = 0x9E37_79B9_7F4A_7C15;

/// What the seed takes from the length.
pub const SIGN_SEED: u64 = 0xD1B5_4A32_D192_ED03;

/// The state of the sign generator for a length after some steps.
pub open spec fn sign_state(n: usize, steps: nat) -> u64
    decreases steps,
{
    if steps == 0 {
        SIGN_STEP ^ (n as u64).wrapping_mul(SIGN_SEED)
    } else {
        sign_state(n, (steps - 1) as nat).wrapping_add(SIGN_STEP)
    }
}

/// SplitMix64's mix of a state.
pub open spec fn mixed(state: u64) -> u64 {
    let a = (state ^ (state >> 30)).wrapping_mul(0xBF58_476D_1CE4_E5B9);
    let b = (a ^ (a >> 27)).wrapping_mul(0x94D0_49BB_1331_11EB);
    b ^ (b >> 31)
}

/// Sign `i` of the rotation of length `n`: plus or minus one.
pub open spec fn sign_at(n: usize, i: nat) -> u32 {
    if mixed(sign_state(n, i + 1)) & 1 == 0 {
        ONE_BITS
    } else {
        NEG_ONE_BITS
    }
}

/// The signs of the rotation of length `n`.
pub open spec fn signs_of(n: usize) -> Seq<u32> {
    Seq::new(n as nat, |i: int| sign_at(n, i as nat))
}

/// The lengths that have a rotation: the powers of two from 4 to 8192.
pub open spec fn has_rotation(n: int) -> bool {
    ||| n == 4
    ||| n == 8
    ||| n == 16
    ||| n == 32
    ||| n == 64
    ||| n == 128
    ||| n == 256
    ||| n == 512
    ||| n == 1024
    ||| n == 2048
    ||| n == 4096
    ||| n == 8192
}

/// Fills in the signs of the rotation of length `n`.
fn make_signs(n: usize) -> (r: Vec<u32>)
    ensures
        r@ == signs_of(n),
{
    let mut state: u64 = SIGN_STEP ^ (n as u64).wrapping_mul(SIGN_SEED);
    let mut signs: Vec<u32> = Vec::new();
    for i in 0..n
        invariant
            state == sign_state(n, i as nat),
            signs@.len() == i,
            forall|j: int| 0 <= j < i ==> #[trigger] signs@[j] == sign_at(n, j as nat),
    {
        state = state.wrapping_add(SIGN_STEP);
        let a: u64 = (state ^ (state >> 30)).wrapping_mul(0xBF58_476D_1CE4_E5B9);
        let b: u64 = (a ^ (a >> 27)).wrapping_mul(0x94D0_49BB_1331_11EB);
        let z: u64 = b ^ (b >> 31);
        signs.push(
            if z & 1 == 0 {
                ONE_BITS
            } else {
                NEG_ONE_BITS
            },
        );
    }
    assert(signs@ =~= signs_of(n));
    signs
}

/// The signs of the rotation of length `N`.
pub fn rotation_signs_array<const N: usize>() -> (r: [u32; N])
    ensures
        r@ == signs_of(N),
{
    let signs: Vec<u32> = make_signs(N);
    let mut r: [u32; N] = [ONE_BITS; N];
    for i in 0..N
        invariant
            signs@ == signs_of(N),
            forall|j: int| 0 <= j < i ==> r@[j] == signs@[j],
    {
        r[i] = signs[i];
    }
    assert(r@ =~= signs_of(N));
    r
}

/// Whether there is a rotation of length `n`.
pub fn is_rotation_size(n: usize) -> (r: bool)
    ensures
        r == has_rotation(n as int),
{
    n == 4 || n == 8 || n == 16 || n == 32 || n == 64 || n == 128 || n == 256 || n == 512 || n
        == 1024 || n == 2048 || n == 4096 || n == 8192
}

/// The signs of a rotation.
pub fn rotation_signs(padded: usize) -> (r: Vec<u32>)
    requires
        has_rotation(padded as int),
    ensures
        r@ == signs_of(padded),
{
    make_signs(padded)
}

// ---------------------------------------------------------------------------
// Walsh-Hadamard transform
// ---------------------------------------------------------------------------

/// One pass of the transform: the entries of each run of `2 * h` are paired across
/// its halves, and each pair is replaced by its sum and its difference.
pub open spec fn butterfly(m: Calc, a: Seq<u32>, h: int) -> Seq<u32> {
    Seq::new(
        a.len(),
        |k: int|
            if k % (2 * h) < h {
                m(Op::Add, a[k], a[k + h])
            } else {
                m(Op::Sub, a[k - h], a[k])
            },
    )
}

/// The passes of the transform from half-width `h` on.
pub open spec fn passes(m: Calc, a: Seq<u32>, h: int) -> Seq<u32>
    decreases if h < a.len() { a.len() - h } else { 0 },
{
    if 1 <= h < a.len() {
        passes(m, butterfly(m, a, h), 2 * h)
    } else {
        a
    }
}

/// What the transform of `n` entries multiplies them by at the end.
pub open spec fn shrink(m: Calc, n: nat) -> u32 {
    m(Op::Div, ONE_BITS, m(Op::Sqrt, m(Op::Int, n as u32, 0), 0))
}

/// The normalized transform.
pub open spec fn transformed(m: Calc, a: Seq<u32>) -> Seq<u32> {
    passes(m, a, 1).map_values(|x: u32| m(Op::Mul, x, shrink(m, a.len())))
}

pub(crate) proof fn lemma_passes_len(m: Calc, a: Seq<u32>, h: int)
    ensures
        passes(m, a, h).len() == a.len(),
    decreases if h < a.len() { a.len() - h } else { 0 },
{
    if 1 <= h < a.len() {
        lemma_passes_len(m, butterfly(m, a, h), 2 * h);
    }
}

/// Position of an entry in its run.
pub(crate) proof fn lemma_in_run(run: int, h: int, t: int)
    requires
        0 <= t < 2 * h,
        0 <= run,
    ensures
        (run * (2 * h) + t) % (2 * h) == t,
{
    vstd::arithmetic::div_mod::lemma_mod_multiples_vanish(run, t, 2 * h);
    vstd::arithmetic::div_mod::lemma_small_mod(t as nat, (2 * h) as nat);
    assert(run * (2 * h) + t == (2 * h) * run + t) by (nonlinear_arith);
}

/// One pass of the transform.
fn butterfly_pass<A: Fn(Op, u32, u32) -> u32>(
    arith: &A,
    a: &mut [u32],
    h: usize,
    Ghost(runs): Ghost<int>,
)
    requires
        arith::is_arithmetic(*arith),
        1 <= h,
        0 <= runs,
        old(a)@.len() == runs * (2 * h),
    ensures
        final(a)@ == butterfly(arith::calc(*arith), old(a)@, h as int),
{
    let n: usize = a.len();
    let ghost m = arith::calc(*arith);
    let ghost before = a@;
    let ghost done = butterfly(m, before, h as int);
    let mut i: usize = 0;
    let ghost mut run: int = 0;
    while i < n
        invariant
            arith::is_arithmetic(*arith),
            m == arith::calc(*arith),
            1 <= h,
            0 <= run <= runs,
            i == run * (2 * h),
            n == runs * (2 * h),
            n == a@.len(),
            n == before.len(),
            done == butterfly(m, before, h as int),
            forall|k: int| 0 <= k < i ==> #[trigger] a@[k] == done[k],
            forall|k: int| i <= k < n ==> #[trigger] a@[k] == before[k],
        decreases n - i,
    {
        proof {
            assert(run < runs) by (nonlinear_arith)
                requires
                    run * (2 * h) < runs * (2 * h),
                    1 <= h,
            ;
            assert((run + 1) * (2 * h) == run * (2 * h) + 2 * h) by (nonlinear_arith);
            assert((run + 1) * (2 * h) <= runs * (2 * h)) by (nonlinear_arith)
                requires
                    run + 1 <= runs,
                    1 <= h,
            ;
        }
        let mid: usize = i + h;
        let mut j: usize = i;
        while j < mid
            invariant
                arith::is_arithmetic(*arith),
                m == arith::calc(*arith),
                1 <= h,
                0 <= run < runs,
                i == run * (2 * h),
                i + 2 * h <= n,
                mid == i + h,
                i <= j <= mid,
                n == a@.len(),
                n == before.len(),
                done == butterfly(m, before, h as int),
                forall|k: int| 0 <= k < i ==> #[trigger] a@[k] == done[k],
                forall|k: int| i <= k < j ==> #[trigger] a@[k] == done[k],
                forall|k: int| j <= k < mid ==> #[trigger] a@[k] == before[k],
                forall|k: int| mid <= k < j + h ==> #[trigger] a@[k] == done[k],
                forall|k: int| j + h <= k < n ==> #[trigger] a@[k] == before[k],
            decreases mid - j,
        {
            proof {
                lemma_in_run(run, h as int, j - i);
                lemma_in_run(run, h as int, j - i + h);
            }
            let x: u32 = a[j];
            let y: u32 = a[j + h];
            a[j] = plus(arith, x, y);
            a[j + h] = minus(arith, x, y);
            j = j + 1;
        }
        proof {
            run = run + 1;
        }
        i = mid + h;
    }
    assert(a@ =~= done);
}

/// Normalized Walsh-Hadamard transform in place.
pub fn fwht_inplace<A: Fn(Op, u32, u32) -> u32>(arith: &A, a: &mut [u32])
    requires
        arith::is_arithmetic(*arith),
        is_pow2(old(a)@.len() as int),
        old(a)@.len() <= u32::MAX,
    ensures
        final(a)@ == transformed(arith::calc(*arith), old(a)@),
{
    let n: usize = a.len();
    let ghost m = arith::calc(*arith);
    let ghost before = a@;
    let ghost mut runs: int = n as int;
    let mut h: usize = 1;
    while h < n
        invariant
            arith::is_arithmetic(*arith),
            m == arith::calc(*arith),
            1 <= h,
            n == a@.len(),
            n == runs * h,
            is_pow2(runs),
            passes(m, a@, h as int) == passes(m, before, 1),
        decreases n - h,
    {
        proof {
            reveal(is_pow2);
            assert(runs != 1);
            assert(n == (runs / 2) * (2 * h)) by (nonlinear_arith)
                requires
                    n == runs * h,
                    runs == 2 * (runs / 2),
            ;
            assert(2 * h <= n) by (nonlinear_arith)
                requires
                    n == (runs / 2) * (2 * h),
                    runs / 2 >= 1,
                    h >= 1,
            ;
        }
        butterfly_pass(arith, a, h, Ghost(runs / 2));
        proof {
            runs = runs / 2;
        }
        h = h * 2;
    }
    let ghost mid = a@;
    let s: u32 = over(arith, ONE_BITS, root(arith, whole(arith, n as u32)));
    for i in 0..n
        invariant
            arith::is_arithmetic(*arith),
            m == arith::calc(*arith),
            n == a@.len(),
            n == mid.len(),
            s == shrink(m, n as nat),
            forall|k: int| 0 <= k < i ==> #[trigger] a@[k] == m(Op::Mul, mid[k], s),
            forall|k: int| i <= k < n ==> #[trigger] a@[k] == mid[k],
    {
        let x: u32 = a[i];
        a[i] = times(arith, x, s);
    }
    proof {
        lemma_passes_len(m, before, 1);
    }
    assert(a@ =~= transformed(m, before));
}

pub(crate) proof fn lemma_rotation_is_pow2(n: int)
    requires
        has_rotation(n),
    ensures
        is_pow2(n),
{
    reveal(is_pow2);
    reveal_with_fuel(is_pow2, 14);
}

// ---------------------------------------------------------------------------
// Rotation
// ---------------------------------------------------------------------------

/// The squares of a row's components.
pub open spec fn squares(m: Calc, row: Seq<u32>) -> Seq<u32> {
    row.map_values(|x: u32| m(Op::Mul, x, x))
}

/// The length of a row.
pub open spec fn norm_of(m: Calc, row: Seq<u32>) -> u32 {
    m(Op::Sqrt, arith::total(m, 0, squares(m, row)), 0)
}

/// What a row is multiplied by to have unit length; zero for a row without length.
pub open spec fn to_unit(m: Calc, norm: u32) -> u32 {
    if floatbits::less(TINY_BITS, norm) {
        m(Op::Div, ONE_BITS, norm)
    } else {
        0
    }
}

/// A row scaled to unit length, with signs applied, filled up with zeros.
pub open spec fn flipped(m: Calc, row: Seq<u32>, padded: nat, signs: Seq<u32>) -> Seq<u32> {
    Seq::new(
        padded,
        |i: int|
            if i < row.len() {
                m(Op::Mul, m(Op::Mul, row[i], to_unit(m, norm_of(m, row))), signs[i])
            } else {
                0
            },
    )
}

/// A row scaled to unit length and rotated.
pub open spec fn rotated(m: Calc, row: Seq<u32>, padded: nat, signs: Seq<u32>) -> Seq<u32> {
    transformed(m, flipped(m, row, padded, signs))
}

/// A row rotated back.
pub open spec fn unrotated(m: Calc, a: Seq<u32>, signs: Seq<u32>) -> Seq<u32> {
    Seq::new(a.len(), |i: int| m(Op::Mul, transformed(m, a)[i], signs[i]))
}

/// The length of a row.
pub(crate) fn row_norm<A: Fn(Op, u32, u32) -> u32>(arith: &A, row: &[u32]) -> (r: u32)
    requires
        arith::is_arithmetic(*arith),
    ensures
        r == norm_of(arith::calc(*arith), row@),
{
    let ghost m = arith::calc(*arith);
    let ghost terms = squares(m, row@);
    let n: usize = row.len();
    let mut nsq: u32 = 0;
    for i in 0..n
        invariant
            arith::is_arithmetic(*arith),
            m == arith::calc(*arith),
            n == row@.len(),
            terms == squares(m, row@),
            nsq == arith::total(m, 0, terms.take(i as int)),
    {
        let x: u32 = row[i];
        nsq = plus(arith, nsq, times(arith, x, x));
        proof {
            arith::lemma_total_next(m, 0, terms, i as int);
        }
    }
    assert(terms.take(n as int) =~= terms);
    root(arith, nsq)
}

/// Scales a row to unit length and rotates it; gives the row's length too.
pub fn rotate_row<A: Fn(Op, u32, u32) -> u32>(
    arith: &A,
    src: &[u32],
    padded: usize,
    signs: &[u32],
) -> (r: (Vec<u32>, u32))
    requires
        arith::is_arithmetic(*arith),
        is_pow2(padded as int),
        padded <= u32::MAX,
        src@.len() <= padded,
        src@.len() <= signs@.len(),
    ensures
        r.0@ == rotated(arith::calc(*arith), src@, padded as nat, signs@),
        r.1 == norm_of(arith::calc(*arith), src@),
{
    let ghost m = arith::calc(*arith);
    let dim: usize = src.len();
    let norm: u32 = row_norm(arith, src);
    let inv: u32 = if lt(TINY_BITS, norm) {
        over(arith, ONE_BITS, norm)
    } else {
        0
    };
    let mut dst: Vec<u32> = Vec::new();
    for i in 0..padded
        invariant
            arith::is_arithmetic(*arith),
            m == arith::calc(*arith),
            dim == src@.len(),
            dim <= padded,
            dim <= signs@.len(),
            inv == to_unit(m, norm_of(m, src@)),
            dst@.len() == i,
            forall|k: int|
                0 <= k < i ==> #[trigger] dst@[k] == flipped(m, src@, padded as nat, signs@)[k],
    {
        if i < dim {
            dst.push(times(arith, times(arith, src[i], inv), signs[i]));
        } else {
            dst.push(0);
        }
    }
    assert(dst@ =~= flipped(m, src@, padded as nat, signs@));
    fwht_inplace(arith, dst.as_mut_slice());
    (dst, norm)
}

/// Rotates a row back.
pub fn inverse_rotate_inplace<A: Fn(Op, u32, u32) -> u32>(
    arith: &A,
    v: &mut Vec<u32>,
    signs: &[u32],
)
    requires
        arith::is_arithmetic(*arith),
        is_pow2(old(v)@.len() as int),
        old(v)@.len() <= u32::MAX,
        old(v)@.len() <= signs@.len(),
    ensures
        final(v)@ == unrotated(arith::calc(*arith), old(v)@, signs@),
{
    let ghost m = arith::calc(*arith);
    let ghost before = v@;
    let n: usize = v.len();
    proof {
        lemma_passes_len(m, before, 1);
    }
    fwht_inplace(arith, v.as_mut_slice());
    let ghost mid = v@;
    for i in 0..n
        invariant
            arith::is_arithmetic(*arith),
            m == arith::calc(*arith),
            n == v@.len(),
            n == mid.len(),
            n <= signs@.len(),
            forall|k: int| 0 <= k < i ==> #[trigger] v@[k] == m(Op::Mul, mid[k], signs@[k]),
            forall|k: int| i <= k < n ==> #[trigger] v@[k] == mid[k],
    {
        let x: u32 = v[i];
        v[i] = times(arith, x, signs[i]);
    }
    assert(v@ =~= unrotated(m, before, signs@));
}

pub(crate) proof fn lemma_rotated_len(m: Calc, row: Seq<u32>, padded: nat, signs: Seq<u32>)
    ensures
        rotated(m, row, padded, signs).len() == padded,
{
    lemma_passes_len(m, flipped(m, row, padded, signs), 1);
}

} // verus!
