//! What the rotation does where arithmetic is exact: it can be undone, and it keeps
//! inner products. What it adds up in any arithmetic. And what its signs do: those of
//! each length are their own.

use vstd::arithmetic::div_mod::{
    lemma_add_mod_noop, lemma_fundamental_div_mod, lemma_small_mod,
};
use vstd::arithmetic::power2::is_pow2;
use vstd::prelude::*;

use crate::arith;
use crate::arith::{Calc, Op};
use crate::exact;
use crate::floatbits;
use crate::floatbits::{NEG_ONE_BITS, ONE_BITS, TINY_BITS};
use crate::metric;
use crate::rotation;
use crate::rotation::{SIGN_SEED, SIGN_STEP};

verus! {

// ---------------------------------------------------------------------------
// One pass
// ---------------------------------------------------------------------------

/// Whether `n` entries fall into whole runs of `2 * h`.
pub open spec fn fits(n: int, h: int) -> bool {
    1 <= h && n % (2 * h) == 0
}

/// The partner of an entry lies in the same run.
pub(crate) proof fn lemma_partner(n: int, h: int, k: int)
    requires
        fits(n, h),
        0 <= k < n,
    ensures
        k % (2 * h) < h ==> k + h < n && (k + h) % (2 * h) == k % (2 * h) + h,
        k % (2 * h) >= h ==> 0 <= k - h && (k - h) % (2 * h) == k % (2 * h) - h,
{
    let w = 2 * h;
    let run = k / w;
    let t = k % w;
    vstd::arithmetic::div_mod::lemma_fundamental_div_mod(k, w);
    vstd::arithmetic::div_mod::lemma_fundamental_div_mod(n, w);
    vstd::arithmetic::div_mod::lemma_div_pos_is_pos(k, w);
    assert(run < n / w) by (nonlinear_arith)
        requires
            w * run + t == k,
            k < n,
            n == w * (n / w),
            0 <= t,
            0 < w,
    ;
    assert(w * (run + 1) <= w * (n / w)) by (nonlinear_arith)
        requires
            run + 1 <= n / w,
            0 < w,
    ;
    assert(w * (run + 1) == w * run + w) by (nonlinear_arith);
    assert(run * w == w * run) by (nonlinear_arith);
    assert(0 <= w * run) by (nonlinear_arith)
        requires
            0 <= run,
            0 < w,
    ;
    if t < h {
        rotation::lemma_in_run(run, h, t + h);
    } else {
        rotation::lemma_in_run(run, h, t - h);
    }
}

proof fn lemma_butterfly_in(m: Calc, num: Set<u32>, a: Seq<u32>, h: int)
    requires
        exact::is_exact(m, num),
        exact::all_in(num, a),
        fits(a.len() as int, h),
    ensures
        exact::all_in(num, rotation::butterfly(m, a, h)),
{
    assert forall|k: int| 0 <= k < a.len() implies num.contains(
        #[trigger] rotation::butterfly(m, a, h)[k],
    ) by {
        lemma_partner(a.len() as int, h, k);
        if k % (2 * h) < h {
            exact::lemma_closed(m, num, a[k], a[k + h]);
        } else {
            exact::lemma_closed(m, num, a[k - h], a[k]);
        }
    }
}

/// Each entry doubled.
pub open spec fn doubled(m: Calc, a: Seq<u32>) -> Seq<u32> {
    a.map_values(|x: u32| m(Op::Add, x, x))
}

/// Each entry multiplied by a factor.
pub open spec fn multiplied(m: Calc, a: Seq<u32>, factor: u32) -> Seq<u32> {
    a.map_values(|x: u32| m(Op::Mul, x, factor))
}

/// A pass made twice doubles every entry.
proof fn lemma_butterfly_twice(m: Calc, num: Set<u32>, a: Seq<u32>, h: int)
    requires
        exact::is_exact(m, num),
        exact::all_in(num, a),
        fits(a.len() as int, h),
    ensures
        rotation::butterfly(m, rotation::butterfly(m, a, h), h) == doubled(m, a),
{
    let b = rotation::butterfly(m, a, h);
    assert forall|k: int| 0 <= k < a.len() implies #[trigger] rotation::butterfly(m, b, h)[k]
        == doubled(m, a)[k] by {
        lemma_partner(a.len() as int, h, k);
        if k % (2 * h) < h {
            exact::lemma_sum_and_difference(m, num, a[k], a[k + h]);
        } else {
            exact::lemma_sum_and_difference(m, num, a[k - h], a[k]);
        }
    }
    assert(rotation::butterfly(m, b, h) =~= doubled(m, a));
}

/// A pass on multiplied entries multiplies what the pass gives.
proof fn lemma_butterfly_multiplied(m: Calc, num: Set<u32>, a: Seq<u32>, h: int, factor: u32)
    requires
        exact::is_exact(m, num),
        num.contains(factor),
        exact::all_in(num, a),
        fits(a.len() as int, h),
    ensures
        rotation::butterfly(m, multiplied(m, a, factor), h) == multiplied(
            m,
            rotation::butterfly(m, a, h),
            factor,
        ),
{
    let b = multiplied(m, a, factor);
    assert forall|k: int| 0 <= k < a.len() implies #[trigger] rotation::butterfly(m, b, h)[k]
        == multiplied(m, rotation::butterfly(m, a, h), factor)[k] by {
        lemma_partner(a.len() as int, h, k);
        if k % (2 * h) < h {
            exact::lemma_three(m, num, factor, a[k], a[k + h]);
        } else {
            exact::lemma_mul_sub(m, num, factor, a[k - h], a[k]);
        }
    }
    assert(rotation::butterfly(m, b, h) =~= multiplied(m, rotation::butterfly(m, a, h), factor));
}

/// Where an entry stands in the runs of a wider pass, after a step of a narrower one.
pub(crate) proof fn lemma_step_in_wider(h: int, g: int, c: int, k: int)
    requires
        1 <= h,
        1 <= c,
        g == c * (2 * h),
        0 <= k,
    ensures
        k % (2 * h) < h ==> (k % (2 * g) < g) == ((k + h) % (2 * g) < g),
        k % (2 * h) >= h ==> (k % (2 * g) < g) == ((k - h) % (2 * g) < g),
        (k + g) % (2 * h) == k % (2 * h),
        k >= g ==> (k - g) % (2 * h) == k % (2 * h),
{
    let w = 2 * h;
    let run = k / w;
    let t = k % w;
    vstd::arithmetic::div_mod::lemma_fundamental_div_mod(k, w);
    vstd::arithmetic::div_mod::lemma_div_pos_is_pos(k, w);
    assert(run * w == w * run && c * w == w * c && (run + c) * w == run * w + c * w && (run - c)
        * w == run * w - c * w) by (nonlinear_arith);
    rotation::lemma_in_run(run + c, h, t);
    if k >= g {
        assert(run >= c) by (nonlinear_arith)
            requires
                w * run + t >= w * c,
                t < w,
                0 < w,
        ;
        rotation::lemma_in_run(run - c, h, t);
    }
    // Position in the wider run: whole narrower runs, and the place in the last of them.
    let u = run % (2 * c);
    let q = run / (2 * c);
    vstd::arithmetic::div_mod::lemma_fundamental_div_mod(run, 2 * c);
    vstd::arithmetic::div_mod::lemma_div_pos_is_pos(run, 2 * c);
    assert(run * w == q * (2 * g) + u * w) by (nonlinear_arith)
        requires
            run == (2 * c) * q + u,
            g == c * w,
    ;
    assert(u * w + w <= 2 * g) by (nonlinear_arith)
        requires
            u + 1 <= 2 * c,
            g == c * w,
            0 < w,
    ;
    assert(0 <= u * w) by (nonlinear_arith)
        requires
            0 <= u,
            0 < w,
    ;
    assert(u < c ==> u * w + w <= g) by (nonlinear_arith)
        requires
            g == c * w,
            0 < w,
    ;
    assert(u >= c ==> u * w >= g) by (nonlinear_arith)
        requires
            g == c * w,
            0 < w,
    ;
    rotation::lemma_in_run(q, g, u * w + t);
    if t < h {
        rotation::lemma_in_run(q, g, u * w + t + h);
    } else {
        rotation::lemma_in_run(q, g, u * w + t - h);
    }
}

/// Two passes of different width can be made in either order.
proof fn lemma_butterflies_commute(
    m: Calc,
    num: Set<u32>,
    a: Seq<u32>,
    h: int,
    g: int,
    c: int,
)
    requires
        exact::is_exact(m, num),
        exact::all_in(num, a),
        1 <= c,
        g == c * (2 * h),
        fits(a.len() as int, h),
        fits(a.len() as int, g),
    ensures
        rotation::butterfly(m, rotation::butterfly(m, a, h), g) == rotation::butterfly(
            m,
            rotation::butterfly(m, a, g),
            h,
        ),
{
    let n = a.len() as int;
    let narrow_first = rotation::butterfly(m, rotation::butterfly(m, a, h), g);
    let wide_first = rotation::butterfly(m, rotation::butterfly(m, a, g), h);
    assert forall|k: int| 0 <= k < n implies #[trigger] narrow_first[k] == wide_first[k] by {
        lemma_partner(n, h, k);
        lemma_partner(n, g, k);
        lemma_step_in_wider(h, g, c, k);
        let low_h = k % (2 * h) < h;
        let low_g = k % (2 * g) < g;
        let kh = if low_h {
            k + h
        } else {
            k - h
        };
        let kg = if low_g {
            k + g
        } else {
            k - g
        };
        lemma_partner(n, h, kg);
        lemma_partner(n, g, kh);
        lemma_step_in_wider(h, g, c, kg);
        lemma_step_in_wider(h, g, c, kh);
        let both = if low_h {
            kg + h
        } else {
            kg - h
        };
        let (x, y, z, w) = (a[k], a[kh], a[kg], a[both]);
        if low_h && low_g {
            exact::lemma_sum_of_sums(m, num, x, y, z, w);
        } else if low_h {
            exact::lemma_difference_of_sums(m, num, z, w, x, y);
        } else if low_g {
            exact::lemma_difference_of_sums(m, num, y, w, x, z);
        } else {
            exact::lemma_difference_of_differences(m, num, w, z, y, x);
        }
    }
    assert(narrow_first =~= wide_first);
}

// ---------------------------------------------------------------------------
// All passes
// ---------------------------------------------------------------------------

/// Whether `n` entries are `r` times `h` for a power of two `r`.
pub open spec fn spans(n: int, h: int, r: int) -> bool {
    1 <= h && is_pow2(r) && n == r * h
}

/// While there are wider passes to make, the entries fall into whole runs.
pub(crate) proof fn lemma_spans(n: int, h: int, r: int)
    requires
        spans(n, h, r),
    ensures
        1 <= r,
        r == 1 <==> h >= n,
        r == 1 <==> h == n,
        r > 1 ==> fits(n, h) && spans(n, 2 * h, r / 2) && r == 2 * (r / 2),
{
    reveal(is_pow2);
    if r > 1 {
        let q = r / 2;
        assert(r == 2 * q);
        assert(n == q * (2 * h)) by (nonlinear_arith)
            requires
                n == r * h,
                r == 2 * q,
        ;
        assert(q * (2 * h) == (2 * h) * q) by (nonlinear_arith);
        vstd::arithmetic::div_mod::lemma_mod_multiples_basic(q, 2 * h);
        assert(h < n) by (nonlinear_arith)
            requires
                n == q * (2 * h),
                1 <= q,
                1 <= h,
        ;
    } else {
        assert(n == h) by (nonlinear_arith)
            requires
                n == r * h,
                r == 1,
        ;
    }
}

proof fn lemma_passes_in(m: Calc, num: Set<u32>, a: Seq<u32>, h: int, r: int)
    requires
        exact::is_exact(m, num),
        exact::all_in(num, a),
        spans(a.len() as int, h, r),
    ensures
        exact::all_in(num, rotation::passes(m, a, h)),
        rotation::passes(m, a, h).len() == a.len(),
    decreases r,
{
    lemma_spans(a.len() as int, h, r);
    if r > 1 {
        lemma_butterfly_in(m, num, a, h);
        lemma_passes_in(m, num, rotation::butterfly(m, a, h), 2 * h, r / 2);
    }
}

/// A pass can be made before or after all wider ones.
proof fn lemma_pass_and_wider(
    m: Calc,
    num: Set<u32>,
    a: Seq<u32>,
    h: int,
    g: int,
    c: int,
    r: int,
)
    requires
        exact::is_exact(m, num),
        exact::all_in(num, a),
        1 <= c,
        g == c * (2 * h),
        fits(a.len() as int, h),
        spans(a.len() as int, g, r),
    ensures
        rotation::butterfly(m, rotation::passes(m, a, g), h) == rotation::passes(
            m,
            rotation::butterfly(m, a, h),
            g,
        ),
    decreases r,
{
    lemma_spans(a.len() as int, g, r);
    if r > 1 {
        let b = rotation::butterfly(m, a, g);
        lemma_butterfly_in(m, num, a, g);
        assert(2 * g == (2 * c) * (2 * h)) by (nonlinear_arith)
            requires
                g == c * (2 * h),
        ;
        lemma_pass_and_wider(m, num, b, h, 2 * g, 2 * c, r / 2);
        lemma_butterflies_commute(m, num, a, h, g, c);
    }
}

/// The passes on multiplied entries multiply what the passes give.
proof fn lemma_passes_multiplied(
    m: Calc,
    num: Set<u32>,
    a: Seq<u32>,
    h: int,
    r: int,
    factor: u32,
)
    requires
        exact::is_exact(m, num),
        num.contains(factor),
        exact::all_in(num, a),
        spans(a.len() as int, h, r),
    ensures
        rotation::passes(m, multiplied(m, a, factor), h) == multiplied(
            m,
            rotation::passes(m, a, h),
            factor,
        ),
    decreases r,
{
    lemma_spans(a.len() as int, h, r);
    if r > 1 {
        lemma_butterfly_multiplied(m, num, a, h, factor);
        lemma_butterfly_in(m, num, a, h);
        lemma_passes_multiplied(m, num, rotation::butterfly(m, a, h), 2 * h, r / 2, factor);
    }
}

/// The passes made twice multiply every entry by the number of entries they combine.
proof fn lemma_passes_twice(m: Calc, num: Set<u32>, a: Seq<u32>, h: int, r: int)
    requires
        exact::is_exact(m, num),
        exact::all_in(num, a),
        spans(a.len() as int, h, r),
        r <= u32::MAX,
    ensures
        rotation::passes(m, rotation::passes(m, a, h), h) == multiplied(
            m,
            a,
            m(Op::Int, r as u32, 0),
        ),
    decreases r,
{
    let n = a.len() as int;
    lemma_spans(n, h, r);
    exact::lemma_zero(m, num);
    if r > 1 {
        let q = r / 2;
        let b = rotation::butterfly(m, a, h);
        let twice = doubled(m, a);
        lemma_butterfly_in(m, num, a, h);
        assert(2 * h == 1 * (2 * h));
        lemma_passes_in(m, num, b, 2 * h, q);
        lemma_pass_and_wider(m, num, b, h, 2 * h, 1, q);
        lemma_butterfly_twice(m, num, a, h);
        assert forall|k: int| 0 <= k < n implies num.contains(#[trigger] twice[k]) by {
            exact::lemma_closed(m, num, a[k], a[k]);
        }
        lemma_passes_twice(m, num, twice, 2 * h, q);
        let half = m(Op::Int, q as u32, 0);
        let full = m(Op::Int, r as u32, 0);
        exact::lemma_int(m, num, q as u32);
        exact::lemma_int_sum(m, num, q as u32, q as u32);
        assert forall|k: int| 0 <= k < n implies #[trigger] multiplied(m, twice, half)[k]
            == multiplied(m, a, full)[k] by {
            exact::lemma_closed(m, num, a[k], a[k]);
            exact::lemma_three(m, num, half, a[k], a[k]);
            exact::lemma_three(m, num, a[k], half, half);
        }
        assert(multiplied(m, twice, half) =~= multiplied(m, a, full));
    } else {
        exact::lemma_int(m, num, 1);
        assert forall|k: int| 0 <= k < n implies #[trigger] multiplied(m, a, ONE_BITS)[k]
            == a[k] by {
            exact::lemma_closed(m, num, a[k], ONE_BITS);
        }
        assert(multiplied(m, a, ONE_BITS) =~= a);
    }
}

// ---------------------------------------------------------------------------
// The transform
// ---------------------------------------------------------------------------

/// Whether the root of a length, as the transform takes it, is a root.
pub open spec fn has_exact_root(m: Calc, num: Set<u32>, n: nat) -> bool {
    let whole = m(Op::Int, n as u32, 0);
    let root = m(Op::Sqrt, whole, 0);
    &&& num.contains(root)
    &&& root != 0
    &&& m(Op::Mul, root, root) == whole
}

/// What the transform multiplies by, twice, makes up for the length.
proof fn lemma_shrink(m: Calc, num: Set<u32>, n: nat)
    requires
        exact::is_exact(m, num),
        has_exact_root(m, num, n),
    ensures
        num.contains(rotation::shrink(m, n)),
        m(
            Op::Mul,
            m(Op::Mul, m(Op::Int, n as u32, 0), rotation::shrink(m, n)),
            rotation::shrink(m, n),
        ) == ONE_BITS,
{
    let root = m(Op::Sqrt, m(Op::Int, n as u32, 0), 0);
    let s = rotation::shrink(m, n);
    exact::lemma_zero(m, num);
    exact::lemma_quotient(m, num, ONE_BITS, root);
    exact::lemma_closed(m, num, s, root);
    exact::lemma_three(m, num, root, root, s);
    exact::lemma_closed(m, num, root, ONE_BITS);
}

/// Where arithmetic is exact, the transform made twice gives back the row.
pub proof fn transform_is_self_inverse(m: Calc, num: Set<u32>, a: Seq<u32>)
    requires
        exact::is_exact(m, num),
        exact::all_in(num, a),
        is_pow2(a.len() as int),
        a.len() <= u32::MAX,
        has_exact_root(m, num, a.len()),
    ensures
        rotation::transformed(m, rotation::transformed(m, a)) == a,
        exact::all_in(num, rotation::transformed(m, a)),
{
    let n = a.len() as int;
    let s = rotation::shrink(m, a.len());
    let whole = m(Op::Int, n as u32, 0);
    let p = rotation::passes(m, a, 1);
    lemma_shrink(m, num, a.len());
    exact::lemma_int(m, num, n as u32);
    lemma_passes_in(m, num, a, 1, n);
    lemma_passes_multiplied(m, num, p, 1, n, s);
    lemma_passes_twice(m, num, a, 1, n);
    assert(rotation::transformed(m, a) =~= multiplied(m, p, s));
    assert forall|k: int| 0 <= k < n implies num.contains(
        #[trigger] rotation::transformed(m, a)[k],
    ) by {
        exact::lemma_closed(m, num, p[k], s);
    }
    let twice = rotation::transformed(m, rotation::transformed(m, a));
    assert forall|k: int| 0 <= k < n implies #[trigger] twice[k] == a[k] by {
        assert(twice[k] == m(Op::Mul, m(Op::Mul, m(Op::Mul, a[k], whole), s), s));
        exact::lemma_closed(m, num, a[k], whole);
        exact::lemma_closed(m, num, whole, s);
        exact::lemma_three(m, num, a[k], whole, s);
        exact::lemma_three(m, num, a[k], m(Op::Mul, whole, s), s);
        exact::lemma_closed(m, num, a[k], ONE_BITS);
    }
    assert(twice =~= a);
}

/// Where arithmetic is exact, rotating a row back gives the row scaled to unit length
/// and filled up with zeros.
pub proof fn rotation_can_be_undone(m: Calc, num: Set<u32>, row: Seq<u32>, padded: usize)
    requires
        exact::is_exact(m, num),
        exact::all_in(num, row),
        num.contains(rotation::to_unit(m, rotation::norm_of(m, row))),
        row.len() <= padded,
        rotation::has_rotation(padded as int),
        has_exact_root(m, num, padded as nat),
    ensures
        rotation::unrotated(
            m,
            rotation::rotated(m, row, padded as nat, rotation::signs_of(padded)),
            rotation::signs_of(padded),
        ) == unit_padded(m, row, padded as nat),
{
    let signs = rotation::signs_of(padded);
    let f = rotation::flipped(m, row, padded as nat, signs);
    let unit = rotation::to_unit(m, rotation::norm_of(m, row));
    lemma_flipped_in(m, num, row, padded);
    rotation::lemma_rotation_is_pow2(padded as int);
    transform_is_self_inverse(m, num, f);
    let back = rotation::unrotated(m, rotation::transformed(m, f), signs);
    rotation::lemma_rotated_len(m, row, padded as nat, signs);
    assert forall|i: int| 0 <= i < padded implies #[trigger] back[i] == unit_padded(
        m,
        row,
        padded as nat,
    )[i] by {
        exact::lemma_neg_one_squared(m, num);
        let s = signs[i];
        assert(num.contains(s) && m(Op::Mul, s, s) == ONE_BITS);
        if i < row.len() {
            let x = m(Op::Mul, row[i], unit);
            exact::lemma_closed(m, num, row[i], unit);
            exact::lemma_three(m, num, x, s, s);
            exact::lemma_closed(m, num, x, ONE_BITS);
        } else {
            exact::lemma_mul_sub(m, num, s, s, s);
        }
    }
    assert(back =~= unit_padded(m, row, padded as nat));
}

/// A row scaled to unit length and filled up with zeros.
pub open spec fn unit_padded(m: Calc, row: Seq<u32>, padded: nat) -> Seq<u32> {
    Seq::new(
        padded,
        |i: int|
            if i < row.len() {
                m(Op::Mul, row[i], rotation::to_unit(m, rotation::norm_of(m, row)))
            } else {
                0
            },
    )
}

pub(crate) proof fn lemma_flipped_in(m: Calc, num: Set<u32>, row: Seq<u32>, padded: usize)
    requires
        exact::is_exact(m, num),
        exact::all_in(num, row),
        num.contains(rotation::to_unit(m, rotation::norm_of(m, row))),
        row.len() <= padded,
    ensures
        exact::all_in(num, rotation::flipped(m, row, padded as nat, rotation::signs_of(padded))),
        exact::all_in(num, rotation::signs_of(padded)),
{
    let signs = rotation::signs_of(padded);
    let unit = rotation::to_unit(m, rotation::norm_of(m, row));
    exact::lemma_neg_one_squared(m, num);
    exact::lemma_zero(m, num);
    assert forall|i: int| 0 <= i < padded implies num.contains(
        #[trigger] rotation::flipped(m, row, padded as nat, signs)[i],
    ) by {
        if i < row.len() {
            exact::lemma_closed(m, num, row[i], unit);
            exact::lemma_closed(m, num, m(Op::Mul, row[i], unit), signs[i]);
        }
    }
}

// ---------------------------------------------------------------------------
// Inner products
// ---------------------------------------------------------------------------

/// A pass on a single run: the sums of its halves, and their differences.
proof fn lemma_single_run(m: Calc, num: Set<u32>, a: Seq<u32>, b: Seq<u32>, h: int)
    requires
        exact::is_exact(m, num),
        exact::all_in(num, a),
        exact::all_in(num, b),
        1 <= h,
        a.len() == 2 * h,
        b.len() == 2 * h,
    ensures
        exact::dot(m, rotation::butterfly(m, a, h), rotation::butterfly(m, b, h)) == m(
            Op::Add,
            exact::dot(m, a, b),
            exact::dot(m, a, b),
        ),
{
    let (fa, fb) = (rotation::butterfly(m, a, h), rotation::butterfly(m, b, h));
    let all = metric::products(m, fa, fb);
    let (p1, p2) = (all.take(h), all.skip(h));
    let plain = metric::products(m, a, b);
    let (q1, q2) = (plain.take(h), plain.skip(h));
    let (d1, d2) = (doubled(m, q1), doubled(m, q2));
    let both = Seq::new(h as nat, |i: int| m(Op::Add, p1[i], p2[i]));
    assert((2 * h) % (2 * h) == 0) by {
        vstd::arithmetic::div_mod::lemma_mod_self_0(2 * h);
    }
    exact::lemma_zero(m, num);
    lemma_butterfly_in(m, num, a, h);
    lemma_butterfly_in(m, num, b, h);
    exact::lemma_products_in(m, num, fa, fb);
    exact::lemma_products_in(m, num, a, b);
    assert(exact::all_in(num, p1) && exact::all_in(num, p2));
    assert(exact::all_in(num, q1) && exact::all_in(num, q2));
    assert(p1 + p2 =~= all && q1 + q2 =~= plain);
    exact::lemma_sum_concat(m, num, p1, p2);
    exact::lemma_sum_concat(m, num, q1, q2);
    exact::lemma_sum_of_pairs(m, num, q1, q1, d1);
    exact::lemma_sum_of_pairs(m, num, q2, q2, d2);
    assert forall|i: int| 0 <= i < h implies #[trigger] both[i] == m(Op::Add, d1[i], d2[i]) by {
        let k = i + h;
        vstd::arithmetic::div_mod::lemma_small_mod(i as nat, (2 * h) as nat);
        vstd::arithmetic::div_mod::lemma_small_mod(k as nat, (2 * h) as nat);
        exact::lemma_products_of_pairs(m, num, a[i], a[k], b[i], b[k]);
        assert(p2[i] == all[k] && q2[i] == plain[k]);
    }
    exact::lemma_sum_of_pairs(m, num, p1, p2, both);
    exact::lemma_sum_of_pairs(m, num, d1, d2, both);
    exact::lemma_total(m, num, 0, q1);
    exact::lemma_total(m, num, 0, q2);
    let (s1, s2) = (exact::sum(m, q1), exact::sum(m, q2));
    exact::lemma_sum_of_sums(m, num, s1, s1, s2, s2);
}

/// A pass doubles the inner product of two rows.
proof fn lemma_butterfly_dot(m: Calc, num: Set<u32>, a: Seq<u32>, b: Seq<u32>, h: int, runs: int)
    requires
        exact::is_exact(m, num),
        exact::all_in(num, a),
        exact::all_in(num, b),
        1 <= h,
        0 <= runs,
        a.len() == runs * (2 * h),
        b.len() == a.len(),
    ensures
        exact::dot(m, rotation::butterfly(m, a, h), rotation::butterfly(m, b, h)) == m(
            Op::Add,
            exact::dot(m, a, b),
            exact::dot(m, a, b),
        ),
    decreases runs,
{
    let w = 2 * h;
    exact::lemma_zero(m, num);
    if runs == 0 {
        assert(a.len() == 0) by (nonlinear_arith)
            requires
                a.len() == runs * w,
                runs == 0,
        ;
        assert(metric::products(m, a, b) =~= Seq::empty());
        let (fa, fb) = (rotation::butterfly(m, a, h), rotation::butterfly(m, b, h));
        assert(metric::products(m, fa, fb) =~= Seq::empty());
    } else {
        assert(runs * w == (runs - 1) * w + w) by (nonlinear_arith);
        assert(0 <= (runs - 1) * w) by (nonlinear_arith)
            requires
                1 <= runs,
                0 <= w,
        ;
        let (a1, a2, b1, b2) = (a.take(w), a.skip(w), b.take(w), b.skip(w));
        assert(exact::all_in(num, a1) && exact::all_in(num, a2));
        assert(exact::all_in(num, b1) && exact::all_in(num, b2));
        lemma_single_run(m, num, a1, b1, h);
        lemma_butterfly_dot(m, num, a2, b2, h, runs - 1);
        lemma_first_run(m, a, h, runs);
        lemma_first_run(m, b, h, runs);
        let (f1, f2) = (rotation::butterfly(m, a1, h), rotation::butterfly(m, a2, h));
        let (g1, g2) = (rotation::butterfly(m, b1, h), rotation::butterfly(m, b2, h));
        assert(fits(w, h)) by {
            vstd::arithmetic::div_mod::lemma_mod_self_0(w);
        }
        lemma_fits(runs - 1, h);
        lemma_butterfly_in(m, num, a1, h);
        lemma_butterfly_in(m, num, a2, h);
        lemma_butterfly_in(m, num, b1, h);
        lemma_butterfly_in(m, num, b2, h);
        lemma_dot_concat(m, num, a1, a2, b1, b2);
        lemma_dot_concat(m, num, f1, f2, g1, g2);
        assert(a1 + a2 =~= a && b1 + b2 =~= b);
        exact::lemma_products_in(m, num, a1, b1);
        exact::lemma_products_in(m, num, a2, b2);
        let (s1, s2) = (exact::dot(m, a1, b1), exact::dot(m, a2, b2));
        exact::lemma_sum_of_sums(m, num, s1, s1, s2, s2);
    }
}

proof fn lemma_fits(runs: int, h: int)
    requires
        1 <= h,
    ensures
        fits(runs * (2 * h), h),
{
    vstd::arithmetic::div_mod::lemma_mod_multiples_basic(runs, 2 * h);
}

/// A pass works on the first run and on the others.
proof fn lemma_first_run(m: Calc, a: Seq<u32>, h: int, runs: int)
    requires
        1 <= h,
        1 <= runs,
        a.len() == runs * (2 * h),
    ensures
        2 * h <= a.len(),
        rotation::butterfly(m, a, h) == rotation::butterfly(m, a.take(2 * h), h)
            + rotation::butterfly(m, a.skip(2 * h), h),
{
    let w = 2 * h;
    assert(w <= runs * w) by (nonlinear_arith)
        requires
            1 <= runs,
            0 <= w,
    ;
    lemma_fits(runs, h);
    let parts = rotation::butterfly(m, a.take(w), h) + rotation::butterfly(m, a.skip(w), h);
    assert forall|k: int| 0 <= k < a.len() implies #[trigger] rotation::butterfly(m, a, h)[k]
        == parts[k] by {
        lemma_partner(a.len() as int, h, k);
        if k < w {
            vstd::arithmetic::div_mod::lemma_small_mod(k as nat, w as nat);
        } else {
            vstd::arithmetic::div_mod::lemma_mod_sub_multiples_vanish(k, w);
            if k % w >= h {
                vstd::arithmetic::div_mod::lemma_small_mod(h as nat, w as nat);
                lemma_not_below(k, h);
            }
        }
    }
    assert(rotation::butterfly(m, a, h) =~= parts);
}

/// An entry in the upper half of a later run lies a half above that run's start.
proof fn lemma_not_below(k: int, h: int)
    requires
        1 <= h,
        2 * h <= k,
        k % (2 * h) >= h,
    ensures
        k - h >= 2 * h,
{
    let w = 2 * h;
    vstd::arithmetic::div_mod::lemma_fundamental_div_mod(k, w);
    assert(k / w >= 1) by {
        vstd::arithmetic::div_mod::lemma_div_is_ordered(w, k, w);
        vstd::arithmetic::div_mod::lemma_div_by_self(w);
    }
    assert(w * (k / w) >= w) by (nonlinear_arith)
        requires
            k / w >= 1,
            w > 0,
    ;
}

proof fn lemma_dot_concat(
    m: Calc,
    num: Set<u32>,
    a1: Seq<u32>,
    a2: Seq<u32>,
    b1: Seq<u32>,
    b2: Seq<u32>,
)
    requires
        exact::is_exact(m, num),
        exact::all_in(num, a1),
        exact::all_in(num, a2),
        exact::all_in(num, b1),
        exact::all_in(num, b2),
        a1.len() == b1.len(),
        a2.len() == b2.len(),
    ensures
        exact::dot(m, a1 + a2, b1 + b2) == m(
            Op::Add,
            exact::dot(m, a1, b1),
            exact::dot(m, a2, b2),
        ),
{
    exact::lemma_products_in(m, num, a1, b1);
    exact::lemma_products_in(m, num, a2, b2);
    exact::lemma_sum_concat(m, num, metric::products(m, a1, b1), metric::products(m, a2, b2));
    assert(metric::products(m, a1 + a2, b1 + b2) =~= metric::products(m, a1, b1)
        + metric::products(m, a2, b2));
}

/// The passes multiply the inner product of two rows.
proof fn lemma_passes_dot(m: Calc, num: Set<u32>, a: Seq<u32>, b: Seq<u32>, h: int, r: int)
    requires
        exact::is_exact(m, num),
        exact::all_in(num, a),
        exact::all_in(num, b),
        a.len() == b.len(),
        spans(a.len() as int, h, r),
        r <= u32::MAX,
    ensures
        exact::dot(m, rotation::passes(m, a, h), rotation::passes(m, b, h)) == m(
            Op::Mul,
            exact::dot(m, a, b),
            m(Op::Int, r as u32, 0),
        ),
    decreases r,
{
    let n = a.len() as int;
    lemma_spans(n, h, r);
    exact::lemma_products_in(m, num, a, b);
    let before = exact::dot(m, a, b);
    if r > 1 {
        let q = r / 2;
        let (fa, fb) = (rotation::butterfly(m, a, h), rotation::butterfly(m, b, h));
        lemma_butterfly_in(m, num, a, h);
        lemma_butterfly_in(m, num, b, h);
        lemma_butterfly_dot(m, num, a, b, h, q);
        lemma_passes_dot(m, num, fa, fb, 2 * h, q);
        let half = m(Op::Int, q as u32, 0);
        exact::lemma_int(m, num, q as u32);
        exact::lemma_int_sum(m, num, q as u32, q as u32);
        exact::lemma_three(m, num, half, before, before);
        exact::lemma_three(m, num, before, half, half);
    } else {
        exact::lemma_int(m, num, 1);
        exact::lemma_closed(m, num, before, before);
    }
}

/// Where arithmetic is exact, the transform keeps the inner product of two rows.
pub proof fn transform_keeps_inner_products(m: Calc, num: Set<u32>, a: Seq<u32>, b: Seq<u32>)
    requires
        exact::is_exact(m, num),
        exact::all_in(num, a),
        exact::all_in(num, b),
        a.len() == b.len(),
        is_pow2(a.len() as int),
        a.len() <= u32::MAX,
        has_exact_root(m, num, a.len()),
    ensures
        exact::dot(m, rotation::transformed(m, a), rotation::transformed(m, b)) == exact::dot(
            m,
            a,
            b,
        ),
{
    let n = a.len() as int;
    let s = rotation::shrink(m, a.len());
    let whole = m(Op::Int, n as u32, 0);
    let (p, q) = (rotation::passes(m, a, 1), rotation::passes(m, b, 1));
    lemma_shrink(m, num, a.len());
    exact::lemma_int(m, num, n as u32);
    lemma_passes_in(m, num, a, 1, n);
    lemma_passes_in(m, num, b, 1, n);
    lemma_passes_dot(m, num, a, b, 1, n);
    let (ta, tb) = (rotation::transformed(m, a), rotation::transformed(m, b));
    let after = metric::products(m, ta, tb);
    let before = metric::products(m, p, q);
    let ss = m(Op::Mul, s, s);
    exact::lemma_closed(m, num, s, s);
    exact::lemma_products_in(m, num, p, q);
    assert forall|k: int| 0 <= k < n implies #[trigger] after[k] == m(
        Op::Mul,
        before[k],
        ss,
    ) by {
        exact::lemma_mul_pairs(m, num, p[k], s, q[k], s);
    }
    exact::lemma_sum_of_multiples(m, num, before, ss, after);
    let d = exact::dot(m, a, b);
    exact::lemma_products_in(m, num, a, b);
    exact::lemma_three(m, num, d, whole, ss);
    exact::lemma_three(m, num, whole, s, s);
    exact::lemma_closed(m, num, d, ONE_BITS);
}

// ---------------------------------------------------------------------------
// Signs of different lengths
// ---------------------------------------------------------------------------

/// What tells the sign of step `k` of the rotation of length `n`: zero where it is plus.
spec fn flag(n: u64, k: u64) -> u64 {
    rotation::mixed(
        (SIGN_STEP ^ n.wrapping_mul(SIGN_SEED)).wrapping_add(k.wrapping_mul(SIGN_STEP)),
    ) & 1
}

/// The flags of the first four steps.
spec fn first_flags(n: u64) -> int {
    flag(n, 1) + 2 * flag(n, 2) + 4 * flag(n, 3) + 8 * flag(n, 4)
}

/// The flags of the four steps behind these.
spec fn next_flags(n: u64) -> int {
    flag(n, 5) + 2 * flag(n, 6) + 4 * flag(n, 7) + 8 * flag(n, 8)
}

proof fn lemma_sign_state(n: usize, steps: nat)
    requires
        steps <= u32::MAX,
    ensures
        rotation::sign_state(n, steps) == (SIGN_STEP ^ (n as u64).wrapping_mul(
            SIGN_SEED,
        )).wrapping_add((steps as u64).wrapping_mul(SIGN_STEP)),
    decreases steps,
{
    let base = SIGN_STEP ^ (n as u64).wrapping_mul(SIGN_SEED);
    let step = SIGN_STEP as int;
    let range: int = 0x1_0000_0000_0000_0000;
    if steps > 0 {
        lemma_sign_state(n, (steps - 1) as nat);
        let before = (steps - 1) * step;
        assert(steps * step == before + step) by (nonlinear_arith)
            requires
                before == (steps - 1) * step,
        ;
        lemma_add_mod_noop(before, step, range);
        lemma_small_mod(SIGN_STEP as nat, range as nat);
        let a = before % range;
        let b = (steps * step) % range;
        assert(b == (a + step) % range);
        assert(b == if a + step < range {
            a + step
        } else {
            a + step - range
        }) by {
            lemma_fundamental_div_mod(a + step, range);
        }
    }
}

/// Equal signs come of equal flags.
proof fn lemma_same_sign(short: usize, long: usize, i: nat)
    requires
        i < u32::MAX,
        rotation::sign_at(short, i) == rotation::sign_at(long, i),
    ensures
        flag(short as u64, (i + 1) as u64) == flag(long as u64, (i + 1) as u64),
{
    lemma_sign_state(short, i + 1);
    lemma_sign_state(long, i + 1);
    let a = rotation::mixed(rotation::sign_state(short, i + 1));
    let b = rotation::mixed(rotation::sign_state(long, i + 1));
    assert((a & 1 == 0 || a & 1 == 1) && (b & 1 == 0 || b & 1 == 1)) by (bit_vector);
}

/// The flags of the lengths that have a rotation, as far as they are needed to tell the
/// lengths apart.
proof fn lemma_flags()
    ensures
        first_flags(4) == 14,
        next_flags(4) == 0,
        first_flags(8) == 15,
        next_flags(8) == 1,
        first_flags(16) == 11,
        next_flags(16) == 6,
        first_flags(32) == 2,
        next_flags(32) == 9,
        first_flags(64) == 0,
        next_flags(64) == 8,
        first_flags(128) == 3,
        next_flags(128) == 14,
        first_flags(256) == 10,
        next_flags(256) == 1,
        first_flags(512) == 14,
        next_flags(512) == 7,
        first_flags(1024) == 11,
        next_flags(1024) == 0,
        first_flags(2048) == 15,
        next_flags(2048) == 5,
        first_flags(4096) == 0,
        next_flags(4096) == 8,
        first_flags(8192) == 10,
        next_flags(8192) == 13,
        flag(64, 9) != flag(4096, 9),
{
    assert(first_flags(4) == 14 && next_flags(4) == 0) by (bit_vector);
    assert(first_flags(8) == 15 && next_flags(8) == 1) by (bit_vector);
    assert(first_flags(16) == 11 && next_flags(16) == 6) by (bit_vector);
    assert(first_flags(32) == 2 && next_flags(32) == 9) by (bit_vector);
    assert(first_flags(64) == 0 && next_flags(64) == 8) by (bit_vector);
    assert(first_flags(128) == 3 && next_flags(128) == 14) by (bit_vector);
    assert(first_flags(256) == 10 && next_flags(256) == 1) by (bit_vector);
    assert(first_flags(512) == 14 && next_flags(512) == 7) by (bit_vector);
    assert(first_flags(1024) == 11 && next_flags(1024) == 0) by (bit_vector);
    assert(first_flags(2048) == 15 && next_flags(2048) == 5) by (bit_vector);
    assert(first_flags(4096) == 0 && next_flags(4096) == 8) by (bit_vector);
    assert(first_flags(8192) == 10 && next_flags(8192) == 13) by (bit_vector);
    assert(flag(64, 9) != flag(4096, 9)) by (bit_vector);
}

/// Rotations of different lengths flip different components: the signs of one are not the
/// first signs of a longer one. (The four signs of the shortest are also the first four
/// of the rotation of length 512; this is the only such pair.)
pub proof fn sign_tables_differ(short: usize, long: usize)
    requires
        rotation::has_rotation(short as int),
        rotation::has_rotation(long as int),
        short < long,
        !(short == 4 && long == 512),
    ensures
        rotation::signs_of(short) != rotation::signs_of(long).take(short as int),
{
    let a = rotation::signs_of(short);
    let b = rotation::signs_of(long).take(short as int);
    if a == b {
        assert forall|k: u64| 1 <= k <= short implies #[trigger] flag(short as u64, k) == flag(
            long as u64,
            k,
        ) by {
            assert(a[k - 1] == b[k - 1]);
            lemma_same_sign(short, long, (k - 1) as nat);
        }
        lemma_flags();
        assert(first_flags(short as u64) == first_flags(long as u64));
        if short > 4 {
            assert(next_flags(short as u64) == next_flags(long as u64));
        }
        if short > 8 {
            assert(flag(short as u64, 9) == flag(long as u64, 9));
        }
    }
}

// ---------------------------------------------------------------------------
// What the transform adds up
// ---------------------------------------------------------------------------

/// A pass that is narrower than half of the entries is made in each half by itself.
proof fn lemma_pass_of_halves(m: Calc, a: Seq<u32>, b: Seq<u32>, h: int)
    requires
        a.len() == b.len(),
        fits(a.len() as int, h),
    ensures
        rotation::butterfly(m, a + b, h) == rotation::butterfly(m, a, h) + rotation::butterfly(
            m,
            b,
            h,
        ),
{
    let n = a.len() as int;
    let both = rotation::butterfly(m, a + b, h);
    let parts = rotation::butterfly(m, a, h) + rotation::butterfly(m, b, h);
    assert forall|k: int| 0 <= k < 2 * n implies #[trigger] both[k] == parts[k] by {
        if k < n {
            lemma_partner(n, h, k);
        } else {
            lemma_partner(n, h, k - n);
            lemma_add_mod_noop(k - n, n, 2 * h);
            assert(k % (2 * h) == (k - n) % (2 * h)) by {
                vstd::arithmetic::div_mod::lemma_mod_twice(k - n, 2 * h);
            }
        }
    }
    assert(both =~= parts);
}

/// What the passes from `h` on make of two halves.
proof fn lemma_passes_of_halves(m: Calc, a: Seq<u32>, b: Seq<u32>, h: int, r: int, k: int)
    requires
        a.len() == b.len(),
        spans(a.len() as int, h, r),
        0 <= k < a.len(),
    ensures
        rotation::passes(m, a + b, h)[k] == m(
            Op::Add,
            rotation::passes(m, a, h)[k],
            rotation::passes(m, b, h)[k],
        ),
        rotation::passes(m, a + b, h)[a.len() + k] == m(
            Op::Sub,
            rotation::passes(m, a, h)[k],
            rotation::passes(m, b, h)[k],
        ),
    decreases r,
{
    let n = a.len() as int;
    lemma_spans(n, h, r);
    if r > 1 {
        lemma_pass_of_halves(m, a, b, h);
        lemma_passes_of_halves(
            m,
            rotation::butterfly(m, a, h),
            rotation::butterfly(m, b, h),
            2 * h,
            r / 2,
            k,
        );
        assert(h < (a + b).len());
    } else {
        let both = rotation::butterfly(m, a + b, h);
        assert(rotation::passes(m, a + b, h) == rotation::passes(m, both, 2 * h));
        assert(rotation::passes(m, both, 2 * h) == both);
        lemma_small_mod(k as nat, (2 * h) as nat);
        lemma_small_mod((n + k) as nat, (2 * h) as nat);
    }
}

/// The transform adds and subtracts its halves: before the entries are shrunk, the first
/// half of what comes of a row is the sum of what comes of the row's two halves, and the
/// second half is their difference. Each entry is then multiplied by one over the square
/// root of their number; a row of one entry comes out as it is.
pub proof fn transform_adds_and_subtracts_its_halves(
    m: Calc,
    a: Seq<u32>,
    b: Seq<u32>,
    k: int,
)
    requires
        a.len() == b.len(),
        is_pow2(a.len() as int),
        0 <= k < a.len(),
    ensures
        ({
            let n = a.len();
            let (p, q) = (rotation::passes(m, a, 1)[k], rotation::passes(m, b, 1)[k]);
            let both = rotation::transformed(m, a + b);
            let root = m(Op::Sqrt, m(Op::Int, (2 * n) as u32, 0), 0);
            &&& both.len() == 2 * n
            &&& rotation::passes(m, a + b, 1)[k] == m(Op::Add, p, q)
            &&& rotation::passes(m, a + b, 1)[n + k] == m(Op::Sub, p, q)
            &&& both[k] == m(Op::Mul, m(Op::Add, p, q), m(Op::Div, ONE_BITS, root))
            &&& both[n + k] == m(Op::Mul, m(Op::Sub, p, q), m(Op::Div, ONE_BITS, root))
            &&& n == 1 ==> p == a[0] && q == b[0]
        }),
{
    lemma_passes_of_halves(m, a, b, 1, a.len() as int, k);
    rotation::lemma_passes_len(m, a + b, 1);
}

/// A rotated row is the transform of the row after three steps: each component is
/// divided by the row's length, or set to zero where the row has none, then takes its
/// sign, and zeros follow up to the full length.
pub proof fn rotation_transforms_the_flipped_unit_row(
    m: Calc,
    row: Seq<u32>,
    padded: usize,
    ready: Seq<u32>,
    unit: u32,
)
    requires
        row.len() <= padded,
        ready.len() == padded,
        ({
            let length = m(
                Op::Sqrt,
                arith::total(m, 0, Seq::new(row.len(), |i: int| m(Op::Mul, row[i], row[i]))),
                0,
            );
            if floatbits::less(TINY_BITS, length) {
                unit == m(Op::Div, ONE_BITS, length)
            } else {
                unit == 0
            }
        }),
        forall|i: int|
            0 <= i < row.len() ==> #[trigger] ready[i] == m(
                Op::Mul,
                m(Op::Mul, row[i], unit),
                rotation::signs_of(padded)[i],
            ),
        forall|i: int| row.len() <= i < padded ==> #[trigger] ready[i] == 0,
    ensures
        rotation::rotated(m, row, padded as nat, rotation::signs_of(padded))
            == rotation::transformed(m, ready),
{
    assert(Seq::new(row.len(), |i: int| m(Op::Mul, row[i], row[i])) =~= rotation::squares(
        m,
        row,
    ));
    assert(rotation::flipped(m, row, padded as nat, rotation::signs_of(padded)) =~= ready);
}

/// Rotating back transforms a row and gives each component its sign again.
pub proof fn rotating_back_transforms_and_flips(m: Calc, a: Seq<u32>, padded: usize, i: int)
    requires
        a.len() == padded,
        0 <= i < padded,
    ensures
        rotation::unrotated(m, a, rotation::signs_of(padded)).len() == padded,
        rotation::unrotated(m, a, rotation::signs_of(padded))[i] == m(
            Op::Mul,
            rotation::transformed(m, a)[i],
            rotation::signs_of(padded)[i],
        ),
{
}

/// Every sign is plus or minus one.
pub proof fn signs_are_plus_or_minus_one(n: usize, i: int)
    requires
        0 <= i < n,
    ensures
        rotation::signs_of(n).len() == n,
        rotation::signs_of(n)[i] == ONE_BITS || rotation::signs_of(n)[i] == NEG_ONE_BITS,
{
}

} // verus!
