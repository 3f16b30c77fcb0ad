//! What 1-bit codes stand for, and that distances taken from the bits are those to it.

use vstd::prelude::*;

use crate::arith::{Calc, Op};
use crate::bbq;
use crate::bbq::{BbqDotCtx, BbqL2Ctx};
use crate::exact;
use crate::floatbits;
use crate::floatbits::{ONE_BITS, TWO_BITS};
use crate::metric;

verus! {

// ---------------------------------------------------------------------------
// Bits
// ---------------------------------------------------------------------------

/// Where no number has a clear flag, all flags are set.
proof fn lemma_none_left(values: Seq<u32>, flags: Seq<bool>, n: nat)
    requires
        n <= flags.len(),
        bbq::chosen(values, flags, n, false).len() == 0,
    ensures
        forall|i: int| 0 <= i < n ==> #[trigger] flags[i],
    decreases n,
{
    if n > 0 {
        lemma_none_left(values, flags, (n - 1) as nat);
    }
}

/// Each component's bit says whether it is at or above the median of its row.
pub proof fn bits_tell_the_upper_half(residual: Seq<u32>)
    ensures
        bbq::row_flags(bbq::residual_bits(residual), residual.len()) == bbq::upper_flags(residual),
{
    let flags = bbq::upper_flags(residual);
    let bits = bbq::residual_bits(residual);
    if residual.len() > 0 && bbq::lows(residual).len() == 0 {
        lemma_none_left(residual, flags, residual.len());
        assert forall|d: int| 0 <= d < residual.len() implies #[trigger] bbq::row_flags(
            bits,
            residual.len(),
        )[d] == flags[d] by {
            let k = (d % 8) as u8;
            assert((0xffu8 >> k) & 1 != 0) by (bit_vector)
                requires
                    k < 8,
            ;
        }
        assert(bbq::row_flags(bits, residual.len()) =~= flags);
    } else {
        bbq::flags_survive_packing(flags);
    }
}

/// Each component of the row that a coded row stands for is the centroid's, moved by
/// the mean of those components of the row that lie on the same side of the median.
pub proof fn coded_row_stands_for_its_means(m: Calc, centroid: Seq<u32>, residual: Seq<u32>, d: int)
    requires
        residual.len() == centroid.len(),
        0 <= d < residual.len(),
    ensures
        ({
            let levels = bbq::residual_levels(m, residual);
            bbq::dequantized(
                m,
                centroid,
                bbq::residual_bits(residual),
                levels.0,
                levels.1,
            )[d] == m(
                Op::Add,
                centroid[d],
                bbq::mean(
                    m,
                    if floatbits::at_least(residual[d], bbq::median(residual)) {
                        bbq::highs(residual)
                    } else {
                        bbq::lows(residual)
                    },
                ),
            )
        }),
{
    let flags = bbq::upper_flags(residual);
    bits_tell_the_upper_half(residual);
    assert(bbq::row_flags(bbq::residual_bits(residual), residual.len())[d] == flags[d]);
    lemma_has_chosen(residual, flags, residual.len(), d);
}

/// A number with a flag is among the numbers chosen by it.
proof fn lemma_has_chosen(values: Seq<u32>, flags: Seq<bool>, n: nat, d: int)
    requires
        0 <= d < n <= flags.len(),
    ensures
        bbq::chosen(values, flags, n, flags[d]).len() > 0,
    decreases n,
{
    if d < n - 1 {
        lemma_has_chosen(values, flags, (n - 1) as nat, d);
    }
}

// ---------------------------------------------------------------------------
// Sums over bits
// ---------------------------------------------------------------------------

/// Numbers where their flag is set, zero elsewhere.
pub open spec fn masked(values: Seq<u32>, flags: Seq<bool>) -> Seq<u32> {
    Seq::new(
        flags.len(),
        |d: int|
            if flags[d] {
                values[d]
            } else {
                0
            },
    )
}

/// Skipped numbers add nothing.
proof fn lemma_masked_sum(m: Calc, num: Set<u32>, values: Seq<u32>, flags: Seq<bool>, n: nat)
    requires
        exact::is_exact(m, num),
        exact::all_in(num, values),
        n <= flags.len(),
        flags.len() <= values.len(),
    ensures
        exact::sum(m, masked(values, flags).take(n as int)) == exact::sum(
            m,
            bbq::chosen(values, flags, n, true),
        ),
        exact::all_in(num, masked(values, flags)),
    decreases n,
{
    exact::lemma_zero(m, num);
    let all = masked(values, flags);
    if n > 0 {
        lemma_masked_sum(m, num, values, flags, (n - 1) as nat);
        assert(all.take(n as int).drop_last() =~= all.take(n - 1));
        let before = bbq::chosen(values, flags, (n - 1) as nat, true);
        assert(before.push(values[n - 1]).drop_last() =~= before);
        if !flags[n - 1] {
            assert(exact::all_in(num, all.take(n - 1)));
            exact::lemma_total(m, num, 0, all.take(n - 1));
            exact::lemma_closed(m, num, exact::sum(m, all.take(n - 1)), 0);
        }
    }
}

/// The number that each bit stands for.
pub open spec fn residuals(flags: Seq<bool>, lower: u32, upper: u32) -> Seq<u32> {
    Seq::new(
        flags.len(),
        |d: int|
            if flags[d] {
                upper
            } else {
                lower
            },
    )
}

/// The inner product with what bits stand for, taken from the bits.
proof fn lemma_along(
    m: Calc,
    num: Set<u32>,
    values: Seq<u32>,
    bits: Seq<u8>,
    lower: u32,
    upper: u32,
)
    requires
        exact::is_exact(m, num),
        exact::all_in(num, values),
        num.contains(lower),
        num.contains(upper),
    ensures
        exact::dot(m, values, residuals(bbq::row_flags(bits, values.len()), lower, upper)) == m(
            Op::Add,
            m(Op::Mul, lower, exact::sum(m, values)),
            m(Op::Mul, m(Op::Sub, upper, lower), bbq::binary_dot(m, values, bits, values.len())),
        ),
        num.contains(bbq::binary_dot(m, values, bits, values.len())),
        exact::all_in(num, residuals(bbq::row_flags(bits, values.len()), lower, upper)),
{
    let n = values.len();
    let flags = bbq::row_flags(bits, n);
    let r = residuals(flags, lower, upper);
    let gap = m(Op::Sub, upper, lower);
    let part = masked(values, flags);
    let all = metric::products(m, values, r);
    let low = Seq::new(n, |d: int| m(Op::Mul, values[d], lower));
    let high = Seq::new(n, |d: int| m(Op::Mul, part[d], gap));
    exact::lemma_zero(m, num);
    exact::lemma_closed(m, num, upper, lower);
    lemma_masked_sum(m, num, values, flags, n);
    assert(part.take(n as int) =~= part);
    exact::lemma_total(m, num, 0, part);
    exact::lemma_total(m, num, 0, values);
    exact::lemma_sum_of_multiples(m, num, values, lower, low);
    exact::lemma_sum_of_multiples(m, num, part, gap, high);
    assert forall|d: int| 0 <= d < n implies #[trigger] all[d] == m(
        Op::Add,
        low[d],
        high[d],
    ) by {
        let x = values[d];
        exact::lemma_closed(m, num, x, lower);
        if flags[d] {
            exact::lemma_three(m, num, x, gap, lower);
            exact::lemma_closed(m, num, x, gap);
            exact::lemma_closed(m, num, m(Op::Mul, x, lower), m(Op::Mul, x, gap));
        } else {
            exact::lemma_mul_sub(m, num, gap, gap, gap);
            exact::lemma_closed(m, num, m(Op::Mul, x, lower), 0);
        }
    }
    exact::lemma_sum_of_pairs(m, num, low, high, all);
    exact::lemma_closed(m, num, lower, exact::sum(m, values));
    exact::lemma_closed(m, num, gap, exact::sum(m, part));
}

/// Where arithmetic is exact, the dot product distance taken from a row's bits is the
/// distance of the query to the row that the bits stand for.
pub proof fn dot_from_bits_is_the_distance(
    m: Calc,
    num: Set<u32>,
    query: Seq<u32>,
    centroid: Seq<u32>,
    bits: Seq<u8>,
    lower: u32,
    upper: u32,
    ctx: BbqDotCtx,
)
    requires
        exact::is_exact(m, num),
        query.len() == centroid.len(),
        exact::all_in(num, query),
        exact::all_in(num, centroid),
        num.contains(lower),
        num.contains(upper),
        ctx.qc_dot == exact::dot(m, query, centroid),
        ctx.q_sum == exact::sum(m, query),
    ensures
        bbq::dot_from_bits(
            m,
            ctx,
            lower,
            upper,
            bbq::binary_dot(m, query, bits, query.len()),
        ) == metric::dot_distance(m, query, bbq::dequantized(m, centroid, bits, lower, upper)),
{
    let n = query.len();
    let flags = bbq::row_flags(bits, n);
    let r = residuals(flags, lower, upper);
    let row = bbq::dequantized(m, centroid, bits, lower, upper);
    let bd = bbq::binary_dot(m, query, bits, n);
    let gap = m(Op::Sub, upper, lower);
    lemma_along(m, num, query, bits, lower, upper);
    exact::lemma_zero(m, num);
    exact::lemma_products_in(m, num, query, centroid);
    exact::lemma_products_in(m, num, query, r);
    let all = metric::products(m, query, row);
    let with_centroid = metric::products(m, query, centroid);
    let with_rest = metric::products(m, query, r);
    assert forall|d: int| 0 <= d < n implies #[trigger] all[d] == m(
        Op::Add,
        with_centroid[d],
        with_rest[d],
    ) by {
        assert(row[d] == m(Op::Add, centroid[d], r[d]));
        exact::lemma_three(m, num, query[d], centroid[d], r[d]);
    }
    exact::lemma_sum_of_pairs(m, num, with_centroid, with_rest, all);
    exact::lemma_total(m, num, 0, query);
    exact::lemma_closed(m, num, upper, lower);
    exact::lemma_closed(m, num, lower, ctx.q_sum);
    exact::lemma_closed(m, num, gap, bd);
    exact::lemma_three(m, num, ctx.qc_dot, m(Op::Mul, lower, ctx.q_sum), m(Op::Mul, gap, bd));
}

/// The square of a difference, and twice the product, are the two squares.
proof fn lemma_square_of_difference(m: Calc, num: Set<u32>, e: u32, r: u32)
    requires
        exact::is_exact(m, num),
        num.contains(e),
        num.contains(r),
    ensures
        m(
            Op::Add,
            m(Op::Mul, m(Op::Sub, e, r), m(Op::Sub, e, r)),
            m(Op::Add, m(Op::Mul, e, r), m(Op::Mul, e, r)),
        ) == m(Op::Add, m(Op::Mul, e, e), m(Op::Mul, r, r)),
{
    let d = m(Op::Sub, e, r);
    let (dd, er, rr, de) = (
        m(Op::Mul, d, d),
        m(Op::Mul, e, r),
        m(Op::Mul, r, r),
        m(Op::Mul, d, e),
    );
    let dr = m(Op::Mul, d, r);
    exact::lemma_closed(m, num, e, r);
    exact::lemma_closed(m, num, d, d);
    exact::lemma_closed(m, num, d, r);
    exact::lemma_closed(m, num, d, e);
    exact::lemma_closed(m, num, r, r);
    // e r == d r + r r, e e == d e + r e, d e == d d + d r.
    exact::lemma_three(m, num, r, d, r);
    exact::lemma_three(m, num, e, d, r);
    exact::lemma_three(m, num, d, d, r);
    // d d + (e r + (d r + r r)) == (d d + d r) + (e r + r r)
    exact::lemma_closed(m, num, dr, rr);
    exact::lemma_closed(m, num, er, rr);
    exact::lemma_closed(m, num, dr, er);
    exact::lemma_three(m, num, er, dr, rr);
    exact::lemma_three(m, num, dr, er, rr);
    exact::lemma_three(m, num, dd, dr, m(Op::Add, er, rr));
    exact::lemma_three(m, num, de, er, rr);
}

/// The squares of what bits stand for, taken from how many bits are set.
proof fn lemma_squares_of_residuals(
    m: Calc,
    num: Set<u32>,
    flags: Seq<bool>,
    lower: u32,
    upper: u32,
)
    requires
        exact::is_exact(m, num),
        num.contains(lower),
        num.contains(upper),
        flags.len() <= u32::MAX,
    ensures
        ({
            let pop = m(Op::Int, bbq::set_count(flags) as u32, 0);
            let rest = m(Op::Int, (flags.len() - bbq::set_count(flags)) as u32, 0);
            let r = residuals(flags, lower, upper);
            &&& bbq::set_count(flags) <= flags.len()
            &&& exact::all_in(num, r)
            &&& exact::dot(m, r, r) == m(
                Op::Add,
                m(Op::Mul, m(Op::Mul, pop, upper), upper),
                m(Op::Mul, m(Op::Mul, rest, lower), lower),
            )
        }),
    decreases flags.len(),
{
    exact::lemma_zero(m, num);
    exact::lemma_int(m, num, 0);
    exact::lemma_mul_sub(m, num, lower, lower, lower);
    exact::lemma_mul_sub(m, num, upper, upper, upper);
    let r = residuals(flags, lower, upper);
    let squares = metric::products(m, r, r);
    let count = bbq::set_count(flags);
    let pop = m(Op::Int, count as u32, 0);
    let rest = m(Op::Int, (flags.len() - count) as u32, 0);
    if flags.len() > 0 {
        let init = flags.drop_last();
        let c = bbq::set_count(init);
        lemma_squares_of_residuals(m, num, init, lower, upper);
        let before = residuals(init, lower, upper);
        assert(squares.drop_last() =~= metric::products(m, before, before));
        let pop0 = m(Op::Int, c as u32, 0);
        let rest0 = m(Op::Int, (init.len() - c) as u32, 0);
        exact::lemma_int(m, num, c as u32);
        exact::lemma_int(m, num, (init.len() - c) as u32);
        let up = m(Op::Mul, m(Op::Mul, pop0, upper), upper);
        let down = m(Op::Mul, m(Op::Mul, rest0, lower), lower);
        exact::lemma_closed(m, num, pop0, upper);
        exact::lemma_closed(m, num, rest0, lower);
        exact::lemma_closed(m, num, m(Op::Mul, pop0, upper), upper);
        exact::lemma_closed(m, num, m(Op::Mul, rest0, lower), lower);
        exact::lemma_closed(m, num, upper, upper);
        exact::lemma_closed(m, num, lower, lower);
        let x = m(Op::Mul, r.last(), r.last());
        if flags.last() {
            exact::lemma_int(m, num, count as u32);
            exact::lemma_three(m, num, upper, pop0, ONE_BITS);
            exact::lemma_three(m, num, upper, m(Op::Mul, pop0, upper), upper);
            // (up + down) + x == (up + x) + down
            exact::lemma_three(m, num, up, down, x);
            exact::lemma_three(m, num, up, x, down);
            exact::lemma_closed(m, num, down, x);
        } else {
            exact::lemma_int(m, num, (flags.len() - count) as u32);
            exact::lemma_three(m, num, lower, rest0, ONE_BITS);
            exact::lemma_three(m, num, lower, m(Op::Mul, rest0, lower), lower);
            exact::lemma_three(m, num, up, down, x);
        }
    }
}

/// A query less a sum is the query less one part, less the other.
proof fn lemma_less_sum(m: Calc, num: Set<u32>, q: u32, c: u32, r: u32)
    requires
        exact::is_exact(m, num),
        num.contains(q),
        num.contains(c),
        num.contains(r),
    ensures
        m(Op::Sub, q, m(Op::Add, c, r)) == m(Op::Sub, m(Op::Sub, q, c), r),
{
    let e = m(Op::Sub, q, c);
    let d = m(Op::Sub, e, r);
    exact::lemma_closed(m, num, q, c);
    exact::lemma_closed(m, num, e, r);
    exact::lemma_closed(m, num, c, r);
    exact::lemma_three(m, num, d, r, c);
    exact::lemma_sub_is(m, num, q, m(Op::Add, c, r), d);
}

/// Where arithmetic is exact, the squared Euclidean distance taken from a row's bits is
/// that of the query to the row that the bits stand for; and so is the distance, unless
/// the squared one counts as negative.
pub proof fn l2_from_bits_is_the_distance(
    m: Calc,
    num: Set<u32>,
    query: Seq<u32>,
    centroid: Seq<u32>,
    bits: Seq<u8>,
    lower: u32,
    upper: u32,
    ctx: BbqL2Ctx,
)
    requires
        exact::is_exact(m, num),
        query.len() == centroid.len(),
        query.len() <= u32::MAX,
        exact::all_in(num, query),
        exact::all_in(num, centroid),
        num.contains(lower),
        num.contains(upper),
        ctx.qc@ == bbq::centered(m, query, centroid),
        ctx.qc_dist_sq == exact::dot(m, ctx.qc@, ctx.qc@),
        ctx.qc_sum == exact::sum(m, ctx.qc@),
    ensures
        ({
            let dim = query.len();
            let bd = bbq::binary_dot(m, ctx.qc@, bits, dim);
            let row = bbq::dequantized(m, centroid, bits, lower, upper);
            let squared = exact::sum(m, metric::squared_gaps(m, query, row));
            &&& bbq::squared_from_bits(m, ctx, lower, upper, bits, dim, bd) == squared
            &&& floatbits::at_least_zero(squared) == squared ==> bbq::l2_from_bits(
                m,
                ctx,
                lower,
                upper,
                bits,
                dim,
                bd,
            ) == metric::l2_distance(m, query, row)
        }),
{
    let n = query.len();
    let e = bbq::centered(m, query, centroid);
    let flags = bbq::row_flags(bits, n);
    let r = residuals(flags, lower, upper);
    let row = bbq::dequantized(m, centroid, bits, lower, upper);
    let gaps = metric::squared_gaps(m, query, row);
    let (ee, er, rr) = (
        metric::products(m, e, e),
        metric::products(m, e, r),
        metric::products(m, r, r),
    );
    exact::lemma_zero(m, num);
    assert forall|d: int| 0 <= d < n implies num.contains(#[trigger] e[d]) by {
        exact::lemma_closed(m, num, query[d], centroid[d]);
    }
    lemma_along(m, num, e, bits, lower, upper);
    lemma_squares_of_residuals(m, num, flags, lower, upper);
    exact::lemma_products_in(m, num, e, e);
    exact::lemma_products_in(m, num, e, r);
    exact::lemma_products_in(m, num, r, r);
    let twice = Seq::new(n, |d: int| m(Op::Add, er[d], er[d]));
    let left = Seq::new(n, |d: int| m(Op::Add, gaps[d], twice[d]));
    assert forall|d: int| 0 <= d < n implies num.contains(#[trigger] gaps[d]) by {
        lemma_less_sum(m, num, query[d], centroid[d], r[d]);
        exact::lemma_closed(m, num, e[d], r[d]);
        let gap = m(Op::Sub, e[d], r[d]);
        exact::lemma_closed(m, num, gap, gap);
    }
    exact::lemma_sum_of_pairs(m, num, er, er, twice);
    exact::lemma_sum_of_pairs(m, num, gaps, twice, left);
    assert forall|d: int| 0 <= d < n implies #[trigger] left[d] == m(Op::Add, ee[d], rr[d]) by {
        lemma_less_sum(m, num, query[d], centroid[d], r[d]);
        lemma_square_of_difference(m, num, e[d], r[d]);
    }
    exact::lemma_sum_of_pairs(m, num, ee, rr, left);
    let (g, along, sq, norm_sq) = (
        exact::sum(m, gaps),
        exact::dot(m, e, r),
        exact::dot(m, e, e),
        exact::dot(m, r, r),
    );
    exact::lemma_total(m, num, 0, gaps);
    let two = m(Op::Add, along, along);
    exact::lemma_closed(m, num, along, along);
    assert(m(Op::Mul, TWO_BITS, along) == two) by {
        exact::lemma_two(m, num);
        exact::lemma_three(m, num, along, ONE_BITS, ONE_BITS);
        exact::lemma_closed(m, num, along, ONE_BITS);
    }
    // g + two == sq + norm_sq
    let base = m(Op::Sub, sq, two);
    exact::lemma_closed(m, num, sq, two);
    exact::lemma_closed(m, num, base, norm_sq);
    exact::lemma_closed(m, num, two, norm_sq);
    exact::lemma_three(m, num, base, norm_sq, two);
    exact::lemma_three(m, num, base, two, norm_sq);
    exact::lemma_cancel(m, num, m(Op::Add, base, norm_sq), g, two);
    // The clear bits are those that are not set.
    let count = bbq::set_count(flags) as u32;
    let clear = (n - count) as u32;
    exact::lemma_int(m, num, count);
    exact::lemma_int(m, num, clear);
    exact::lemma_int(m, num, n as u32);
    exact::lemma_int_sum(m, num, clear, count);
    exact::lemma_sub_is(
        m,
        num,
        m(Op::Int, n as u32, 0),
        m(Op::Int, count, 0),
        m(Op::Int, clear, 0),
    );
    assert(bbq::squared_from_bits(
        m,
        ctx,
        lower,
        upper,
        bits,
        n,
        bbq::binary_dot(m, e, bits, n),
    ) == m(Op::Add, base, norm_sq));
}

} // verus!
