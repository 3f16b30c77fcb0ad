//! How rotated components are calibrated before they are coded: from which sample, and
//! onto which levels.

use vstd::prelude::*;

use crate::arith::{Calc, Op};
use crate::codebook;
use crate::codebook::{HALF, ONE, TOP_QUANTILE};
use crate::exact;
use crate::floatbits;
use crate::floatbits::{ONE_BITS, TINY_BITS};
use crate::hits;
use crate::rotation;
use crate::turboquant;
use crate::turboquant::Levels;
use crate::wide;
use crate::wide::{WideCalc, WideOp};

verus! {

/// How many of `n` rows are sampled: all of them, up to 1024.
pub open spec fn sampled_count(n: nat) -> nat {
    if n <= 1024 {
        n
    } else {
        1024
    }
}

/// Whether `sample` holds component `d` of the sampled rows in ascending order. The rows
/// of a sample stand at equal steps, from the first row on.
pub open spec fn is_sample(
    m: Calc,
    flat: Seq<u32>,
    n: nat,
    dim: nat,
    padded: usize,
    d: int,
    sample: Seq<u32>,
) -> bool {
    let count = sampled_count(n);
    &&& forall|i: int, j: int|
        0 <= i <= j < sample.len() ==> floatbits::total_rank(sample[i]) <= floatbits::total_rank(
            sample[j],
        )
    &&& sample.to_multiset() == Seq::new(
        count,
        |j: int|
            rotation::rotated(
                m,
                flat.subrange(j * (n / count) * dim, j * (n / count) * dim + dim),
                padded as nat,
                rotation::signs_of(padded),
            )[d],
    ).to_multiset()
}

proof fn lemma_sample(
    m: Calc,
    flat: Seq<u32>,
    n: nat,
    dim: nat,
    padded: usize,
    d: int,
    sample: Seq<u32>,
)
    requires
        n >= 2,
        padded == turboquant::padded_of(dim),
        is_sample(m, flat, n, dim, padded, d, sample),
    ensures
        sample.len() == sampled_count(n),
        sample == hits::ordered(
            turboquant::sampled(turboquant::rotated_rows(m, flat, n, dim), d),
        ),
{
    let count = sampled_count(n);
    let rows = turboquant::rotated_rows(m, flat, n, dim);
    let taken = Seq::new(
        count,
        |j: int|
            rotation::rotated(
                m,
                flat.subrange(j * (n / count) * dim, j * (n / count) * dim + dim),
                padded as nat,
                rotation::signs_of(padded),
            )[d],
    );
    assert(turboquant::sampled(rows, d) =~= taken) by {
        assert forall|j: int| 0 <= j < count implies #[trigger] taken[j] == turboquant::sampled(
            rows,
            d,
        )[j] by {
            let i = j * (n / count);
            vstd::arithmetic::div_mod::lemma_fundamental_div_mod(n as int, count as int);
            assert(n / count * count <= n && n / count >= 1) by (nonlinear_arith)
                requires
                    n == count * (n / count) + n % count,
                    0 <= n % count < count,
                    count <= n,
            ;
            assert(0 <= i < n) by (nonlinear_arith)
                requires
                    0 <= j < count,
                    count <= n,
                    i == j * (n / count),
                    n / count >= 1,
                    n / count * count <= n,
            ;
            assert(rows[i] == rotation::rotated(
                m,
                turboquant::row_at(flat, dim, i),
                padded as nat,
                rotation::signs_of(padded),
            ));
        }
    }
    hits::ordered_is_the_ascending_order(taken, sample);
    sample.to_multiset_ensures();
    taken.to_multiset_ensures();
}

/// The entry at a position of a sample, or the last one where the position lies behind it.
pub open spec fn entry_at(sample: Seq<u32>, at: usize) -> u32 {
    sample[if at < sample.len() {
        at as int
    } else {
        sample.len() - 1
    }]
}

/// The largest of the levels' absolute values is found: it is one of them, and none is
/// larger. Without a level above zero it is zero.
pub proof fn outermost_is_the_largest_level(centroids: Seq<u32>)
    ensures
        ({
            let outer = turboquant::outermost(centroids);
            &&& !floatbits::is_nan(outer)
            &&& !floatbits::is_negative(outer)
            &&& outer == 0 || exists|i: int|
                0 <= i < centroids.len() && outer == #[trigger] floatbits::absolute(centroids[i])
            &&& forall|i: int|
                0 <= i < centroids.len() ==> !floatbits::less(
                    outer,
                    #[trigger] floatbits::absolute(centroids[i]),
                )
        }),
    decreases centroids.len(),
{
    if centroids.len() > 0 {
        let init = centroids.drop_last();
        outermost_is_the_largest_level(init);
        let outer = turboquant::outermost(centroids);
        let before = turboquant::outermost(init);
        assert forall|i: int| 0 <= i < centroids.len() implies !floatbits::less(
            outer,
            #[trigger] floatbits::absolute(centroids[i]),
        ) by {
            if i < init.len() {
                assert(centroids[i] == init[i]);
                assert(!floatbits::less(before, floatbits::absolute(init[i])));
            }
        }
        if outer == before && outer != 0 {
            let i = choose|i: int|
                0 <= i < init.len() && outer == #[trigger] floatbits::absolute(init[i]);
            assert(outer == floatbits::absolute(centroids[i]));
        } else if outer != 0 {
            assert(outer == floatbits::absolute(centroids[centroids.len() - 1]));
        }
    }
}

/// The quantiles that calibration goes by lie at equal distances from both ends: the
/// upper one is where the normal distribution of the components puts the outermost level,
/// but not below one half and not above 0.999, and the lower one is one less the upper
/// one. They are looked up at the nearest positions in the sample.
pub proof fn quantiles_are_those_of_the_outermost_level(
    w: WideCalc,
    outer: u32,
    padded: usize,
    count: usize,
) -> (upper: u64)
    ensures
        !wide::less(upper, HALF),
        !wide::less(TOP_QUANTILE, upper),
        ({
            let deviation = w(
                WideOp::Div,
                ONE,
                w(WideOp::Sqrt, w(WideOp::Int, padded as u64, 0), 0),
            );
            let p = codebook::cdf_of(
                w,
                w(WideOp::Div, w(WideOp::Widen, outer as u64, 0), deviation),
            );
            &&& wide::less(p, HALF) ==> upper == HALF
            &&& wide::less(TOP_QUANTILE, p) ==> upper == TOP_QUANTILE
            &&& !wide::less(p, HALF) && !wide::less(TOP_QUANTILE, p) ==> upper == p
        }),
        ({
            let at = codebook::positions_of(w, outer, padded, count);
            let steps = w(
                WideOp::Int,
                (if count == 0 {
                    0int
                } else {
                    count - 1
                }) as u64,
                0,
            );
            let low = w(WideOp::Round, w(WideOp::Mul, w(WideOp::Sub, ONE, upper), steps), 0);
            let high = w(WideOp::Round, w(WideOp::Mul, upper, steps), 0);
            &&& low <= usize::MAX ==> at.0 == low
            &&& low > usize::MAX ==> at.0 == usize::MAX
            &&& high <= usize::MAX ==> at.1 == high
            &&& high > usize::MAX ==> at.1 == usize::MAX
        }),
{
    let upper = codebook::upper_quantile(w, outer, padded);
    upper
}

/// A component is shifted and scaled so that the two quantiles of its sample come to the
/// two outermost levels: the scale is the distance of the levels over the distance of the
/// quantiles, and the shift moves the lower quantile to the lower level. Where the
/// quantiles lie too close, or either number is none, or the scale is not above zero, the
/// component is left as it is; and so is every component of a single row.
pub proof fn components_are_fitted_to_their_quantiles(
    m: Calc,
    w: WideCalc,
    n: nat,
    dim: nat,
    flat: Seq<u32>,
    c: Levels,
    padded: usize,
    d: int,
    sample: Seq<u32>,
)
    requires
        padded == turboquant::padded_of(dim),
        0 <= d < padded,
        n <= u32::MAX,
        n >= 2 ==> is_sample(m, flat, n, dim, padded, d, sample),
    ensures
        ({
            let t = turboquant::encoded(m, w, n, dim, flat, c).tqplus;
            let outer = turboquant::outermost(c.centroids);
            let at = codebook::positions_of(w, outer, padded, sampled_count(n) as usize);
            let (low, high) = (entry_at(sample, at.0), entry_at(sample, at.1));
            let gap = m(Op::Sub, high, low);
            let scale = m(Op::Div, m(Op::Sub, outer, floatbits::opposite(outer)), gap);
            let shift = m(Op::Sub, m(Op::Div, floatbits::opposite(outer), scale), low);
            let fits = !floatbits::less(gap, TINY_BITS) && floatbits::is_finite(scale)
                && floatbits::less(0, scale) && floatbits::is_finite(shift);
            &&& t.shift.len() == padded && t.scale.len() == padded
            &&& n >= 2 && fits ==> t.shift[d] == shift && t.scale[d] == scale
            &&& n < 2 || !fits ==> t.shift[d] == 0 && t.scale[d] == ONE_BITS
        }),
{
    if n >= 2 {
        lemma_sample(m, flat, n, dim, padded, d, sample);
    }
}

/// Where arithmetic is exact, calibration takes the lower quantile of a component to the
/// lowest level and the upper quantile to the highest.
pub proof fn quantiles_are_taken_to_the_outermost_levels(
    m: Calc,
    num: Set<u32>,
    w: WideCalc,
    n: nat,
    dim: nat,
    flat: Seq<u32>,
    c: Levels,
    padded: usize,
    d: int,
    sample: Seq<u32>,
    low: u32,
    high: u32,
)
    requires
        exact::is_exact(m, num),
        padded == turboquant::padded_of(dim),
        0 <= d < padded,
        2 <= n <= u32::MAX,
        is_sample(m, flat, n, dim, padded, d, sample),
        ({
            let outer = turboquant::outermost(c.centroids);
            let at = codebook::positions_of(w, outer, padded, sampled_count(n) as usize);
            &&& num.contains(outer) && num.contains(floatbits::opposite(outer))
            &&& low == entry_at(sample, at.0) && high == entry_at(sample, at.1)
        }),
        num.contains(low),
        num.contains(high),
    ensures
        ({
            let t = turboquant::encoded(m, w, n, dim, flat, c).tqplus;
            let outer = turboquant::outermost(c.centroids);
            ||| t.shift[d] == 0 && t.scale[d] == ONE_BITS
            ||| {
                &&& m(Op::Mul, m(Op::Add, low, t.shift[d]), t.scale[d]) == floatbits::opposite(
                    outer,
                )
                &&& m(Op::Mul, m(Op::Add, high, t.shift[d]), t.scale[d]) == outer
            }
        }),
{
    components_are_fitted_to_their_quantiles(m, w, n, dim, flat, c, padded, d, sample);
    let t = turboquant::encoded(m, w, n, dim, flat, c).tqplus;
    let outer = turboquant::outermost(c.centroids);
    let under = floatbits::opposite(outer);
    let gap = m(Op::Sub, high, low);
    let reach = m(Op::Sub, outer, under);
    let scale = m(Op::Div, reach, gap);
    let start = m(Op::Div, under, scale);
    let shift = m(Op::Sub, start, low);
    if t.shift[d] == shift && t.scale[d] == scale && !floatbits::less(gap, TINY_BITS)
        && floatbits::less(0, scale) {
        assert(gap != 0);
        assert(scale != 0);
        exact::lemma_closed(m, num, high, low);
        exact::lemma_closed(m, num, outer, under);
        exact::lemma_quotient(m, num, reach, gap);
        exact::lemma_quotient(m, num, under, scale);
        exact::lemma_closed(m, num, start, low);
        exact::lemma_closed(m, num, shift, low);
        exact::lemma_closed(m, num, low, shift);
        assert(m(Op::Add, low, shift) == start);
        exact::lemma_closed(m, num, gap, low);
        exact::lemma_three(m, num, gap, low, shift);
        assert(m(Op::Add, high, shift) == m(Op::Add, gap, start));
        exact::lemma_closed(m, num, gap, start);
        exact::lemma_closed(m, num, m(Op::Add, gap, start), scale);
        exact::lemma_three(m, num, scale, gap, start);
        exact::lemma_closed(m, num, scale, gap);
        exact::lemma_closed(m, num, scale, start);
        exact::lemma_closed(m, num, start, scale);
    }
}

/// A quantile is the entry of a sample at its position, or the last entry where the position
/// lies behind it; an empty sample has the quantile zero.
pub proof fn quantiles_are_entries_of_the_sample(sample: Seq<u32>, at: usize)
    ensures
        sample.len() == 0 ==> turboquant::quantile_of(sample, at as int) == 0,
        sample.len() > 0 ==> turboquant::quantile_of(sample, at as int) == entry_at(sample, at),
{
}

} // verus!
