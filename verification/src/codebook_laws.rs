//! Where the levels of a codebook come from: each is the mean of what is coded by it.

use vstd::prelude::*;

use crate::arith::{Calc, Op};
use crate::codebook;
use crate::codebook::{
    EMPTY_CELL, HALF, HALF_BITS, NEG_HALF, NEG_ONE, ONE, PI, ROOT_TWO, SETTLED, THREE, TWO,
};
use crate::wide;
use crate::wide::{WideCalc, WideOp};

verus! {

/// The middle of two numbers.
pub open spec fn middle(w: WideCalc, a: u64, b: u64) -> u64 {
    w(WideOp::Mul, w(WideOp::Add, a, b), HALF)
}

/// Whether `mean` is the mean of a normal number of deviation `sigma` that lies between
/// two bounds, or the middle of the bounds where it hardly ever lies there.
pub open spec fn is_mean_of_cell(w: WideCalc, lo: u64, hi: u64, sigma: u64, mean: u64) -> bool {
    let (a, b) = (w(WideOp::Div, lo, sigma), w(WideOp::Div, hi, sigma));
    let share = w(WideOp::Sub, codebook::cdf_of(w, b), codebook::cdf_of(w, a));
    let slope = w(WideOp::Sub, codebook::pdf_of(w, a), codebook::pdf_of(w, b));
    if wide::less(share, EMPTY_CELL) {
        mean == middle(w, lo, hi)
    } else {
        mean == w(WideOp::Div, w(WideOp::Mul, sigma, slope), share)
    }
}

/// Whether each of the sixteen levels in `next` is the mean of the cell of a level in
/// `levels`. Cells meet in the middle between their levels; the outer ones end at minus
/// one and one.
pub open spec fn are_means(w: WideCalc, levels: Seq<u64>, next: Seq<u64>, sigma: u64) -> bool {
    &&& next.len() == 16
    &&& is_mean_of_cell(w, NEG_ONE, middle(w, levels[0], levels[1]), sigma, next[0])
    &&& is_mean_of_cell(w, middle(w, levels[14], levels[15]), ONE, sigma, next[15])
    &&& forall|i: int|
        1 <= i < 15 ==> is_mean_of_cell(
            w,
            middle(w, levels[i - 1], levels[i]),
            middle(w, levels[i], levels[i + 1]),
            sigma,
            #[trigger] next[i],
        )
}

/// Whether no level moves far from `levels` to `next`.
pub open spec fn is_settled(w: WideCalc, levels: Seq<u64>, next: Seq<u64>) -> bool {
    forall|i: int|
        0 <= i < 16 ==> {
            let step = wide::absolute(w(WideOp::Sub, #[trigger] next[i], levels[i]));
            wide::is_nan(step) || wide::less(step, SETTLED)
        }
}

/// Whether `rounds` leads from sixteen levels at equal distances, over three deviations
/// to both sides but not beyond one, to settled ones: each entry holds the means of the
/// cells of the entry before, and the first round in which no level moves far is the
/// last, or else the eightieth.
pub open spec fn leads_to_settled(w: WideCalc, sigma: u64, rounds: Seq<Seq<u64>>) -> bool {
    &&& 2 <= rounds.len() <= 81
    &&& forall|k: int|
        0 < k < rounds.len() ==> are_means(w, rounds[k - 1], #[trigger] rounds[k], sigma)
    &&& forall|k: int|
        0 < k < rounds.len() - 1 ==> !is_settled(w, rounds[k - 1], #[trigger] rounds[k])
    &&& rounds.len() == 81 || is_settled(
        w,
        rounds[rounds.len() - 2],
        rounds[rounds.len() - 1],
    )
}

/// Whether levels stand at equal distances over three deviations to both sides, but not
/// beyond one.
pub open spec fn are_evenly_spread(w: WideCalc, sigma: u64, levels: Seq<u64>) -> bool {
    let three = w(WideOp::Mul, THREE, sigma);
    let end = if wide::less(three, ONE) {
        three
    } else {
        ONE
    };
    &&& levels.len() == 16
    &&& forall|i: int|
        0 <= i < 16 ==> #[trigger] levels[i] == w(
            WideOp::Add,
            wide::opposite(end),
            w(
                WideOp::Div,
                w(WideOp::Mul, w(WideOp::Mul, TWO, end), w(WideOp::Int, i as u64, 0)),
                w(WideOp::Sub, w(WideOp::Int, 16, 0), ONE),
            ),
        )
}

proof fn lemma_means(w: WideCalc, levels: Seq<u64>, sigma: u64)
    ensures
        are_means(w, levels, codebook::centred_levels(w, levels, sigma), sigma),
{
    let next = codebook::centred_levels(w, levels, sigma);
    assert(next[0] == codebook::cond_mean_of(
        w,
        codebook::edge_of(w, levels, 0),
        codebook::edge_of(w, levels, 1),
        sigma,
    ));
    assert(next[15] == codebook::cond_mean_of(
        w,
        codebook::edge_of(w, levels, 15),
        codebook::edge_of(w, levels, 16),
        sigma,
    ));
}

proof fn lemma_settled(w: WideCalc, levels: Seq<u64>, next: Seq<u64>, n: nat)
    requires
        n <= 16,
    ensures
        !wide::is_nan(codebook::change_of(w, levels, next, n)),
        !wide::is_negative(codebook::change_of(w, levels, next, n)),
        wide::less(codebook::change_of(w, levels, next, n), SETTLED) <==> forall|i: int|
            0 <= i < n ==> {
                let step = wide::absolute(w(WideOp::Sub, #[trigger] next[i], levels[i]));
                wide::is_nan(step) || wide::less(step, SETTLED)
            },
    decreases n,
{
    if n > 0 {
        lemma_settled(w, levels, next, (n - 1) as nat);
        let step = wide::absolute(w(WideOp::Sub, next[n - 1], levels[n - 1]));
        assert(!wide::is_negative(step));
        let before = codebook::change_of(w, levels, next, (n - 1) as nat);
        let now = codebook::change_of(w, levels, next, n);
        if wide::less(now, SETTLED) {
            assert(wide::less(before, SETTLED));
        }
    }
}

proof fn lemma_rounds(w: WideCalc, levels: Seq<u64>, sigma: u64, left: nat) -> (rounds: Seq<
    Seq<u64>,
>)
    requires
        1 <= left,
    ensures
        2 <= rounds.len() <= left + 1,
        rounds[0] == levels,
        rounds.last() == codebook::refined_levels(w, levels, sigma, left),
        forall|k: int|
            0 < k < rounds.len() ==> are_means(w, rounds[k - 1], #[trigger] rounds[k], sigma),
        forall|k: int|
            0 < k < rounds.len() - 1 ==> !is_settled(w, rounds[k - 1], #[trigger] rounds[k]),
        rounds.len() == left + 1 || is_settled(
            w,
            rounds[rounds.len() - 2],
            rounds[rounds.len() - 1],
        ),
    decreases left,
{
    let next = codebook::centred_levels(w, levels, sigma);
    lemma_means(w, levels, sigma);
    lemma_settled(w, levels, next, 16);
    assert(wide::less(codebook::change_of(w, levels, next, 16), SETTLED) == is_settled(
        w,
        levels,
        next,
    ));
    if left == 1 || is_settled(w, levels, next) {
        assert(codebook::refined_levels(w, next, sigma, 0) == next);
        seq![levels, next]
    } else {
        let more = lemma_rounds(w, next, sigma, (left - 1) as nat);
        let rounds = seq![levels] + more;
        assert forall|k: int| 0 < k < rounds.len() implies are_means(
            w,
            rounds[k - 1],
            #[trigger] rounds[k],
            sigma,
        ) by {
            if k > 1 {
                assert(rounds[k] == more[k - 1] && rounds[k - 1] == more[k - 2]);
            }
        }
        assert forall|k: int| 0 < k < rounds.len() - 1 implies !is_settled(
            w,
            rounds[k - 1],
            #[trigger] rounds[k],
        ) by {
            if k > 1 {
                assert(rounds[k] == more[k - 1] && rounds[k - 1] == more[k - 2]);
            }
        }
        assert(rounds.last() == more.last());
        assert(rounds[rounds.len() - 2] == more[more.len() - 2]);
        rounds
    }
}

/// The levels for rows of `d` components come of rounds of moving levels to the means of
/// their cells, which start with levels at equal distances and end when the levels have
/// settled. A component has the deviation of one over the square root of `d`.
pub proof fn levels_settle_at_the_means_of_their_cells(w: WideCalc, d: usize) -> (rounds: Seq<
    Seq<u64>,
>)
    ensures
        ({
            let sigma = w(WideOp::Div, ONE, w(WideOp::Sqrt, w(WideOp::Int, d as u64, 0), 0));
            &&& are_evenly_spread(w, sigma, rounds[0])
            &&& leads_to_settled(w, sigma, rounds)
            &&& codebook::levels_of(w, d) == rounds.last()
        }),
{
    let sigma = codebook::sigma_of(w, d);
    lemma_rounds(w, codebook::first_levels(w, sigma), sigma, 80)
}

/// A codebook's numbers are the levels as 32-bit numbers, and its boundaries stand in the
/// middle between neighbouring numbers.
pub proof fn boundaries_stand_between_the_levels(m: Calc, w: WideCalc, d: usize, i: int)
    requires
        0 <= i < 16,
    ensures
        ({
            let c = codebook::codebook_of(m, w, d);
            let narrow = w(WideOp::Narrow, codebook::levels_of(w, d)[i], 0);
            &&& c.centroids.len() == 16 && c.boundaries.len() == 15
            &&& narrow <= u32::MAX ==> c.centroids[i] == narrow
            &&& i < 15 ==> c.boundaries[i] == m(
                Op::Mul,
                m(Op::Add, c.centroids[i], c.centroids[i + 1]),
                HALF_BITS,
            )
        }),
{
    codebook::codebook_has_every_level(m, w, d);
    let rounds = levels_settle_at_the_means_of_their_cells(w, d);
    assert(rounds.last() == rounds[rounds.len() - 1]);
}

/// The distribution and the density of a normal number: the distribution is half of one
/// more than the error function over the root of two, and the density falls with the
/// exponential of half the square.
pub proof fn normal_numbers_are_distributed_by_the_error_function(w: WideCalc, z: u64)
    ensures
        codebook::cdf_of(w, z) == w(
            WideOp::Mul,
            HALF,
            w(WideOp::Add, ONE, codebook::erf_of(w, w(WideOp::Div, z, ROOT_TWO))),
        ),
        codebook::pdf_of(w, z) == w(
            WideOp::Div,
            w(WideOp::Exp, w(WideOp::Mul, w(WideOp::Mul, NEG_HALF, z), z), 0),
            w(WideOp::Sqrt, w(WideOp::Mul, TWO, PI), 0),
        ),
{
}

/// The error function is odd: it takes a number and its opposite to plus and minus one
/// and the same amount.
pub proof fn error_function_is_odd(w: WideCalc, x: u64) -> (amount: u64)
    requires
        wide::less(0, x),
    ensures
        codebook::erf_of(w, x) == w(WideOp::Mul, ONE, amount),
        codebook::erf_of(w, wide::opposite(x)) == w(WideOp::Mul, NEG_ONE, amount),
        ({
            let t = w(
                WideOp::Div,
                ONE,
                w(WideOp::Add, ONE, w(WideOp::Mul, codebook::ERF_P, x)),
            );
            let p4 = w(WideOp::Add, w(WideOp::Mul, codebook::ERF_A5, t), codebook::ERF_A4);
            let p3 = w(WideOp::Add, w(WideOp::Mul, p4, t), codebook::ERF_A3);
            let p2 = w(WideOp::Add, w(WideOp::Mul, p3, t), codebook::ERF_A2);
            let p1 = w(WideOp::Add, w(WideOp::Mul, p2, t), codebook::ERF_A1);
            let bell = w(WideOp::Exp, w(WideOp::Mul, wide::opposite(x), x), 0);
            amount == w(WideOp::Sub, ONE, w(WideOp::Mul, w(WideOp::Mul, p1, t), bell))
        }),
{
    let ax = wide::absolute(x);
    assert(ax == x);
    assert(wide::absolute(wide::opposite(x)) == x);
    let t = w(WideOp::Div, ONE, w(WideOp::Add, ONE, w(WideOp::Mul, codebook::ERF_P, x)));
    let p4 = w(WideOp::Add, w(WideOp::Mul, codebook::ERF_A5, t), codebook::ERF_A4);
    let p3 = w(WideOp::Add, w(WideOp::Mul, p4, t), codebook::ERF_A3);
    let p2 = w(WideOp::Add, w(WideOp::Mul, p3, t), codebook::ERF_A2);
    let p1 = w(WideOp::Add, w(WideOp::Mul, p2, t), codebook::ERF_A1);
    let bell = w(WideOp::Exp, w(WideOp::Mul, wide::opposite(x), x), 0);
    w(WideOp::Sub, ONE, w(WideOp::Mul, w(WideOp::Mul, p1, t), bell))
}

} // verus!
