//! The levels that rotated components are coded by, and the quantiles that they are
//! calibrated at. Both follow from the normal distribution that the components of a
//! rotated unit vector come near to.

use vstd::prelude::*;

use crate::arith;
use crate::arith::{plus, times, Calc, Op};
use crate::turboquant::{Codebook, Levels, N_LEVELS};
use crate::wide;
use crate::wide::{abs, lt, neg, perform, WideCalc, WideOp};

verus! {

/// Pattern of `0.5` as a 32-bit number.
pub const HALF_BITS: u32 = 0x3f00_0000;

/// Pattern of `1.0`.
pub const ONE: u64 = 0x3ff0_0000_0000_0000;

/// Pattern of `-1.0`.
pub const NEG_ONE: u64 = 0xbff0_0000_0000_0000;

/// Pattern of `2.0`.
pub const TWO: u64 = 0x4000_0000_0000_0000;

/// Pattern of `3.0`.
pub const THREE: u64 = 0x4008_0000_0000_0000;

/// Pattern of `0.5`.
pub const HALF: u64 = 0x3fe0_0000_0000_0000;

/// Pattern of `-0.5`.
pub const NEG_HALF: u64 = 0xbfe0_0000_0000_0000;

/// Pattern of pi.
pub const PI: u64 = 0x4009_21fb_5444_2d18;

/// Pattern of the root of two.
pub const ROOT_TWO: u64 = 0x3ff6_a09e_667f_3bcd;

/// Pattern of `0.999`, the highest quantile that components are calibrated at.
pub const TOP_QUANTILE: u64 = 0x3fef_f7ce_d916_872b;

/// Pattern of `1e-8`, the change of the levels below which they are done.
pub const SETTLED: u64 = 0x3e45_798e_e230_8c3a;

/// Pattern of `1e-15`, the probability below which a cell counts as empty.
pub const EMPTY_CELL: u64 = 0x3cd2_03af_9ee7_5616;

/// How often the levels are refined at most.
pub const MAX_ROUNDS: usize = 80;

// Patterns of the constants of the error function, after Abramowitz and Stegun 7.1.26.

/// Pattern of `0.3275911`.
pub const ERF_P: u64 = 0x3fd4_f740_a93d_7b8c;

/// Pattern of `0.254829592`.
pub const ERF_A1: u64 = 0x3fd0_4f20_c6ec_5a7e;

/// Pattern of `-0.284496736`.
pub const ERF_A2: u64 = 0xbfd2_3531_cc3c_1469;

/// Pattern of `1.421413741`.
pub const ERF_A3: u64 = 0x3ff6_be1c_55ba_e157;

/// Pattern of `-1.453152027`.
pub const ERF_A4: u64 = 0xbff7_401c_5701_4c39;

/// Pattern of `1.061405429`.
pub const ERF_A5: u64 = 0x3ff0_fb84_4255_a12d;

// ---------------------------------------------------------------------------
// The normal distribution
// ---------------------------------------------------------------------------

/// The error function, by a polynomial.
pub open spec fn erf_of(w: WideCalc, x: u64) -> u64 {
    let sign = if wide::less(x, 0) {
        NEG_ONE
    } else {
        ONE
    };
    let ax = wide::absolute(x);
    let t = w(WideOp::Div, ONE, w(WideOp::Add, ONE, w(WideOp::Mul, ERF_P, ax)));
    let p4 = w(WideOp::Add, w(WideOp::Mul, ERF_A5, t), ERF_A4);
    let p3 = w(WideOp::Add, w(WideOp::Mul, p4, t), ERF_A3);
    let p2 = w(WideOp::Add, w(WideOp::Mul, p3, t), ERF_A2);
    let p1 = w(WideOp::Add, w(WideOp::Mul, p2, t), ERF_A1);
    let bell = w(WideOp::Exp, w(WideOp::Mul, wide::opposite(ax), ax), 0);
    w(
        WideOp::Mul,
        sign,
        w(WideOp::Sub, ONE, w(WideOp::Mul, w(WideOp::Mul, p1, t), bell)),
    )
}

/// The probability of a standard normal number to be at most `z`.
pub open spec fn cdf_of(w: WideCalc, z: u64) -> u64 {
    w(WideOp::Mul, HALF, w(WideOp::Add, ONE, erf_of(w, w(WideOp::Div, z, ROOT_TWO))))
}

/// The density of a standard normal number.
pub open spec fn pdf_of(w: WideCalc, z: u64) -> u64 {
    w(
        WideOp::Div,
        w(WideOp::Exp, w(WideOp::Mul, w(WideOp::Mul, NEG_HALF, z), z), 0),
        w(WideOp::Sqrt, w(WideOp::Mul, TWO, PI), 0),
    )
}

/// The mean of a normal number of deviation `sigma` that lies between two bounds; the
/// middle of the bounds where it hardly ever does.
pub open spec fn cond_mean_of(w: WideCalc, lo: u64, hi: u64, sigma: u64) -> u64 {
    let a = w(WideOp::Div, lo, sigma);
    let b = w(WideOp::Div, hi, sigma);
    let z = w(WideOp::Sub, cdf_of(w, b), cdf_of(w, a));
    if wide::less(z, EMPTY_CELL) {
        w(WideOp::Mul, w(WideOp::Add, lo, hi), HALF)
    } else {
        w(
            WideOp::Div,
            w(WideOp::Mul, sigma, w(WideOp::Sub, pdf_of(w, a), pdf_of(w, b))),
            z,
        )
    }
}

/// The deviation of a component of a unit vector of `d` components.
pub open spec fn sigma_of(w: WideCalc, d: usize) -> u64 {
    w(WideOp::Div, ONE, w(WideOp::Sqrt, w(WideOp::Int, d as u64, 0), 0))
}

/// The error function.
pub fn erf<W: Fn(WideOp, u64, u64) -> u64>(wide: &W, x: u64) -> (r: u64)
    requires
        wide::is_arithmetic(*wide),
    ensures
        r == erf_of(wide::calc(*wide), x),
{
    let sign: u64 = if lt(x, 0) {
        NEG_ONE
    } else {
        ONE
    };
    let ax: u64 = abs(x);
    let t: u64 = perform(
        wide,
        WideOp::Div,
        ONE,
        perform(wide, WideOp::Add, ONE, perform(wide, WideOp::Mul, ERF_P, ax)),
    );
    let p4: u64 = perform(wide, WideOp::Add, perform(wide, WideOp::Mul, ERF_A5, t), ERF_A4);
    let p3: u64 = perform(wide, WideOp::Add, perform(wide, WideOp::Mul, p4, t), ERF_A3);
    let p2: u64 = perform(wide, WideOp::Add, perform(wide, WideOp::Mul, p3, t), ERF_A2);
    let p1: u64 = perform(wide, WideOp::Add, perform(wide, WideOp::Mul, p2, t), ERF_A1);
    let bell: u64 = perform(wide, WideOp::Exp, perform(wide, WideOp::Mul, neg(ax), ax), 0);
    let tail: u64 = perform(wide, WideOp::Mul, perform(wide, WideOp::Mul, p1, t), bell);
    perform(wide, WideOp::Mul, sign, perform(wide, WideOp::Sub, ONE, tail))
}

/// The probability of a standard normal number to be at most `z`.
pub fn norm_cdf<W: Fn(WideOp, u64, u64) -> u64>(wide: &W, z: u64) -> (r: u64)
    requires
        wide::is_arithmetic(*wide),
    ensures
        r == cdf_of(wide::calc(*wide), z),
{
    let e: u64 = erf(wide, perform(wide, WideOp::Div, z, ROOT_TWO));
    perform(wide, WideOp::Mul, HALF, perform(wide, WideOp::Add, ONE, e))
}

/// The density of a standard normal number.
pub fn norm_pdf<W: Fn(WideOp, u64, u64) -> u64>(wide: &W, z: u64) -> (r: u64)
    requires
        wide::is_arithmetic(*wide),
    ensures
        r == pdf_of(wide::calc(*wide), z),
{
    let power: u64 = perform(wide, WideOp::Mul, perform(wide, WideOp::Mul, NEG_HALF, z), z);
    let bell: u64 = perform(wide, WideOp::Exp, power, 0);
    let area: u64 = perform(wide, WideOp::Sqrt, perform(wide, WideOp::Mul, TWO, PI), 0);
    perform(wide, WideOp::Div, bell, area)
}

/// The mean of a normal number that lies between two bounds.
pub fn gauss_cond_mean<W: Fn(WideOp, u64, u64) -> u64>(
    wide: &W,
    lo: u64,
    hi: u64,
    sigma: u64,
) -> (r: u64)
    requires
        wide::is_arithmetic(*wide),
    ensures
        r == cond_mean_of(wide::calc(*wide), lo, hi, sigma),
{
    let a: u64 = perform(wide, WideOp::Div, lo, sigma);
    let b: u64 = perform(wide, WideOp::Div, hi, sigma);
    let z: u64 = perform(wide, WideOp::Sub, norm_cdf(wide, b), norm_cdf(wide, a));
    if lt(z, EMPTY_CELL) {
        return perform(wide, WideOp::Mul, perform(wide, WideOp::Add, lo, hi), HALF);
    }
    let gap: u64 = perform(wide, WideOp::Sub, norm_pdf(wide, a), norm_pdf(wide, b));
    perform(wide, WideOp::Div, perform(wide, WideOp::Mul, sigma, gap), z)
}

fn deviation<W: Fn(WideOp, u64, u64) -> u64>(wide: &W, d: usize) -> (r: u64)
    requires
        wide::is_arithmetic(*wide),
    ensures
        r == sigma_of(wide::calc(*wide), d),
{
    let root: u64 = perform(
        wide,
        WideOp::Sqrt,
        perform(wide, WideOp::Int, d as u64, 0),
        0,
    );
    perform(wide, WideOp::Div, ONE, root)
}

// ---------------------------------------------------------------------------
// Levels
// ---------------------------------------------------------------------------

/// How far the first levels reach to either side: three deviations, but not beyond one.
pub open spec fn spread_of(w: WideCalc, sigma: u64) -> u64 {
    let reach = w(WideOp::Mul, THREE, sigma);
    if wide::less(reach, ONE) {
        reach
    } else {
        ONE
    }
}

/// Levels at equal distances over the spread.
pub open spec fn first_levels(w: WideCalc, sigma: u64) -> Seq<u64> {
    let spread = spread_of(w, sigma);
    Seq::new(
        N_LEVELS as nat,
        |i: int|
            w(
                WideOp::Add,
                wide::opposite(spread),
                w(
                    WideOp::Div,
                    w(WideOp::Mul, w(WideOp::Mul, TWO, spread), w(WideOp::Int, i as u64, 0)),
                    w(WideOp::Sub, w(WideOp::Int, N_LEVELS as u64, 0), ONE),
                ),
            ),
    )
}

/// The lower bound of the cell of level `i`: the middle between the level and the one
/// before. The first cell starts at minus one, and the last ends at one.
pub open spec fn edge_of(w: WideCalc, levels: Seq<u64>, i: int) -> u64 {
    if i <= 0 {
        NEG_ONE
    } else if i >= N_LEVELS {
        ONE
    } else {
        w(WideOp::Mul, w(WideOp::Add, levels[i - 1], levels[i]), HALF)
    }
}

/// Each level moved to the mean of its cell.
pub open spec fn centred_levels(w: WideCalc, levels: Seq<u64>, sigma: u64) -> Seq<u64> {
    Seq::new(
        N_LEVELS as nat,
        |i: int| cond_mean_of(w, edge_of(w, levels, i), edge_of(w, levels, i + 1), sigma),
    )
}

/// The largest change of the first `n` levels.
pub open spec fn change_of(w: WideCalc, from: Seq<u64>, to: Seq<u64>, n: nat) -> u64
    decreases n,
{
    if n == 0 {
        0
    } else {
        let before = change_of(w, from, to, (n - 1) as nat);
        let x = wide::absolute(w(WideOp::Sub, to[n - 1], from[n - 1]));
        if wide::less(before, x) {
            x
        } else {
            before
        }
    }
}

/// Levels after at most `rounds` more rounds of moving each to the mean of its cell.
/// The round in which no level moves far is the last.
pub open spec fn refined_levels(
    w: WideCalc,
    levels: Seq<u64>,
    sigma: u64,
    rounds: nat,
) -> Seq<u64>
    decreases rounds,
{
    if rounds == 0 {
        levels
    } else {
        let next = centred_levels(w, levels, sigma);
        if wide::less(change_of(w, levels, next, N_LEVELS as nat), SETTLED) {
            next
        } else {
            refined_levels(w, next, sigma, (rounds - 1) as nat)
        }
    }
}

/// The levels for components of a unit vector of `d` components.
pub open spec fn levels_of(w: WideCalc, d: usize) -> Seq<u64> {
    let sigma = sigma_of(w, d);
    refined_levels(w, first_levels(w, sigma), sigma, MAX_ROUNDS as nat)
}

/// A 64-bit number as a 32-bit number.
pub open spec fn narrowed(w: WideCalc, x: u64) -> u32 {
    #[verifier::truncate]
    (w(WideOp::Narrow, x, 0) as u32)
}

/// The codebook for rotated rows of `d` components: the levels as 32-bit numbers, and
/// the middles between them.
pub open spec fn codebook_of(m: Calc, w: WideCalc, d: usize) -> Levels {
    let centroids = levels_of(w, d).map_values(|x: u64| narrowed(w, x));
    Levels {
        boundaries: Seq::new(
            (N_LEVELS - 1) as nat,
            |i: int| m(Op::Mul, m(Op::Add, centroids[i], centroids[i + 1]), HALF_BITS),
        ),
        centroids,
    }
}

/// The codebook for each row length.
pub open spec fn books(m: Calc, w: WideCalc) -> spec_fn(usize) -> Levels {
    |padded: usize| codebook_of(m, w, padded)
}

proof fn lemma_refined_len(w: WideCalc, levels: Seq<u64>, sigma: u64, rounds: nat)
    requires
        levels.len() == N_LEVELS,
    ensures
        refined_levels(w, levels, sigma, rounds).len() == N_LEVELS,
    decreases rounds,
{
    if rounds > 0 {
        lemma_refined_len(w, centred_levels(w, levels, sigma), sigma, (rounds - 1) as nat);
    }
}

/// A codebook has a number for each of sixteen levels, and a boundary between any two
/// that stand side by side.
pub proof fn codebook_has_every_level(m: Calc, w: WideCalc, d: usize)
    ensures
        codebook_of(m, w, d).centroids.len() == N_LEVELS,
        codebook_of(m, w, d).boundaries.len() == N_LEVELS - 1,
{
    let sigma = sigma_of(w, d);
    lemma_refined_len(w, first_levels(w, sigma), sigma, MAX_ROUNDS as nat);
}

fn start_levels<W: Fn(WideOp, u64, u64) -> u64>(wide: &W, sigma: u64) -> (r: Vec<u64>)
    requires
        wide::is_arithmetic(*wide),
    ensures
        r@ == first_levels(wide::calc(*wide), sigma),
{
    let ghost w = wide::calc(*wide);
    let reach: u64 = perform(wide, WideOp::Mul, THREE, sigma);
    let spread: u64 = if lt(reach, ONE) {
        reach
    } else {
        ONE
    };
    let steps: u64 = perform(
        wide,
        WideOp::Sub,
        perform(wide, WideOp::Int, N_LEVELS as u64, 0),
        ONE,
    );
    let mut levels: Vec<u64> = Vec::new();
    for i in 0..N_LEVELS
        invariant
            wide::is_arithmetic(*wide),
            w == wide::calc(*wide),
            spread == spread_of(w, sigma),
            steps == w(WideOp::Sub, w(WideOp::Int, N_LEVELS as u64, 0), ONE),
            levels@ == first_levels(w, sigma).take(i as int),
    {
        let width: u64 = perform(wide, WideOp::Mul, TWO, spread);
        let way: u64 = perform(
            wide,
            WideOp::Mul,
            width,
            perform(wide, WideOp::Int, i as u64, 0),
        );
        let part: u64 = perform(wide, WideOp::Div, way, steps);
        levels.push(perform(wide, WideOp::Add, neg(spread), part));
        assert(levels@ =~= first_levels(w, sigma).take(i + 1));
    }
    assert(first_levels(w, sigma).take(N_LEVELS as int) =~= first_levels(w, sigma));
    levels
}

fn edge<W: Fn(WideOp, u64, u64) -> u64>(wide: &W, levels: &Vec<u64>, i: usize) -> (r: u64)
    requires
        wide::is_arithmetic(*wide),
        levels@.len() == N_LEVELS,
    ensures
        r == edge_of(wide::calc(*wide), levels@, i as int),
{
    if i == 0 {
        NEG_ONE
    } else if i >= N_LEVELS {
        ONE
    } else {
        let sum: u64 = perform(wide, WideOp::Add, levels[i - 1], levels[i]);
        perform(wide, WideOp::Mul, sum, HALF)
    }
}

/// One round of refining levels; gives the largest change too.
fn centre_levels<W: Fn(WideOp, u64, u64) -> u64>(wide: &W, levels: &Vec<u64>, sigma: u64) -> (r: (
    Vec<u64>,
    u64,
))
    requires
        wide::is_arithmetic(*wide),
        levels@.len() == N_LEVELS,
    ensures
        r.0@ == centred_levels(wide::calc(*wide), levels@, sigma),
        r.1 == change_of(wide::calc(*wide), levels@, r.0@, N_LEVELS as nat),
{
    let ghost w = wide::calc(*wide);
    let ghost goal = centred_levels(w, levels@, sigma);
    let mut next: Vec<u64> = Vec::new();
    let mut max_change: u64 = 0;
    for i in 0..N_LEVELS
        invariant
            wide::is_arithmetic(*wide),
            w == wide::calc(*wide),
            levels@.len() == N_LEVELS,
            goal == centred_levels(w, levels@, sigma),
            next@ == goal.take(i as int),
            max_change == change_of(w, levels@, goal, i as nat),
    {
        let lo: u64 = edge(wide, levels, i);
        let hi: u64 = edge(wide, levels, i + 1);
        let mean: u64 = gauss_cond_mean(wide, lo, hi, sigma);
        let moved: u64 = abs(perform(wide, WideOp::Sub, mean, levels[i]));
        if lt(max_change, moved) {
            max_change = moved;
        }
        next.push(mean);
        assert(next@ =~= goal.take(i + 1));
    }
    assert(goal.take(N_LEVELS as int) =~= goal);
    (next, max_change)
}

/// The codebook for rotated rows of `d` components, by Lloyd and Max: for a normal
/// distribution of variance `1 / d`, cut off at one.
pub fn lloyd_max_gaussian<A: Fn(Op, u32, u32) -> u32, W: Fn(WideOp, u64, u64) -> u64>(
    arith: &A,
    wide: &W,
    d: usize,
) -> (r: Codebook)
    requires
        arith::is_arithmetic(*arith),
        wide::is_arithmetic(*wide),
    ensures
        r@ == codebook_of(arith::calc(*arith), wide::calc(*wide), d),
{
    let ghost m = arith::calc(*arith);
    let ghost w = wide::calc(*wide);
    let sigma: u64 = deviation(wide, d);
    let mut levels: Vec<u64> = start_levels(wide, sigma);
    let mut left: usize = MAX_ROUNDS;
    while left > 0
        invariant
            wide::is_arithmetic(*wide),
            w == wide::calc(*wide),
            levels@.len() == N_LEVELS,
            refined_levels(w, levels@, sigma, left as nat) == levels_of(w, d),
        decreases left,
    {
        let (next, max_change) = centre_levels(wide, &levels, sigma);
        levels = next;
        left = if lt(max_change, SETTLED) {
            0
        } else {
            left - 1
        };
    }
    let ghost centroids_goal = levels@.map_values(|x: u64| narrowed(w, x));
    let mut centroids: Vec<u32> = Vec::new();
    for i in 0..N_LEVELS
        invariant
            wide::is_arithmetic(*wide),
            w == wide::calc(*wide),
            levels@.len() == N_LEVELS,
            centroids_goal == levels@.map_values(|x: u64| narrowed(w, x)),
            centroids@ == centroids_goal.take(i as int),
    {
        let narrow: u64 = perform(wide, WideOp::Narrow, levels[i], 0);
        centroids.push(
            #[verifier::truncate]
            (narrow as u32),
        );
        assert(centroids@ =~= centroids_goal.take(i + 1));
    }
    assert(centroids_goal.take(N_LEVELS as int) =~= centroids_goal);
    let mut boundaries: Vec<u32> = Vec::new();
    for i in 0..N_LEVELS - 1
        invariant
            arith::is_arithmetic(*arith),
            m == arith::calc(*arith),
            centroids@ == centroids_goal,
            centroids@.len() == N_LEVELS,
            boundaries@.len() == i,
            forall|k: int|
                0 <= k < i ==> #[trigger] boundaries@[k] == m(
                    Op::Mul,
                    m(Op::Add, centroids_goal[k], centroids_goal[k + 1]),
                    HALF_BITS,
                ),
    {
        boundaries.push(times(arith, plus(arith, centroids[i], centroids[i + 1]), HALF_BITS));
    }
    let r = Codebook { boundaries, centroids };
    assert(r@.boundaries =~= codebook_of(m, w, d).boundaries);
    r
}

/// The codebook for rotated rows of `padded` components.
pub fn codebook_for_dim<A: Fn(Op, u32, u32) -> u32, W: Fn(WideOp, u64, u64) -> u64>(
    arith: &A,
    wide: &W,
    padded: usize,
) -> (r: Codebook)
    requires
        arith::is_arithmetic(*arith),
        wide::is_arithmetic(*wide),
    ensures
        r@ == codebook_of(arith::calc(*arith), wide::calc(*wide), padded),
        r@.centroids.len() == N_LEVELS,
        r@.boundaries.len() == N_LEVELS - 1,
{
    proof {
        codebook_has_every_level(arith::calc(*arith), wide::calc(*wide), padded);
    }
    lloyd_max_gaussian(arith, wide, padded)
}

// ---------------------------------------------------------------------------
// Quantiles
// ---------------------------------------------------------------------------

/// The probability of a component not to lie above the outermost level, but at least a
/// half and at most [`TOP_QUANTILE`].
pub open spec fn upper_quantile(w: WideCalc, outer: u32, padded: usize) -> u64 {
    let p = cdf_of(
        w,
        w(WideOp::Div, w(WideOp::Widen, outer as u64, 0), sigma_of(w, padded)),
    );
    if wide::less(p, HALF) {
        HALF
    } else if wide::less(TOP_QUANTILE, p) {
        TOP_QUANTILE
    } else {
        p
    }
}

/// The position of a quantile among `count` sorted values.
pub open spec fn position_of(w: WideCalc, p: u64, count: usize) -> usize {
    let last: usize = if count == 0 {
        0
    } else {
        (count - 1) as usize
    };
    let at = w(WideOp::Round, w(WideOp::Mul, p, w(WideOp::Int, last as u64, 0)), 0);
    if at > usize::MAX {
        usize::MAX
    } else {
        at as usize
    }
}

/// The positions, among `count` sorted values, of the quantiles that calibration maps
/// to the outermost levels.
pub open spec fn positions_of(w: WideCalc, outer: u32, padded: usize, count: usize) -> (
    usize,
    usize,
) {
    let p_hi = upper_quantile(w, outer, padded);
    (position_of(w, w(WideOp::Sub, ONE, p_hi), count), position_of(w, p_hi, count))
}

fn position<W: Fn(WideOp, u64, u64) -> u64>(wide: &W, p: u64, count: usize) -> (r: usize)
    requires
        wide::is_arithmetic(*wide),
    ensures
        r == position_of(wide::calc(*wide), p, count),
{
    let last: usize = if count == 0 {
        0
    } else {
        count - 1
    };
    let place: u64 = perform(
        wide,
        WideOp::Mul,
        p,
        perform(wide, WideOp::Int, last as u64, 0),
    );
    let at: u64 = perform(wide, WideOp::Round, place, 0);
    if at > usize::MAX as u64 {
        usize::MAX
    } else {
        at as usize
    }
}

/// The positions, among `count` sorted values, of the quantiles that calibration maps
/// to the outermost levels.
pub fn quantile_positions<W: Fn(WideOp, u64, u64) -> u64>(
    wide: &W,
    outer: u32,
    padded: usize,
    count: usize,
) -> (r: (usize, usize))
    requires
        wide::is_arithmetic(*wide),
    ensures
        r == positions_of(wide::calc(*wide), outer, padded, count),
{
    let widened: u64 = perform(wide, WideOp::Widen, outer as u64, 0);
    let z: u64 = perform(wide, WideOp::Div, widened, deviation(wide, padded));
    let p: u64 = norm_cdf(wide, z);
    let p_hi: u64 = if lt(p, HALF) {
        HALF
    } else if lt(TOP_QUANTILE, p) {
        TOP_QUANTILE
    } else {
        p
    };
    let p_lo: u64 = perform(wide, WideOp::Sub, ONE, p_hi);
    (position(wide, p_lo, count), position(wide, p_hi, count))
}

} // verus!
