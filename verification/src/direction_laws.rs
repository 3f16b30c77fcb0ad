//! Codes keep the direction of a row and leave its length to the stored number: rows of
//! twice the length have the same codes.

use vstd::prelude::*;

use crate::arith;
use crate::arith::{Calc, Op};
use crate::direction_sizes;
use crate::doubling_laws;
use crate::floatbits;
use crate::floatbits::{ONE_BITS, TINY_BITS};
use crate::ieee;
use crate::rotation;
use crate::rounding;
use crate::turboquant;
use crate::turboquant::{Calibration, Levels};
use crate::wide::WideCalc;

verus! {

/// A row of twice the length.
pub open spec fn doubled_row(row: Seq<u32>) -> Seq<u32> {
    row.map_values(|x: u32| doubling_laws::twice(x))
}

/// Whether the length of a row is computed without coming near the ends of the range: so
/// are the components and their squares, the sums of these, the length, and what the row
/// is multiplied by to have unit length. A row without length has the length zero.
pub open spec fn steady(m: Calc, row: Seq<u32>) -> bool {
    let norm = rotation::norm_of(m, row);
    &&& forall|i: int|
        0 <= i < row.len() ==> {
            let square = m(Op::Mul, #[trigger] row[i], row[i]);
            doubling_laws::is_zero(row[i]) && doubling_laws::is_zero(square)
                || doubling_laws::mild(row[i]) && doubling_laws::mild(square)
        }
    &&& forall|j: int|
        0 <= j <= row.len() ==> {
            let sum = #[trigger] arith::total(m, 0, rotation::squares(m, row).take(j));
            doubling_laws::is_zero(sum) || doubling_laws::mild(sum)
        }
    &&& !floatbits::is_negative(arith::total(m, 0, rotation::squares(m, row)))
    &&& doubling_laws::is_zero(norm) || doubling_laws::mild(norm)
        && floatbits::less(TINY_BITS, norm) && doubling_laws::mild(
        m(Op::Div, ONE_BITS, doubling_laws::twice(norm)),
    )
}

proof fn lemma_square(m: Calc, x: u32)
    requires
        doubling_laws::doubling_is_exact(m),
        doubling_laws::is_zero(x) && doubling_laws::is_zero(m(Op::Mul, x, x))
            || doubling_laws::mild(x) && doubling_laws::mild(m(Op::Mul, x, x)),
    ensures
        m(Op::Mul, doubling_laws::twice(x), doubling_laws::twice(x))
            == doubling_laws::twice(doubling_laws::twice(m(Op::Mul, x, x))),
{
    let once = m(Op::Mul, doubling_laws::twice(x), x);
    assert(once == doubling_laws::twice(m(Op::Mul, x, x)));
    assert(m(Op::Mul, x, doubling_laws::twice(x)) == once);
    assert(doubling_laws::doubles(doubling_laws::twice(x)));
    assert(doubling_laws::is_zero(x) || doubling_laws::roomy(once));
    assert(m(Op::Mul, doubling_laws::twice(x), doubling_laws::twice(x))
        == doubling_laws::twice(m(Op::Mul, x, doubling_laws::twice(x))));
}

proof fn lemma_sum(m: Calc, terms: Seq<u32>, larger: Seq<u32>)
    requires
        doubling_laws::doubling_is_exact(m),
        larger.len() == terms.len(),
        forall|i: int| 0 <= i < terms.len()
            ==> #[trigger] larger[i] == doubling_laws::twice(doubling_laws::twice(terms[i])),
        forall|i: int|
            0 <= i < terms.len()
                ==> doubling_laws::is_zero(#[trigger] terms[i]) || doubling_laws::mild(terms[i]),
        forall|j: int|
            0 <= j <= terms.len() ==> {
                let sum = #[trigger] arith::total(m, 0, terms.take(j));
                doubling_laws::is_zero(sum) || doubling_laws::mild(sum)
            },
    ensures
        arith::total(m, 0, larger)
            == doubling_laws::twice(doubling_laws::twice(arith::total(m, 0, terms))),
    decreases terms.len(),
{
    if terms.len() > 0 {
        let n = terms.len() as int;
        let before = terms.drop_last();
        assert(before =~= terms.take(n - 1));
        assert(terms =~= terms.take(n));
        assert forall|j: int| 0 <= j <= before.len() implies ({
            let sum = #[trigger] arith::total(m, 0, before.take(j));
            doubling_laws::is_zero(sum) || doubling_laws::mild(sum)
        }) by {
            assert(before.take(j) =~= terms.take(j));
        }
        lemma_sum(m, before, larger.drop_last());
        let (s, t) = (arith::total(m, 0, before), terms.last());
        assert(arith::total(m, 0, terms.take(n)) == m(Op::Add, s, t));
        assert(m(Op::Add, doubling_laws::twice(s), doubling_laws::twice(t))
            == doubling_laws::twice(m(Op::Add, s, t)));
        assert(m(Op::Add, doubling_laws::twice(doubling_laws::twice(s)),
            doubling_laws::twice(doubling_laws::twice(t))) == doubling_laws::twice(
            m(Op::Add, doubling_laws::twice(s), doubling_laws::twice(t)),
        ));
    }
}

/// A row of twice the length has twice the length, and the same direction.
proof fn lemma_doubled_row(m: Calc, row: Seq<u32>, padded: nat, signs: Seq<u32>)
    requires
        doubling_laws::doubling_is_exact(m),
        steady(m, row),
    ensures
        rotation::norm_of(m, doubled_row(row)) == doubling_laws::twice(rotation::norm_of(m, row)),
        rotation::rotated(m, doubled_row(row), padded, signs) == rotation::rotated(
            m,
            row,
            padded,
            signs,
        ),
{
    let larger = doubled_row(row);
    let terms = rotation::squares(m, row);
    let larger_terms = rotation::squares(m, larger);
    assert forall|i: int| 0 <= i < terms.len() implies #[trigger] larger_terms[i]
        == doubling_laws::twice(
        doubling_laws::twice(terms[i]),
    ) && (doubling_laws::is_zero(terms[i]) || doubling_laws::mild(terms[i])) by {
        assert(doubling_laws::is_zero(row[i]) || doubling_laws::mild(row[i]));
        lemma_square(m, row[i]);
    }
    lemma_sum(m, terms, larger_terms);
    let norm_sq = arith::total(m, 0, terms);
    assert(terms.take(terms.len() as int) =~= terms);
    assert(doubling_laws::is_zero(norm_sq) || doubling_laws::mild(norm_sq));
    let norm = rotation::norm_of(m, row);
    assert(rotation::norm_of(m, larger) == doubling_laws::twice(norm));
    let unit = rotation::to_unit(m, norm);
    let larger_unit = rotation::to_unit(m, doubling_laws::twice(norm));
    assert forall|i: int| 0 <= i < row.len() implies m(Op::Mul, #[trigger] larger[i], larger_unit)
        == m(Op::Mul, row[i], unit) by {
        assert(doubling_laws::is_zero(row[i]) || doubling_laws::mild(row[i]));
        if doubling_laws::is_zero(norm) {
            assert(m(Op::Mul, doubling_laws::twice(row[i]), 0)
                == m(Op::Mul, row[i], doubling_laws::twice(0)));
        } else {
            assert(unit == doubling_laws::twice(larger_unit));
            assert(m(Op::Mul, doubling_laws::twice(row[i]), larger_unit) == m(
                Op::Mul,
                row[i],
                doubling_laws::twice(larger_unit),
            ));
        }
    }
    assert(rotation::flipped(m, larger, padded, signs) =~= rotation::flipped(
        m,
        row,
        padded,
        signs,
    ));
}

/// Whether the corrected length of a row is computed without coming near the ends of the
/// range.
pub open spec fn steady_length(
    m: Calc,
    u: Seq<u32>,
    norm: u32,
    t: Calibration,
    c: Levels,
) -> bool {
    let overlap = arith::total(m, 0, turboquant::overlaps(m, u, t, c));
    floatbits::less(TINY_BITS, floatbits::absolute(overlap))
        ==> doubling_laws::roomy(overlap) && (doubling_laws::is_zero(norm)
        || doubling_laws::roomy(m(Op::Div, norm, overlap)))
}

/// Codes of rows of twice the length, where doubling is exact and no result on the way comes
/// near the ends of the range of full precision.
proof fn lemma_doubled_codes(
    m: Calc,
    w: WideCalc,
    n: nat,
    dim: nat,
    flat: Seq<u32>,
    c: Levels,
)
    requires
        doubling_laws::doubling_is_exact(m),
        flat.len() == n * dim,
        forall|i: int| 0 <= i < n ==> steady(m, #[trigger] turboquant::row_at(flat, dim, i)),
        forall|i: int|
            0 <= i < n ==> steady_length(
                m,
                turboquant::rotated_rows(m, flat, n, dim)[i],
                rotation::norm_of(m, #[trigger] turboquant::row_at(flat, dim, i)),
                turboquant::encoded(m, w, n, dim, flat, c).tqplus,
                c,
            ),
    ensures
        ({
            let a = turboquant::encoded(m, w, n, dim, flat, c);
            let b = turboquant::encoded(m, w, n, dim, doubled_row(flat), c);
            &&& b.packed == a.packed
            &&& b.tqplus == a.tqplus
            &&& b.renorm == doubled_row(a.renorm)
        }),
{
    let larger = doubled_row(flat);
    let padded = turboquant::padded_of(dim);
    let signs = rotation::signs_of(padded as usize);
    let rows = turboquant::rotated_rows(m, flat, n, dim);
    let a = turboquant::encoded(m, w, n, dim, flat, c);
    let b = turboquant::encoded(m, w, n, dim, larger, c);
    assert forall|i: int| 0 <= i < n implies turboquant::row_at(larger, dim, i) == doubled_row(
        #[trigger] turboquant::row_at(flat, dim, i),
    ) by {
        turboquant::lemma_row_range(n as int, dim as int, i);
        assert(turboquant::row_at(larger, dim, i) =~= doubled_row(
            turboquant::row_at(flat, dim, i),
        ));
    }
    assert(turboquant::rotated_rows(m, larger, n, dim) =~= rows) by {
        assert forall|i: int| 0 <= i < n implies #[trigger] turboquant::rotated_rows(
            m,
            larger,
            n,
            dim,
        )[i] == rows[i] by {
            lemma_doubled_row(m, turboquant::row_at(flat, dim, i), padded, signs);
        }
    }
    assert(b.renorm =~= doubled_row(a.renorm)) by {
        assert forall|i: int| 0 <= i < n implies #[trigger] b.renorm[i]
            == doubling_laws::twice(a.renorm[i]) by {
            let row = turboquant::row_at(flat, dim, i);
            lemma_doubled_row(m, row, padded, signs);
            let norm = rotation::norm_of(m, row);
            let overlap = arith::total(m, 0, turboquant::overlaps(m, rows[i], a.tqplus, c));
            assert(steady_length(m, rows[i], norm, a.tqplus, c));
            if floatbits::less(TINY_BITS, floatbits::absolute(overlap)) {
                assert(m(Op::Div, doubling_laws::twice(norm), overlap)
                    == doubling_laws::twice(m(Op::Div, norm, overlap)));
            }
        }
    }
}

/// Codes depend on the direction of rows only: in IEEE arithmetic, rows of twice the length
/// give the same codes, shifts and scales, and twice the stored lengths. (Every component
/// is zero, or of a size between a ten-thousand-millionth and a thousand million millions,
/// rows have no more than 8192 of them, and no level is larger than 1024.)
pub proof fn codes_depend_on_direction_only(
    m: Calc,
    w: WideCalc,
    n: nat,
    dim: nat,
    flat: Seq<u32>,
    c: Levels,
)
    requires
        ieee::is_ieee(m),
        dim <= 8192,
        flat.len() == n * dim,
        forall|k: int| 0 <= k < flat.len() ==> direction_sizes::moderate(#[trigger] flat[k]),
        turboquant::covers_levels(c),
        rounding::small(0x400 * ieee::one(), c.centroids),
    ensures
        ({
            let a = turboquant::encoded(m, w, n, dim, flat, c);
            let b = turboquant::encoded(m, w, n, dim, doubled_row(flat), c);
            &&& b.packed == a.packed
            &&& b.tqplus == a.tqplus
            &&& b.renorm == doubled_row(a.renorm)
            &&& forall|k: int|
                0 <= k < flat.len() ==> ieee::value(#[trigger] doubled_row(flat)[k]) == 2
                    * ieee::value(flat[k])
            &&& forall|i: int|
                0 <= i < n ==> ieee::value(#[trigger] b.renorm[i]) == 2 * ieee::value(a.renorm[i])
        }),
{
    doubling_laws::ieee_doubling_is_exact(m);
    let a = turboquant::encoded(m, w, n, dim, flat, c);
    let b = turboquant::encoded(m, w, n, dim, doubled_row(flat), c);
    assert forall|i: int| 0 <= i < n implies steady(m, #[trigger] turboquant::row_at(flat, dim, i))
        && steady_length(
        m,
        turboquant::rotated_rows(m, flat, n, dim)[i],
        rotation::norm_of(m, turboquant::row_at(flat, dim, i)),
        turboquant::encoded(m, w, n, dim, flat, c).tqplus,
        c,
    ) by {
        direction_sizes::lemma_coded_steadily(m, w, n, dim, flat, c, i);
    }
    lemma_doubled_codes(m, w, n, dim, flat, c);
    assert forall|k: int| 0 <= k < flat.len() implies ieee::value(
        #[trigger] doubled_row(flat)[k],
    ) == 2 * ieee::value(flat[k]) by {
        direction_sizes::lemma_moderate(flat[k]);
        doubling_laws::lemma_twice(flat[k]);
    }
    assert forall|i: int| 0 <= i < n implies ieee::value(#[trigger] b.renorm[i]) == 2
        * ieee::value(a.renorm[i]) by {
        let row = turboquant::row_at(flat, dim, i);
        let norm = rotation::norm_of(m, row);
        let u = turboquant::rotated_rows(m, flat, n, dim)[i];
        let overlap = arith::total(m, 0, turboquant::overlaps(m, u, a.tqplus, c));
        let r = m(Op::Div, norm, overlap);
        assert(steady(m, row) && steady_length(m, u, norm, a.tqplus, c));
        if floatbits::less(TINY_BITS, floatbits::absolute(overlap)) {
            doubling_laws::lemma_double_quotient(m, norm, overlap);
            assert(a.renorm[i] == r);
        }
        assert(doubling_laws::doubles(a.renorm[i]));
        doubling_laws::lemma_twice(a.renorm[i]);
        assert(b.renorm[i] == doubling_laws::twice(a.renorm[i]));
    }
}

} // verus!
