//! What scaling to unit length, the distances and the score come to, component by
//! component.

use vstd::prelude::*;

use crate::arith;
use crate::arith::{Calc, Op};
use crate::exact;
use crate::floatbits;
use crate::floatbits::ONE_BITS;
use crate::metric;
use crate::options::VectorDistance;
use crate::rotation;
use crate::segment_laws;
use crate::turboquant;

verus! {

/// The sum of the squares of `len` components from `from` on.
pub open spec fn squared_length(m: Calc, flat: Seq<u32>, from: int, len: nat) -> u32 {
    arith::total(m, 0, Seq::new(len, |i: int| m(Op::Mul, flat[from + i], flat[from + i])))
}

/// Scaling a row divides every component by the row's length, which is the root of the sum
/// of all squares. A row without length stays as it is.
pub proof fn unit_rows_are_divided_by_their_length(m: Calc, row: Seq<u32>, d: int)
    requires
        0 <= d < row.len(),
    ensures
        metric::unit_row(m, row).len() == row.len(),
        ({
            let sum = squared_length(m, row, 0, row.len());
            if floatbits::less(0, sum) {
                metric::unit_row(m, row)[d] == m(
                    Op::Mul,
                    row[d],
                    m(Op::Div, ONE_BITS, m(Op::Sqrt, sum, 0)),
                )
            } else {
                metric::unit_row(m, row)[d] == row[d]
            }
        }),
{
    assert(Seq::new(row.len(), |i: int| m(Op::Mul, row[0 + i], row[0 + i])) =~= rotation::squares(
        m,
        row,
    ));
}

/// Scaling all rows scales each of them by its own length, wherever it stands, and leaves
/// what does not fill a row as it is.
pub proof fn each_row_is_scaled_by_its_own_length(
    m: Calc,
    flat: Seq<u32>,
    dim: nat,
    row: int,
    d: int,
)
    requires
        0 < dim,
        0 <= row,
        row * dim + dim <= flat.len(),
        0 <= d < dim,
    ensures
        metric::normalized(m, flat, dim).len() == flat.len(),
        ({
            let at = row * dim + d;
            let sum = squared_length(m, flat, row * dim, dim);
            if floatbits::less(0, sum) {
                metric::normalized(m, flat, dim)[at] == m(
                    Op::Mul,
                    flat[at],
                    m(Op::Div, ONE_BITS, m(Op::Sqrt, sum, 0)),
                )
            } else {
                metric::normalized(m, flat, dim)[at] == flat[at]
            }
        }),
        forall|i: int|
            flat.len() - flat.len() % dim <= i < flat.len() ==> #[trigger] metric::normalized(
                m,
                flat,
                dim,
            )[i] == flat[i],
{
    let n = flat.len() / dim;
    vstd::arithmetic::div_mod::lemma_fundamental_div_mod(flat.len() as int, dim as int);
    assert(n * dim == dim * n) by (nonlinear_arith);
    assert(row < n) by (nonlinear_arith)
        requires
            row * dim + dim <= flat.len(),
            flat.len() == dim * n + flat.len() % dim,
            flat.len() % dim < dim,
            0 < dim,
    ;
    segment_laws::lemma_unit_rows(m, flat, dim, n, row);
    turboquant::lemma_row_range(n as int, dim as int, row);
    let units = metric::unit_rows(m, flat, dim, n);
    let own = turboquant::row_at(flat, dim, row);
    assert(turboquant::row_at(units, dim, row)[d] == units[row * dim + d]);
    unit_rows_are_divided_by_their_length(m, own, d);
    assert(Seq::new(dim, |i: int| m(Op::Mul, own[0 + i], own[0 + i])) =~= Seq::new(
        dim,
        |i: int| m(Op::Mul, flat[row * dim + i], flat[row * dim + i]),
    ));
}

/// Where arithmetic is exact, a row that was scaled to unit length has the length one: the
/// sum of the squares of all its components is one.
pub proof fn scaled_rows_have_unit_length(m: Calc, num: Set<u32>, row: Seq<u32>)
    requires
        exact::is_exact(m, num),
        exact::all_in(num, row),
        ({
            let sum = squared_length(m, row, 0, row.len());
            let root = m(Op::Sqrt, sum, 0);
            floatbits::less(0, sum) && num.contains(root) && m(Op::Mul, root, root) == sum
        }),
    ensures
        squared_length(m, metric::unit_row(m, row), 0, row.len()) == ONE_BITS,
{
    let n = row.len();
    let sum = squared_length(m, row, 0, n);
    let root = m(Op::Sqrt, sum, 0);
    let f = m(Op::Div, ONE_BITS, root);
    let ff = m(Op::Mul, f, f);
    let unit = metric::unit_row(m, row);
    let before = Seq::new(n, |i: int| m(Op::Mul, row[0 + i], row[0 + i]));
    let after = Seq::new(n, |i: int| m(Op::Mul, unit[0 + i], unit[0 + i]));
    exact::lemma_zero(m, num);
    assert(root != 0) by {
        if root == 0 {
            exact::lemma_mul_sub(m, num, 0, 0, 0);
            exact::lemma_closed(m, num, 0, 0);
            let zero = m(Op::Mul, 0, 0);
            exact::lemma_three(m, num, 0, 0, 0);
            exact::lemma_cancel(m, num, zero, 0, zero);
        }
    }
    exact::lemma_quotient(m, num, ONE_BITS, root);
    exact::lemma_closed(m, num, f, f);
    assert forall|i: int| 0 <= i < n implies num.contains(#[trigger] before[i]) by {
        exact::lemma_closed(m, num, row[i], row[i]);
    }
    assert forall|i: int| 0 <= i < n implies #[trigger] after[i] == m(
        Op::Mul,
        before[i],
        ff,
    ) by {
        unit_rows_are_divided_by_their_length(m, row, i);
        assert(unit[i] == m(Op::Mul, row[i], f));
        exact::lemma_mul_pairs(m, num, row[i], f, row[i], f);
    }
    exact::lemma_sum_of_multiples(m, num, before, ff, after);
    assert(arith::total(m, 0, after) == m(Op::Mul, m(Op::Mul, root, root), ff));
    exact::lemma_mul_pairs(m, num, root, root, f, f);
    exact::lemma_closed(m, num, root, f);
    exact::lemma_closed(m, num, ONE_BITS, ONE_BITS);
}

/// A distance takes in every component of both rows. In a Euclidean field it is the root
/// of the sum of the squared differences; in the other fields it is one less the sum of
/// the products, but not below zero.
pub proof fn distances_take_in_every_component(
    m: Calc,
    dist: VectorDistance,
    a: Seq<u32>,
    b: Seq<u32>,
)
    requires
        a.len() <= b.len(),
    ensures
        ({
            let gaps = Seq::new(a.len(), |i: int| m(Op::Sub, a[i], b[i]));
            let squares = arith::total(
                m,
                0,
                Seq::new(a.len(), |i: int| m(Op::Mul, gaps[i], gaps[i])),
            );
            let dot = arith::total(m, 0, Seq::new(a.len(), |i: int| m(Op::Mul, a[i], b[i])));
            let rest = m(Op::Sub, ONE_BITS, dot);
            let distance = metric::distance(m, dist.spec_metric(), a, b);
            match dist {
                VectorDistance::Euclidean => distance == m(Op::Sqrt, squares, 0),
                _ => {
                    &&& floatbits::less(0, rest) ==> distance == rest
                    &&& !floatbits::less(0, rest) ==> distance == 0
                },
            }
        }),
{
    let gaps = Seq::new(a.len(), |i: int| m(Op::Sub, a[i], b[i]));
    assert(Seq::new(a.len(), |i: int| m(Op::Mul, gaps[i], gaps[i])) =~= metric::squared_gaps(
        m,
        a,
        b,
    ));
    assert(Seq::new(a.len(), |i: int| m(Op::Mul, a[i], b[i])) =~= metric::products(m, a, b));
}

/// A score is one over one more than the distance. Where arithmetic is exact, the score
/// and one more than the distance make one together.
pub proof fn scores_are_reciprocal(m: Calc, num: Set<u32>, distance: u32)
    ensures
        metric::score_of(m, distance) == m(Op::Div, ONE_BITS, m(Op::Add, ONE_BITS, distance)),
        exact::is_exact(m, num) && num.contains(distance) && m(Op::Add, ONE_BITS, distance) != 0
            ==> m(Op::Mul, metric::score_of(m, distance), m(Op::Add, ONE_BITS, distance))
            == ONE_BITS,
{
    if exact::is_exact(m, num) && num.contains(distance) && m(Op::Add, ONE_BITS, distance) != 0 {
        exact::lemma_zero(m, num);
        exact::lemma_closed(m, num, ONE_BITS, distance);
        exact::lemma_quotient(m, num, ONE_BITS, m(Op::Add, ONE_BITS, distance));
    }
}

} // verus!
