//! What a bit row holds: which components its bits mark, and which means its two numbers
//! are.

use vstd::prelude::*;

use crate::arith;
use crate::arith::{Calc, Op};
use crate::bbq;
use crate::bbq_laws;
use crate::exact;
use crate::floatbits;
use crate::floatbits::ONE_BITS;
use crate::hits;

verus! {

/// Each component of the centroid is the sum of that component over all rows, divided by
/// their number: where arithmetic is exact, it makes the sum when it is multiplied by the
/// number of rows. Without rows it is zero.
pub proof fn centroid_is_the_mean_of_all_rows(
    m: Calc,
    num: Set<u32>,
    flat: Seq<u32>,
    dim: nat,
    n: nat,
    d: int,
)
    requires
        0 <= d < dim,
        n <= u32::MAX,
    ensures
        ({
            let centroid = bbq::centroid_of(m, flat, dim, n);
            let components = Seq::new(n, |row: int| flat[row * dim + d]);
            let number = m(Op::Int, n as u32, 0);
            &&& centroid.len() == dim
            &&& n == 0 ==> centroid[d] == 0
            &&& n > 0 ==> centroid[d] == m(
                Op::Mul,
                arith::total(m, 0, components),
                m(Op::Div, ONE_BITS, number),
            )
            &&& n > 0 && exact::is_exact(m, num) && exact::all_in(num, components) && number != 0
                ==> m(Op::Mul, centroid[d], number) == arith::total(m, 0, components)
        }),
{
    let components = Seq::new(n, |row: int| flat[row * dim + d]);
    let number = m(Op::Int, n as u32, 0);
    assert(components =~= bbq::column(flat, dim, n, d));
    if n > 0 && exact::is_exact(m, num) && exact::all_in(num, components) && number != 0 {
        let sum = exact::sum(m, components);
        let part = m(Op::Div, ONE_BITS, number);
        exact::lemma_zero(m, num);
        exact::lemma_int(m, num, n as u32);
        exact::lemma_total(m, num, 0, components);
        exact::lemma_quotient(m, num, ONE_BITS, number);
        exact::lemma_three(m, num, sum, part, number);
        exact::lemma_closed(m, num, sum, sum);
    }
}

/// Whether `middle` stands in the middle of some numbers: at position `len / 2` once they
/// stand in their total order.
pub open spec fn is_middle(values: Seq<u32>, sorted: Seq<u32>, middle: u32) -> bool {
    &&& sorted.to_multiset() == values.to_multiset()
    &&& forall|i: int, j: int|
        0 <= i <= j < sorted.len() ==> floatbits::total_rank(sorted[i]) <= floatbits::total_rank(
            sorted[j],
        )
    &&& middle == sorted[(values.len() / 2) as int]
}

proof fn lemma_middle(values: Seq<u32>, sorted: Seq<u32>, middle: u32)
    requires
        is_middle(values, sorted, middle),
    ensures
        middle == bbq::median(values),
{
    hits::ordered_is_the_ascending_order(values, sorted);
}

proof fn lemma_all_bits_len(m: Calc, flat: Seq<u32>, dim: nat, centroid: Seq<u32>, n: nat)
    ensures
        bbq::all_bits(m, flat, dim, centroid, n).len() == n * ((dim + 7) / 8),
    decreases n,
{
    let w = (dim + 7) / 8;
    assert(0 * w == 0) by (nonlinear_arith);
    if n > 0 {
        lemma_all_bits_len(m, flat, dim, centroid, (n - 1) as nat);
        assert((n - 1) * w + w == n * w) by (nonlinear_arith);
    }
}

proof fn lemma_bits_of_row(
    m: Calc,
    flat: Seq<u32>,
    dim: nat,
    centroid: Seq<u32>,
    n: nat,
    i: int,
    b: int,
)
    requires
        0 <= i < n,
        0 <= b < (dim + 7) / 8,
    ensures
        0 <= i * ((dim + 7) / 8) + b < bbq::all_bits(m, flat, dim, centroid, n).len(),
        bbq::all_bits(m, flat, dim, centroid, n)[i * ((dim + 7) / 8) + b] == bbq::residual_bits(
            bbq::residual_of(m, flat, dim, centroid, i),
        )[b],
    decreases n,
{
    let w = ((dim + 7) / 8) as int;
    lemma_all_bits_len(m, flat, dim, centroid, n);
    lemma_all_bits_len(m, flat, dim, centroid, (n - 1) as nat);
    assert(0 <= i * w && i * w + w <= n * w) by (nonlinear_arith)
        requires
            0 <= i < n,
            0 <= w,
    ;
    if i < n - 1 {
        lemma_bits_of_row(m, flat, dim, centroid, (n - 1) as nat, i, b);
    }
}

/// A row's bit is set where the component, less the centroid's, is at or above the middle
/// of the row's own. The bits of a row fill whole bytes, eight to a byte from the lowest
/// bit on, and the rows stand one behind the other.
pub proof fn bits_mark_the_upper_half_of_each_row(
    m: Calc,
    flat: Seq<u32>,
    dim: nat,
    centroid: Seq<u32>,
    n: nat,
    i: int,
    d: int,
    sorted: Seq<u32>,
    middle: u32,
)
    requires
        0 <= i < n,
        0 <= d < dim,
        is_middle(
            Seq::new(dim, |k: int| m(Op::Sub, flat[i * dim + k], centroid[k])),
            sorted,
            middle,
        ),
    ensures
        ({
            let bits = bbq::all_bits(m, flat, dim, centroid, n);
            let byte = bits[i * ((dim + 7) / 8) + d / 8];
            &&& bits.len() == n * ((dim + 7) / 8)
            &&& ((byte >> ((d % 8) as u8)) & 1 != 0) == floatbits::at_least(
                m(Op::Sub, flat[i * dim + d], centroid[d]),
                middle,
            )
        }),
{
    let residual = Seq::new(dim, |k: int| m(Op::Sub, flat[i * dim + k], centroid[k]));
    assert(residual =~= bbq::residual_of(m, flat, dim, centroid, i));
    lemma_middle(residual, sorted, middle);
    lemma_all_bits_len(m, flat, dim, centroid, n);
    lemma_bits_of_row(m, flat, dim, centroid, n, i, d / 8);
    bbq_laws::bits_tell_the_upper_half(residual);
    let bits = bbq::residual_bits(residual);
    assert(bbq::row_flags(bits, dim)[d] == bbq::row_bit(bits, d));
    assert(bbq::row_flags(bits, dim)[d] == bbq::upper_flags(residual)[d]);
}

proof fn lemma_chosen_is_filtered(
    values: Seq<u32>,
    flags: Seq<bool>,
    n: nat,
    want: bool,
    keep: spec_fn(u32) -> bool,
)
    requires
        n <= values.len(),
        flags.len() == values.len(),
        forall|d: int|
            0 <= d < values.len() ==> (#[trigger] flags[d] == want) == keep(values[d]),
    ensures
        bbq::chosen(values, flags, n, want) == values.take(n as int).filter(keep),
    decreases n,
{
    reveal(Seq::filter);
    if n > 0 {
        lemma_chosen_is_filtered(values, flags, (n - 1) as nat, want, keep);
        assert(values.take(n as int).drop_last() =~= values.take(n - 1));
        assert(values.take(n as int).last() == values[n - 1]);
        assert((flags[n - 1] == want) == keep(values[n - 1]));
    } else {
        assert(values.take(0) =~= Seq::empty());
    }
}

/// The two numbers of a coded row are means: the lower one of the components below the
/// middle, the upper one of the others. Where all components lie on one side, both numbers
/// are the mean of all.
pub proof fn levels_are_the_means_of_both_halves(
    m: Calc,
    residual: Seq<u32>,
    sorted: Seq<u32>,
    middle: u32,
)
    requires
        residual.len() > 0,
        is_middle(residual, sorted, middle),
    ensures
        ({
            let below = residual.filter(|v: u32| !floatbits::at_least(v, middle));
            let above = residual.filter(|v: u32| floatbits::at_least(v, middle));
            let low = m(
                Op::Div,
                arith::total(m, 0, below),
                m(Op::Int, below.len() as u32, 0),
            );
            let high = m(
                Op::Div,
                arith::total(m, 0, above),
                m(Op::Int, above.len() as u32, 0),
            );
            let levels = bbq::residual_levels(m, residual);
            &&& below.len() > 0 && above.len() > 0 ==> levels == (low, high)
            &&& below.len() == 0 ==> levels == (high, high)
            &&& above.len() == 0 && below.len() > 0 ==> levels == (low, low)
        }),
{
    lemma_middle(residual, sorted, middle);
    let flags = bbq::upper_flags(residual);
    let n = residual.len();
    lemma_chosen_is_filtered(
        residual,
        flags,
        n,
        false,
        |v: u32| !floatbits::at_least(v, middle),
    );
    lemma_chosen_is_filtered(
        residual,
        flags,
        n,
        true,
        |v: u32| floatbits::at_least(v, middle),
    );
    assert(residual.take(n as int) =~= residual);
}

/// The sum over set bits grows by a query's component at each further bit that is set, and
/// by nothing at one that is not; and so does their number by one.
pub proof fn sums_over_bits_grow_at_set_bits(m: Calc, query: Seq<u32>, bits: Seq<u8>, d: nat)
    ensures
        bbq::binary_dot(m, query, bits, 0) == 0,
        bbq::set_count(bbq::row_flags(bits, 0)) == 0,
        ({
            let set = (bits[(d / 8) as int] >> ((d % 8) as u8)) & 1 != 0;
            let sum = bbq::binary_dot(m, query, bits, d);
            let number = bbq::set_count(bbq::row_flags(bits, d));
            &&& set ==> bbq::binary_dot(m, query, bits, d + 1) == m(
                Op::Add,
                sum,
                query[d as int],
            )
            &&& !set ==> bbq::binary_dot(m, query, bits, d + 1) == sum
            &&& set ==> bbq::set_count(bbq::row_flags(bits, d + 1)) == number + 1
            &&& !set ==> bbq::set_count(bbq::row_flags(bits, d + 1)) == number
        }),
{
    let (short, long) = (bbq::row_flags(bits, d), bbq::row_flags(bits, d + 1));
    assert(long.drop_last() =~= short);
    lemma_chosen_alike(query, long, short, d);
    let before = bbq::chosen(query, short, d, true);
    assert(before.push(query[d as int]).drop_last() =~= before);
}

proof fn lemma_chosen_alike(values: Seq<u32>, a: Seq<bool>, b: Seq<bool>, n: nat)
    requires
        n <= a.len(),
        n <= b.len(),
        forall|i: int| 0 <= i < n ==> a[i] == #[trigger] b[i],
    ensures
        bbq::chosen(values, a, n, true) == bbq::chosen(values, b, n, true),
    decreases n,
{
    if n > 0 {
        lemma_chosen_alike(values, a, b, (n - 1) as nat);
        assert(a[n - 1] == b[n - 1]);
    }
}

/// What distances from bits start from takes in every component of the query: the products
/// with the centroid's components, and the differences from them.
pub proof fn prepared_queries_take_in_every_component(
    m: Calc,
    query: Seq<u32>,
    centroid: Seq<u32>,
    d: int,
)
    requires
        0 <= d < query.len(),
        query.len() == centroid.len(),
    ensures
        bbq::common_products(m, query, centroid).len() == query.len(),
        bbq::common_products(m, query, centroid)[d] == m(Op::Mul, query[d], centroid[d]),
        bbq::centered(m, query, centroid).len() == query.len(),
        bbq::centered(m, query, centroid)[d] == m(Op::Sub, query[d], centroid[d]),
{
}

/// Collected rows hold, byte for byte, the rows with the given ids in the given order.
pub proof fn collected_rows_are_copies(bits: Seq<u8>, width: nat, ids: Seq<u32>, i: int, b: int)
    requires
        0 <= i < ids.len(),
        0 <= b < width,
        forall|j: int| 0 <= j < ids.len() ==> ((#[trigger] ids[j]) + 1) * width <= bits.len(),
    ensures
        bbq::gathered_rows(bits, width, ids).len() == ids.len() * width,
        bbq::gathered_rows(bits, width, ids)[i * width + b] == bits[ids[i] * width + b],
{
    bbq::gathered_row_is_the_row(bits, width, ids, i);
    let all = bbq::gathered_rows(bits, width, ids);
    let id = ids[i] as int;
    assert(0 <= i * width && i * width + width <= ids.len() * width) by (nonlinear_arith)
        requires
            0 <= i < ids.len(),
            0 <= width,
    ;
    assert(0 <= id * width && id * width + width == (id + 1) * width) by (nonlinear_arith)
        requires
            0 <= id,
            0 <= width,
    ;
    assert(bbq::bit_row(all, width, i)[b] == all[i * width + b]);
    assert(bbq::bit_row(bits, width, id)[b] == bits[id * width + b]);
}

/// The bits that fill up a row's last byte are all set where no component of the row lies
/// below the middle, and all clear elsewhere.
pub proof fn bits_beyond_the_row_are_alike(
    residual: Seq<u32>,
    sorted: Seq<u32>,
    middle: u32,
    d: int,
)
    requires
        residual.len() > 0,
        is_middle(residual, sorted, middle),
        residual.len() <= d < 8 * ((residual.len() + 7) / 8),
    ensures
        ({
            let bits = bbq::residual_bits(residual);
            let below = residual.filter(|v: u32| !floatbits::at_least(v, middle));
            &&& bits.len() == (residual.len() + 7) / 8
            &&& ((bits[d / 8] >> ((d % 8) as u8)) & 1 != 0) == (below.len() == 0)
        }),
{
    lemma_middle(residual, sorted, middle);
    let flags = bbq::upper_flags(residual);
    let n = residual.len();
    lemma_chosen_is_filtered(
        residual,
        flags,
        n,
        false,
        |v: u32| !floatbits::at_least(v, middle),
    );
    assert(residual.take(n as int) =~= residual);
    let k = (d % 8) as u8;
    if bbq::lows(residual).len() == 0 {
        assert((0xffu8 >> k) & 1 != 0) by (bit_vector)
            requires
                k < 8,
        ;
    } else {
        bbq::lemma_packed_bit(flags, d);
    }
}

} // verus!
