//! What row-major grids and sums of products come to, in terms of their parts.
use crate::arith::dot;
use crate::grid::{
    in_grid, ints, is_shape, lemma_product_nonnegative, lemma_unravel, lemma_unravel_len,
    nonzero_product, product, ravel, signed_ints, unravel,
};
use vstd::arithmetic::div_mod::{
    lemma_fundamental_div_mod, lemma_fundamental_div_mod_converse, lemma_mod_bound,
    lemma_mod_multiples_vanish, lemma_small_mod,
};
use vstd::prelude::*;

verus! {

/// Integers stand in their places.
pub proof fn integers_keep_their_places(counts: Seq<usize>, offsets: Seq<isize>)
    ensures
        ints(counts).len() == counts.len(),
        forall|i: int| 0 <= i < counts.len() ==> #[trigger] ints(counts)[i] == counts[i],
        signed_ints(offsets).len() == offsets.len(),
        forall|i: int| 0 <= i < offsets.len() ==> #[trigger] signed_ints(offsets)[i] == offsets[i],
{
}

/// No extent makes one point, one extent makes as many, and the points of two grids are multiplied.
pub proof fn points_of_grids_are_multiplied(a: Seq<int>, b: Seq<int>, x: int)
    ensures
        product(Seq::<int>::empty()) == 1,
        product(seq![x]) == x,
        product(a + b) == product(a) * product(b),
    decreases a.len(),
{
    reveal_with_fuel(product, 2);
    assert(seq![x].skip(1) =~= Seq::<int>::empty());
    if a.len() == 0 {
        assert(a + b =~= b);
    } else {
        points_of_grids_are_multiplied(a.skip(1), b, x);
        assert((a + b).skip(1) =~= a.skip(1) + b);
        assert(a[0] * (product(a.skip(1)) * product(b)) == (a[0] * product(a.skip(1))) * product(b))
            by (nonlinear_arith);
    }
}

/// Extents of zero are left out of the product, and the others are multiplied.
pub proof fn zero_extents_are_left_out(a: Seq<int>, b: Seq<int>, x: int)
    ensures
        nonzero_product(Seq::<int>::empty()) == 1,
        nonzero_product(seq![x]) == (if x == 0 {
            1
        } else {
            x
        }),
        nonzero_product(a + b) == nonzero_product(a) * nonzero_product(b),
    decreases a.len(),
{
    reveal_with_fuel(nonzero_product, 2);
    assert(seq![x].skip(1) =~= Seq::<int>::empty());
    if a.len() == 0 {
        assert(a + b =~= b);
    } else {
        zero_extents_are_left_out(a.skip(1), b, x);
        assert((a + b).skip(1) =~= a.skip(1) + b);
        let (p, q) = (nonzero_product(a.skip(1)), nonzero_product(b));
        assert(a[0] * (p * q) == (a[0] * p) * q) by (nonlinear_arith);
    }
}

/// A sum of products is that of its parts, and one product alone is its own sum.
pub proof fn products_are_added(a: Seq<int>, b: Seq<int>, x: int, y: int)
    requires
        a.len() == b.len(),
    ensures
        dot(Seq::<int>::empty(), Seq::<int>::empty()) == 0,
        dot(a.push(x), b.push(y)) == dot(a, b) + x * y,
{
    assert(a.push(x).drop_last() =~= a);
    assert(b.push(y).drop_last() =~= b);
}

/// The walk over a grid in row-major order counts each axis up, and starts it again whenever an axis
/// before it moves on: along an axis it is at the number of whole inner grids that have passed,
/// counted round.
pub proof fn row_major_walks_count_round(shape: Seq<int>, i: int, ix: int)
    requires
        is_shape(shape),
        0 <= i < product(shape),
        0 <= ix < shape.len(),
    ensures
        unravel(shape, i).len() == shape.len(),
        1 <= product(shape.skip(ix + 1)),
        1 <= shape[ix],
        unravel(shape, i)[ix] == i / product(shape.skip(ix + 1)) % shape[ix],
    decreases shape.len(),
{
    lemma_unravel_len(shape, i);
    lemma_unravel(shape, i);
    let tail = shape.skip(1);
    let inner = product(tail);
    lemma_product_nonnegative(tail);
    assert(inner != 0) by {
        if inner == 0 {
            assert(shape[0] * 0 == 0);
        }
    }
    assert(0 <= unravel(shape, i)[ix] < shape[ix]);
    if ix == 0 {
        assert(shape.skip(ix + 1) =~= tail);
        lemma_small_mod((i / inner) as nat, shape[0] as nat);
    } else {
        let r = i % inner;
        lemma_mod_bound(i, inner);
        row_major_walks_count_round(tail, r, ix - 1);
        let p = product(shape.skip(ix + 1));
        assert(tail.skip(ix) =~= shape.skip(ix + 1));
        assert(tail[ix - 1] == shape[ix]);
        let s = shape[ix];
        let m = product(tail.take(ix - 1));
        assert(inner == m * (s * p)) by {
            points_of_grids_are_multiplied(tail.take(ix - 1), tail.skip(ix - 1), 0);
            assert(tail.take(ix - 1) + tail.skip(ix - 1) =~= tail);
            assert(tail.skip(ix - 1).skip(1) =~= tail.skip(ix));
        }
        let q = i / inner;
        lemma_fundamental_div_mod(i, inner);
        lemma_fundamental_div_mod(r, p);
        let (a, b) = (r / p, r % p);
        lemma_mod_bound(r, p);
        assert(i == (m * q * s + a) * p + b) by (nonlinear_arith)
            requires
                i == inner * q + r,
                inner == m * (s * p),
                r == p * a + b,
        ;
        lemma_fundamental_div_mod_converse(i, p, m * q * s + a, b);
        assert(i / p == s * (m * q) + a) by (nonlinear_arith)
            requires
                i / p == m * q * s + a,
        ;
        lemma_mod_multiples_vanish(m * q, a, s);
        assert(unravel(shape, i)[ix] == unravel(tail, r)[ix - 1]);
    }
}

/// The place of a point is how many whole inner grids lie before it along the first axis, and its
/// place among those of the other axes.
pub proof fn places_add_up_whole_grids(x: int, extent: int, point: Seq<int>, shape: Seq<int>)
    requires
        point.len() == shape.len(),
    ensures
        ravel(Seq::<int>::empty(), Seq::<int>::empty()) == 0,
        ravel(seq![extent] + shape, seq![x] + point) == x * product(shape) + ravel(shape, point),
{
    assert((seq![extent] + shape).skip(1) =~= shape);
    assert((seq![x] + point).skip(1) =~= point);
}

/// Between two points of a grid, the one that is ahead along the first axis along which they differ
/// comes later.
pub proof fn later_points_come_later(shape: Seq<int>, a: Seq<int>, b: Seq<int>, ix: int)
    requires
        is_shape(shape),
        in_grid(shape, a),
        in_grid(shape, b),
        0 <= ix < shape.len(),
        forall|j: int| 0 <= j < ix ==> #[trigger] a[j] == b[j],
        a[ix] < b[ix],
    ensures
        ravel(shape, a) < ravel(shape, b),
    decreases shape.len(),
{
    let tail = shape.skip(1);
    let (a1, b1) = (a.skip(1), b.skip(1));
    assert forall|j: int| 0 <= j < tail.len() implies 0 <= #[trigger] a1[j] < tail[j] by {
        assert(a1[j] == a[j + 1]);
    }
    assert forall|j: int| 0 <= j < tail.len() implies 0 <= #[trigger] b1[j] < tail[j] by {
        assert(b1[j] == b[j + 1]);
    }
    crate::grid::lemma_ravel(tail, a1);
    crate::grid::lemma_ravel(tail, b1);
    if ix == 0 {
        let p = product(tail);
        assert(a[0] * p + p <= b[0] * p) by (nonlinear_arith)
            requires
                a[0] + 1 <= b[0],
                0 <= p,
        ;
    } else {
        assert forall|j: int| 0 <= j < ix - 1 implies #[trigger] a1[j] == b1[j] by {
            assert(a[j + 1] == b[j + 1]);
        }
        assert(a[0] == b[0]);
        later_points_come_later(tail, a1, b1, ix - 1);
    }
}

} // verus!
