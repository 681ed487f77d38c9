//! Row-major grids: how many points a shape has, and which point comes when.
use vstd::arithmetic::div_mod::{
    lemma_div_multiples_vanish_fancy, lemma_div_pos_is_pos, lemma_fundamental_div_mod,
    lemma_mod_bound, lemma_mod_multiples_vanish, lemma_small_mod,
};
use vstd::arithmetic::mul::{lemma_mul_is_commutative, lemma_mul_nonnegative};
use vstd::prelude::*;

verus! {

/// The mathematical integers that a sequence of `usize` stands for.
pub open spec fn ints(s: Seq<usize>) -> Seq<int> {
    Seq::new(s.len(), |i: int| s[i] as int)
}

/// The mathematical integers that a sequence of `isize` stands for.
pub open spec fn signed_ints(s: Seq<isize>) -> Seq<int> {
    Seq::new(s.len(), |i: int| s[i] as int)
}

/// How many points a grid of this shape has: the product of its extents.
pub open spec fn product(shape: Seq<int>) -> int
    decreases shape.len(),
{
    if shape.len() == 0 {
        1
    } else {
        shape[0] * product(shape.skip(1))
    }
}

/// The product of the extents that are not zero.
pub open spec fn nonzero_product(shape: Seq<int>) -> int
    decreases shape.len(),
{
    if shape.len() == 0 {
        1
    } else if shape[0] == 0 {
        nonzero_product(shape.skip(1))
    } else {
        shape[0] * nonzero_product(shape.skip(1))
    }
}

/// The point that comes at place `i` when the grid is walked in row-major order.
pub open spec fn unravel(shape: Seq<int>, i: int) -> Seq<int>
    decreases shape.len(),
{
    if shape.len() == 0 {
        Seq::empty()
    } else {
        let inner = product(shape.skip(1));
        seq![i / inner] + unravel(shape.skip(1), i % inner)
    }
}

/// The place at which a point comes when the grid is walked in row-major order.
pub open spec fn ravel(shape: Seq<int>, point: Seq<int>) -> int
    decreases shape.len(),
{
    if shape.len() == 0 {
        0
    } else {
        point[0] * product(shape.skip(1)) + ravel(shape.skip(1), point.skip(1))
    }
}

/// Whether a point lies inside the grid.
pub open spec fn in_grid(shape: Seq<int>, point: Seq<int>) -> bool {
    &&& point.len() == shape.len()
    &&& forall|j: int| 0 <= j < shape.len() ==> 0 <= #[trigger] point[j] < shape[j]
}

/// No extent is negative.
pub open spec fn is_shape(shape: Seq<int>) -> bool {
    forall|j: int| 0 <= j < shape.len() ==> 0 <= #[trigger] shape[j]
}

pub proof fn lemma_product_nonnegative(shape: Seq<int>)
    requires
        is_shape(shape),
    ensures
        0 <= product(shape),
    decreases shape.len(),
{
    if shape.len() > 0 {
        lemma_product_nonnegative(shape.skip(1));
        lemma_mul_nonnegative(shape[0], product(shape.skip(1)));
    }
}

/// With no zero extent, leaving the zeros out changes nothing.
pub proof fn lemma_product_of_positive(shape: Seq<int>)
    requires
        forall|j: int| 0 <= j < shape.len() ==> 1 <= #[trigger] shape[j],
    ensures
        product(shape) == nonzero_product(shape),
        1 <= product(shape),
    decreases shape.len(),
{
    if shape.len() > 0 {
        lemma_product_of_positive(shape.skip(1));
        let p = product(shape.skip(1));
        assert(1 <= shape[0] * p) by (nonlinear_arith)
            requires
                1 <= shape[0],
                1 <= p,
        ;
    }
}

pub proof fn lemma_product_le_nonzero_product(shape: Seq<int>)
    requires
        is_shape(shape),
    ensures
        0 <= product(shape) <= nonzero_product(shape),
        1 <= nonzero_product(shape),
    decreases shape.len(),
{
    if shape.len() > 0 {
        lemma_product_le_nonzero_product(shape.skip(1));
        let p = product(shape.skip(1));
        let q = nonzero_product(shape.skip(1));
        if shape[0] == 0 {
            assert(0 * p == 0);
        } else {
            assert(0 <= shape[0] * p <= shape[0] * q && 1 <= shape[0] * q) by (nonlinear_arith)
                requires
                    1 <= shape[0],
                    0 <= p <= q,
                    1 <= q,
            ;
        }
    }
}

pub proof fn lemma_unravel_len(shape: Seq<int>, i: int)
    ensures
        unravel(shape, i).len() == shape.len(),
    decreases shape.len(),
{
    if shape.len() > 0 {
        lemma_unravel_len(shape.skip(1), i % product(shape.skip(1)));
    }
}

/// Every place of the walk is a point of the grid, and raveling finds the place again.
pub proof fn lemma_unravel(shape: Seq<int>, i: int)
    requires
        is_shape(shape),
        0 <= i < product(shape),
    ensures
        in_grid(shape, unravel(shape, i)),
        ravel(shape, unravel(shape, i)) == i,
    decreases shape.len(),
{
    if shape.len() > 0 {
        let tail = shape.skip(1);
        let inner = product(tail);
        lemma_product_nonnegative(tail);
        if inner == 0 {
            assert(shape[0] * 0 == 0);
        }
        lemma_fundamental_div_mod(i, inner);
        lemma_mod_bound(i, inner);
        lemma_div_pos_is_pos(i, inner);
        assert(i / inner < shape[0]) by (nonlinear_arith)
            requires
                0 < inner,
                i < shape[0] * inner,
                i == inner * (i / inner) + i % inner,
                0 <= i % inner,
        ;
        lemma_unravel(tail, i % inner);
        lemma_unravel_len(tail, i % inner);
        let u = unravel(shape, i);
        assert(u.skip(1) =~= unravel(tail, i % inner));
        assert forall|j: int| 0 <= j < shape.len() implies 0 <= #[trigger] u[j] < shape[j] by {
            if j > 0 {
                assert(u[j] == unravel(tail, i % inner)[j - 1]);
                assert(shape[j] == tail[j - 1]);
            }
        }
        lemma_mul_is_commutative(inner, i / inner);
    }
}

/// Every point of the grid has a place of the walk, at which the walk comes to it.
pub proof fn lemma_ravel(shape: Seq<int>, point: Seq<int>)
    requires
        is_shape(shape),
        in_grid(shape, point),
    ensures
        0 <= ravel(shape, point) < product(shape),
        unravel(shape, ravel(shape, point)) == point,
    decreases shape.len(),
{
    if shape.len() > 0 {
        let tail = shape.skip(1);
        let inner = product(tail);
        let rest = point.skip(1);
        assert(in_grid(tail, rest)) by {
            assert forall|j: int| 0 <= j < tail.len() implies 0 <= #[trigger] rest[j] < tail[j] by {
                assert(rest[j] == point[j + 1]);
            }
        }
        lemma_ravel(tail, rest);
        let low = ravel(tail, rest);
        assert(point[0] * inner + low < shape[0] * inner && 0 <= point[0] * inner)
            by (nonlinear_arith)
            requires
                0 <= point[0] < shape[0],
                0 <= low < inner,
        ;
        lemma_mul_is_commutative(point[0], inner);
        lemma_div_multiples_vanish_fancy(point[0], low, inner);
        lemma_mod_multiples_vanish(point[0], low, inner);
        lemma_small_mod(low as nat, inner as nat);
        assert(unravel(shape, ravel(shape, point)) =~= seq![point[0]] + rest);
        assert(point =~= seq![point[0]] + rest);
    } else {
        assert(point =~= Seq::<int>::empty());
    }
}

/// More extents make no smaller product of those that are not zero.
pub proof fn lemma_nonzero_product_grows(shape: Seq<int>, i: int)
    requires
        0 <= i <= shape.len(),
        is_shape(shape),
    ensures
        1 <= nonzero_product(shape.skip(i)) <= nonzero_product(shape),
    decreases i,
{
    if i == 0 {
        assert(shape.skip(0) =~= shape);
        lemma_product_le_nonzero_product(shape);
    } else {
        let tail = shape.skip(1);
        assert forall|j: int| 0 <= j < tail.len() implies 0 <= #[trigger] tail[j] by {
            assert(tail[j] == shape[j + 1]);
        }
        lemma_nonzero_product_grows(tail, i - 1);
        assert(tail.skip(i - 1) =~= shape.skip(i));
        let p = nonzero_product(tail);
        if shape[0] != 0 {
            assert(p <= shape[0] * p) by (nonlinear_arith)
                requires
                    1 <= shape[0],
                    1 <= p,
            ;
        }
    }
}

} // verus!
