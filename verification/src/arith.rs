//! Division that rounds up, and sums of products.
use crate::arrays::zip;
use vstd::arithmetic::div_mod::lemma_fundamental_div_mod;
use vstd::prelude::*;

verus! {

/// The quotient, rounded up.
pub open spec fn ceil_div(a: int, b: int) -> int {
    (a + b - 1) / b
}

/// Multiples of `b` lie below `a` exactly as long as their factor lies below the quotient of the
/// two, rounded up.
pub proof fn lemma_ceil_div(a: int, b: int, c: int)
    requires
        0 < b,
    ensures
        c * b < a <==> c < ceil_div(a, b),
        a <= ceil_div(a, b) * b < a + b,
{
    let q = ceil_div(a, b);
    lemma_fundamental_div_mod(a + b - 1, b);
    let r = (a + b - 1) % b;
    assert(q * b == a + b - 1 - r) by (nonlinear_arith)
        requires
            a + b - 1 == b * q + r,
    ;
    if c < q {
        assert(c * b <= q * b - b) by (nonlinear_arith)
            requires
                c + 1 <= q,
                0 < b,
        ;
    } else {
        assert(q * b <= c * b) by (nonlinear_arith)
            requires
                q <= c,
                0 < b,
        ;
    }
}

/// Rounding up keeps the order.
pub proof fn lemma_ceil_div_monotone(a: int, c: int, b: int)
    requires
        0 < b,
        a <= c,
    ensures
        ceil_div(a, b) <= ceil_div(c, b),
{
    lemma_ceil_div(a, b, ceil_div(c, b));
    lemma_ceil_div(c, b, ceil_div(c, b));
}

/// A quotient, rounded up, of something that is not negative.
pub proof fn lemma_ceil_div_bounds(a: int, b: int)
    requires
        0 < b,
        0 <= a,
    ensures
        0 <= ceil_div(a, b) <= a,
        a == 0 <==> ceil_div(a, b) == 0,
{
    lemma_ceil_div(a, b, -1);
    lemma_ceil_div(a, b, 0);
    lemma_ceil_div(a, b, a);
    assert(-1 * b < 0);
    assert(a <= a * b) by (nonlinear_arith)
        requires
            0 < b,
            0 <= a,
    ;
}

/// The quotient, rounded up.
pub fn div_ceil(a: usize, b: usize) -> (q: usize)
    requires
        0 < b,
    ensures
        q == ceil_div(a as int, b as int),
        a <= q * b < a + b,
{
    let q: usize = a / b;
    let r: usize = a % b;
    proof {
        lemma_fundamental_div_mod(a as int, b as int);
        lemma_ceil_div(a as int, b as int, q as int);
        lemma_ceil_div(a as int, b as int, q - 1);
        lemma_ceil_div(a as int, b as int, q + 1);
        lemma_ceil_div_bounds(a as int, b as int);
        assert(q * b == b * q && (q - 1) * b == b * q - b && (q + 1) * b == b * q + b)
            by (nonlinear_arith);
    }
    if r == 0 {
        q
    } else {
        q + 1
    }
}

/// Whether an integer is one that an `isize` holds.
pub open spec fn fits(x: int) -> bool {
    isize::MIN <= x <= isize::MAX
}

/// The sum of the products of what stands at the same place.
pub open spec fn dot(a: Seq<int>, b: Seq<int>) -> int
    decreases a.len(),
{
    if a.len() == 0 {
        0
    } else {
        dot(a.drop_last(), b.drop_last()) + a.last() * b.last()
    }
}

/// Whether every product and every partial sum is one that an `isize` holds.
pub open spec fn dot_fits(a: Seq<int>, b: Seq<int>) -> bool {
    forall|k: int|
        0 <= k < a.len() ==> fits(#[trigger] a[k] * b[k]) && fits(dot(a.take(k + 1), b.take(k + 1)))
}

/// One more place adds one more product.
pub proof fn lemma_dot_step(a: Seq<int>, b: Seq<int>, k: int)
    requires
        0 <= k < a.len(),
        k < b.len(),
    ensures
        dot(a.take(k + 1), b.take(k + 1)) == dot(a.take(k), b.take(k)) + a[k] * b[k],
{
    assert(a.take(k + 1).drop_last() =~= a.take(k));
    assert(b.take(k + 1).drop_last() =~= b.take(k));
}

/// Greater factors make a greater sum, where the other factors are not negative.
pub proof fn lemma_dot_monotone(a: Seq<int>, c: Seq<int>, b: Seq<int>)
    requires
        a.len() == c.len() == b.len(),
        forall|j: int| 0 <= j < a.len() ==> #[trigger] a[j] <= c[j],
        forall|j: int| 0 <= j < b.len() ==> 0 <= #[trigger] b[j],
    ensures
        dot(a, b) <= dot(c, b),
    decreases a.len(),
{
    if a.len() > 0 {
        lemma_dot_monotone(a.drop_last(), c.drop_last(), b.drop_last());
        assert(a.last() * b.last() <= c.last() * b.last()) by (nonlinear_arith)
            requires
                a.last() <= c.last(),
                0 <= b.last(),
        ;
    }
}

/// What lies between two factors that fit does fit.
pub proof fn lemma_dot_fits_between(lo: Seq<int>, a: Seq<int>, hi: Seq<int>, b: Seq<int>)
    requires
        lo.len() == a.len() == hi.len() == b.len(),
        forall|j: int| 0 <= j < a.len() ==> lo[j] <= #[trigger] a[j] <= hi[j],
        forall|j: int| 0 <= j < b.len() ==> 0 <= #[trigger] b[j],
        dot_fits(lo, b),
        dot_fits(hi, b),
    ensures
        dot_fits(a, b),
{
    assert forall|k: int| 0 <= k < a.len() implies fits(#[trigger] a[k] * b[k]) && fits(
        dot(a.take(k + 1), b.take(k + 1)),
    ) by {
        assert(fits(lo[k] * b[k]) && fits(hi[k] * b[k]));
        assert(lo[k] * b[k] <= a[k] * b[k] <= hi[k] * b[k]) by (nonlinear_arith)
            requires
                lo[k] <= a[k] <= hi[k],
                0 <= b[k],
        ;
        lemma_dot_monotone(lo.take(k + 1), a.take(k + 1), b.take(k + 1));
        lemma_dot_monotone(a.take(k + 1), hi.take(k + 1), b.take(k + 1));
    }
}

/// A sum of products that are not negative fits as soon as the whole of it does.
pub proof fn lemma_dot_fits_nonnegative(a: Seq<int>, b: Seq<int>)
    requires
        a.len() == b.len(),
        forall|j: int| 0 <= j < a.len() ==> 0 <= #[trigger] a[j],
        forall|j: int| 0 <= j < b.len() ==> 0 <= #[trigger] b[j],
        dot(a, b) <= isize::MAX,
    ensures
        0 <= dot(a, b),
        dot_fits(a, b),
    decreases a.len(),
{
    if a.len() > 0 {
        let (a1, b1) = (a.drop_last(), b.drop_last());
        assert(0 <= a.last() * b.last()) by (nonlinear_arith)
            requires
                0 <= a.last(),
                0 <= b.last(),
        ;
        lemma_dot_fits_nonnegative(a1, b1);
        assert forall|k: int| 0 <= k < a.len() implies fits(#[trigger] a[k] * b[k]) && fits(
            dot(a.take(k + 1), b.take(k + 1)),
        ) by {
            if k < a1.len() {
                assert(fits(a1[k] * b1[k]));
                assert(a1.take(k + 1) =~= a.take(k + 1));
                assert(b1.take(k + 1) =~= b.take(k + 1));
            } else {
                assert(a.take(k + 1) =~= a);
                assert(b.take(k + 1) =~= b);
            }
        }
    }
}

/// The factors can trade places.
pub proof fn lemma_dot_commutes(a: Seq<int>, b: Seq<int>)
    requires
        a.len() == b.len(),
    ensures
        dot(a, b) == dot(b, a),
    decreases a.len(),
{
    if a.len() > 0 {
        lemma_dot_commutes(a.drop_last(), b.drop_last());
        assert(a.last() * b.last() == b.last() * a.last()) by (nonlinear_arith);
    }
}

/// The sum over a sum is the sum of the sums.
pub proof fn lemma_dot_distributes(a: Seq<int>, b: Seq<int>, c: Seq<int>)
    requires
        a.len() == b.len() == c.len(),
    ensures
        dot(Seq::new(a.len(), |j: int| a[j] + b[j]), c) == dot(a, c) + dot(b, c),
    decreases a.len(),
{
    if a.len() > 0 {
        let sum = Seq::new(a.len(), |j: int| a[j] + b[j]);
        let (a1, b1, c1) = (a.drop_last(), b.drop_last(), c.drop_last());
        lemma_dot_distributes(a1, b1, c1);
        assert(sum.drop_last() =~= Seq::new(a1.len(), |j: int| a1[j] + b1[j]));
        assert((a.last() + b.last()) * c.last() == a.last() * c.last() + b.last() * c.last())
            by (nonlinear_arith);
    }
}

/// A factor can move from one side of each product to the other.
pub proof fn lemma_dot_moves_factor(a: Seq<int>, f: Seq<int>, c: Seq<int>)
    requires
        a.len() == f.len() == c.len(),
    ensures
        dot(Seq::new(a.len(), |j: int| f[j] * c[j]), a) == dot(
            Seq::new(a.len(), |j: int| a[j] * f[j]),
            c,
        ),
    decreases a.len(),
{
    if a.len() > 0 {
        let left = Seq::new(a.len(), |j: int| f[j] * c[j]);
        let right = Seq::new(a.len(), |j: int| a[j] * f[j]);
        let (a1, f1, c1) = (a.drop_last(), f.drop_last(), c.drop_last());
        lemma_dot_moves_factor(a1, f1, c1);
        assert(left.drop_last() =~= Seq::new(a1.len(), |j: int| f1[j] * c1[j]));
        assert(right.drop_last() =~= Seq::new(a1.len(), |j: int| a1[j] * f1[j]));
        assert((f.last() * c.last()) * a.last() == (a.last() * f.last()) * c.last())
            by (nonlinear_arith);
    }
}

/// The products of pairs, summed from the first pair on.
pub(crate) fn sum_of_products(a: &[isize], b: &[isize]) -> (sum: isize)
    requires
        a@.len() == b@.len(),
        dot_fits(crate::grid::signed_ints(a@), crate::grid::signed_ints(b@)),
    ensures
        sum == dot(crate::grid::signed_ints(a@), crate::grid::signed_ints(b@)),
{
    let ghost x = crate::grid::signed_ints(a@);
    let ghost y = crate::grid::signed_ints(b@);
    let pairs = zip(a, b);
    let mut sum: isize = 0;
    for k in 0..pairs.len()
        invariant
            pairs@.len() == a@.len() == b@.len(),
            forall|i: int| 0 <= i < pairs@.len() ==> #[trigger] pairs@[i] == (a@[i], b@[i]),
            x == crate::grid::signed_ints(a@),
            y == crate::grid::signed_ints(b@),
            dot_fits(x, y),
            sum == dot(x.take(k as int), y.take(k as int)),
    {
        proof {
            lemma_dot_step(x, y, k as int);
            assert(fits(x[k as int] * y[k as int]));
        }
        let pair = pairs[k];
        sum = sum + pair.0 * pair.1;
    }
    proof {
        assert(x.take(pairs@.len() as int) =~= x);
        assert(y.take(pairs@.len() as int) =~= y);
    }
    sum
}

} // verus!
