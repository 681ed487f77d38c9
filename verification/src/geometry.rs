//! What holds of the geometry of every patch.
use crate::arith::{
    ceil_div, dot, dot_fits, lemma_ceil_div, lemma_ceil_div_bounds, lemma_ceil_div_monotone,
    lemma_dot_commutes, lemma_dot_distributes, lemma_dot_fits_between, lemma_dot_fits_nonnegative,
    lemma_dot_moves_factor, lemma_dot_step,
};
use crate::grid::{
    ints, lemma_product_nonnegative, lemma_product_of_positive, lemma_ravel, lemma_unravel, product,
    ravel, unravel,
};
use crate::padding::{kernel_field, same_padding, PaddingSpec};
use crate::patch_spec::PatchSpec;
use vstd::prelude::*;

verus! {

/// The padding and the taps along one axis are bounded.
pub proof fn lemma_axis(spec: &PatchSpec, ix: int)
    requires
        spec.accepts_axis(ix),
    ensures
        0 <= spec.before(ix) <= isize::MAX,
        0 <= spec.after(ix),
        spec.dim(ix) + spec.before(ix) <= usize::MAX,
        spec.first_tap(ix) <= spec.last_tap(ix) <= isize::MAX,
        0 <= spec.dim(ix) - spec.last_tap(ix) <= usize::MAX,
{
    let (k, d) = (spec.kernel_shape@[ix] as int, spec.dilations@[ix] as int);
    assert(0 <= (k - 1) * d) by (nonlinear_arith)
        requires
            1 <= k,
            0 <= d,
    ;
}

/// The valid places lie inside of the output.
pub proof fn lemma_valid_zone_bounds(spec: &PatchSpec, ix: int)
    requires
        spec.accepts_axis(ix),
    ensures
        0 <= spec.valid_start(ix) <= spec.before(ix),
        0 <= spec.valid_end(ix) <= spec.output(ix),
{
    lemma_axis(spec, ix);
    let s = spec.strides@[ix] as int;
    let (i, k, d) = (spec.dim(ix), spec.kernel_shape@[ix] as int, spec.dilations@[ix] as int);
    let reach = i - spec.last_tap(ix);
    lemma_ceil_div_bounds(spec.before(ix), s);
    lemma_ceil_div_bounds(reach, s);
    match spec.padding {
        PaddingSpec::Explicit(_, _) | PaddingSpec::Valid => {
            lemma_ceil_div_monotone(
                reach,
                i + spec.before(ix) + spec.after(ix) - kernel_field(k, d) + 1,
                s,
            );
        },
        _ => {
            let out = ceil_div(i, s);
            if same_padding(i, k, d, s) == 0 {
                assert(0 <= (k - 1) * d) by (nonlinear_arith)
                    requires
                        1 <= k,
                        0 <= d,
                ;
                lemma_ceil_div_monotone(reach, i, s);
            } else {
                lemma_ceil_div(reach, s, out);
                assert((out - 1) * s == out * s - s) by (nonlinear_arith);
            }
        },
    }
}

/// Each tap lies between the first one and the last one.
pub proof fn lemma_tap(spec: &PatchSpec, t: int, ix: int)
    requires
        spec.wf(),
        0 <= t < spec.taps(),
        0 <= ix < spec.rank(),
    ensures
        unravel(ints(spec.kernel_shape@), t).len() == spec.rank(),
        0 <= unravel(ints(spec.kernel_shape@), t)[ix] < spec.kernel_shape@[ix],
        0 <= unravel(ints(spec.kernel_shape@), t)[ix] * spec.dilations@[ix] <= isize::MAX,
        spec.first_tap(ix) <= spec.tap(t)[ix] <= spec.last_tap(ix),
{
    let kernel = ints(spec.kernel_shape@);
    lemma_unravel(kernel, t);
    assert(spec.accepts_axis(ix));
    let (k, d, u) = (kernel[ix], spec.dilations@[ix] as int, unravel(kernel, t)[ix]);
    assert(0 <= u < k);
    assert(0 <= u * d <= (k - 1) * d) by (nonlinear_arith)
        requires
            0 <= u <= k - 1,
            0 <= d,
    ;
}

/// Every kernel has at least one tap.
pub proof fn lemma_taps_positive(spec: &PatchSpec)
    requires
        spec.wf(),
    ensures
        1 <= spec.taps(),
        spec.taps() == crate::grid::nonzero_product(ints(spec.kernel_shape@)),
{
    let kernel = ints(spec.kernel_shape@);
    assert forall|j: int| 0 <= j < kernel.len() implies 1 <= #[trigger] kernel[j] by {
        assert(spec.accepts_axis(j));
    }
    lemma_product_of_positive(kernel);
}

/// Along each axis some tap is the first one and some tap is the last one.
pub proof fn lemma_extreme_taps(spec: &PatchSpec, ix: int) -> (res: (int, int))
    requires
        spec.wf(),
        0 <= ix < spec.rank(),
    ensures
        0 <= res.0 < spec.taps(),
        0 <= res.1 < spec.taps(),
        spec.tap(res.0)[ix] == spec.first_tap(ix),
        spec.tap(res.1)[ix] == spec.last_tap(ix),
{
    let kernel = ints(spec.kernel_shape@);
    assert forall|j: int| 0 <= j < kernel.len() implies 1 <= #[trigger] kernel[j] by {
        assert(spec.accepts_axis(j));
    }
    let low = Seq::new(kernel.len(), |j: int| 0int);
    let high = Seq::new(kernel.len(), |j: int| kernel[j] - 1);
    lemma_ravel(kernel, low);
    lemma_ravel(kernel, high);
    assert(unravel(kernel, ravel(kernel, low))[ix] == low[ix]);
    assert(unravel(kernel, ravel(kernel, high))[ix] == high[ix]);
    assert(0 * spec.dilations@[ix] == 0);
    (ravel(kernel, low), ravel(kernel, high))
}

/// The distances between neighbours in the input are not negative.
pub proof fn lemma_layout(spec: &PatchSpec)
    requires
        spec.wf(),
    ensures
        spec.layout().len() == spec.rank(),
        forall|ix: int| 0 <= ix < spec.rank() ==> 0 <= #[trigger] spec.layout()[ix] <= isize::MAX,
{
    let h = spec.data_format.first_spatial_axis();
    assert forall|ix: int| 0 <= ix < spec.rank() implies 0 <= #[trigger] spec.layout()[ix]
        <= isize::MAX by {
        lemma_product_nonnegative(ints(spec.input_full_shape@).skip(h + ix + 1));
    }
}

/// Where a tap lies can be added up axis by axis.
pub proof fn lemma_tap_fits(spec: &PatchSpec, t: int)
    requires
        spec.wf(),
        0 <= t < spec.taps(),
    ensures
        dot_fits(spec.tap(t), spec.layout()),
{
    lemma_layout(spec);
    assert forall|ix: int| 0 <= ix < spec.rank() implies spec.first_taps()[ix]
        <= #[trigger] spec.tap(t)[ix] <= spec.last_taps()[ix] by {
        lemma_tap(spec, t, ix);
    }
    lemma_dot_fits_between(spec.first_taps(), spec.tap(t), spec.last_taps(), spec.layout());
}

/// The center of a place can be added up axis by axis, as soon as an `isize` holds it.
pub proof fn lemma_center_fits(spec: &PatchSpec, place: Seq<int>)
    requires
        spec.wf(),
        place.len() == spec.rank(),
        forall|ix: int| 0 <= ix < spec.rank() ==> 0 <= #[trigger] place[ix],
        spec.center(place) <= isize::MAX,
    ensures
        0 <= spec.center(place),
        dot_fits(place, spec.step_layout()),
        forall|ix: int| 0 <= ix < spec.rank() ==> 0 <= #[trigger] spec.step_layout()[ix],
{
    lemma_layout(spec);
    assert forall|ix: int| 0 <= ix < spec.rank() implies 0 <= #[trigger] spec.step_layout()[ix] by {
        assert(0 <= spec.strides@[ix] * spec.layout()[ix]) by (nonlinear_arith)
            requires
                0 <= spec.strides@[ix],
                0 <= spec.layout()[ix],
        ;
    }
    lemma_dot_fits_nonnegative(place, spec.step_layout());
}

/// Where a tap lies in the input is where its position leads to.
pub proof fn lemma_pixel(spec: &PatchSpec, position: Seq<int>, t: int)
    requires
        spec.wf(),
        position.len() == spec.rank(),
    ensures
        dot(position, spec.layout()) + spec.tap_offset(t) == dot(
            Seq::new(position.len(), |ix: int| position[ix] + spec.tap(t)[ix]),
            spec.layout(),
        ),
{
    lemma_dot_distributes(position, spec.tap(t), spec.layout());
}

/// The center of a place is where its position leads to.
pub proof fn lemma_center(spec: &PatchSpec, place: Seq<int>)
    requires
        spec.wf(),
        place.len() == spec.rank(),
    ensures
        spec.center(place) == dot(spec.position(place), spec.layout()),
{
    let n = spec.rank() as nat;
    let strides = ints(spec.strides@).take(spec.rank());
    lemma_dot_moves_factor(place, strides, spec.layout());
    assert(spec.step_layout() =~= Seq::new(n, |j: int| strides[j] * spec.layout()[j]));
    assert(spec.position(place) =~= Seq::new(n, |j: int| place[j] * strides[j]));
    lemma_dot_commutes(place, spec.step_layout());
}

/// The elements before a point of the input, along its first `k` spatial axes, leave at least a
/// whole row along the axes after them.
proof fn lemma_partial_position(spec: &PatchSpec, point: Seq<int>, k: int)
    requires
        spec.wf(),
        point.len() == spec.rank(),
        forall|ix: int| 0 <= ix < spec.rank() ==> 0 <= #[trigger] point[ix] < spec.dim(ix),
        0 <= k <= spec.rank(),
    ensures
        ({
            let h = spec.data_format.first_spatial_axis();
            let shape = ints(spec.input_full_shape@);
            0 <= dot(point.take(k), spec.layout().take(k)) <= product(shape.skip(h)) - product(
                shape.skip(h + k),
            )
        }),
    decreases k,
{
    let h = spec.data_format.first_spatial_axis();
    let shape = ints(spec.input_full_shape@);
    if k > 0 {
        lemma_partial_position(spec, point, k - 1);
        lemma_dot_step(point, spec.layout(), k - 1);
        let tail = shape.skip(h + k - 1);
        assert(tail.skip(1) =~= shape.skip(h + k));
        assert(tail[0] == spec.dim(k - 1));
        let step = product(shape.skip(h + k));
        lemma_product_nonnegative(shape.skip(h + k));
        assert(spec.layout()[k - 1] == step);
        let (p, d) = (point[k - 1], spec.dim(k - 1));
        assert(0 <= p < d);
        assert(0 <= p * step <= d * step - step) by (nonlinear_arith)
            requires
                0 <= p <= d - 1,
                0 <= step,
        ;
    }
}

/// A point of the input lies among the elements of one image.
pub proof fn lemma_point_in_image(spec: &PatchSpec, point: Seq<int>)
    requires
        spec.wf(),
        point.len() == spec.rank(),
        forall|ix: int| 0 <= ix < spec.rank() ==> 0 <= #[trigger] point[ix] < spec.dim(ix),
    ensures
        ({
            let h = spec.data_format.first_spatial_axis();
            let shape = ints(spec.input_full_shape@);
            &&& 0 <= dot(point, spec.layout())
            &&& dot(point, spec.layout()) + product(shape.skip(h + spec.rank())) <= product(
                shape.skip(h),
            ) <= isize::MAX
            &&& 0 <= product(shape.skip(h + spec.rank()))
        }),
{
    let h = spec.data_format.first_spatial_axis();
    let shape = ints(spec.input_full_shape@);
    lemma_partial_position(spec, point, spec.rank());
    assert(point.take(spec.rank()) =~= point);
    assert(spec.layout().take(spec.rank()) =~= spec.layout());
    lemma_product_nonnegative(shape.skip(h + spec.rank()));
}

/// At a valid place every tap lies inside of the input.
pub proof fn lemma_valid_is_inside(spec: &PatchSpec, place: Seq<int>, t: int)
    requires
        spec.wf(),
        place.len() == spec.rank(),
        spec.valid_at(place),
        0 <= t < spec.taps(),
    ensures
        spec.inside(spec.position(place), t),
{
    assert forall|ix: int| 0 <= ix < spec.rank() implies 0 <= #[trigger] spec.position(place)[ix]
        + spec.tap(t)[ix] < spec.dim(ix) by {
        assert(spec.valid_along(ix, place[ix]));
        lemma_tap(spec, t, ix);
    }
}

} // verus!
