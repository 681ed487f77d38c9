//! What the fields of a patch are, and what is read with it, in terms of the input and the kernel.
use crate::arith::{
    dot, dot_fits, fits, lemma_ceil_div, lemma_dot_fits_between, lemma_dot_fits_nonnegative,
    lemma_dot_monotone,
};
use crate::data_format::{axes_are_told_apart, DataFormat};
use crate::geometry::{
    lemma_axis, lemma_center, lemma_extreme_taps, lemma_pixel, lemma_point_in_image, lemma_tap,
};
use crate::grid::{in_grid, ints, lemma_product_nonnegative, product, ravel, signed_ints};
use crate::grid_laws::{points_of_grids_are_multiplied, row_major_walks_count_round};
use crate::laws::{places_without_padding_are_valid, valid_places_read_the_same_unasked};
use crate::padding::{
    kernels_that_fit_are_accepted, outputs_are_the_places_that_fit, padding_is_what_was_asked_for,
    same_padding_is_just_enough, PaddingSpec,
};
use crate::patch::Patch;
use crate::patch_spec::PatchSpec;
use crate::visitor::{pixels, taken_as_valid};
use vstd::prelude::*;

verus! {

/// The shapes of a patch are those of its input and its kernel.
pub proof fn shapes_are_those_of_the_input(patch: &Patch)
    requires
        patch.wf(),
    ensures
        ({
            let n = patch.spec.input_full_shape@.len() - 2;
            &&& patch.input_shape.fmt == patch.spec.data_format
            &&& patch.input_shape.shape@ == patch.spec.input_full_shape@
            &&& patch.spec.kernel_shape@.len() == n
            &&& patch.pad_before@.len() == n
            &&& patch.pad_after@.len() == n
            &&& patch.output_spatial_shape@.len() == n
            &&& patch.data_field_min_max@.len() == n
            &&& patch.op_strides_times_input_storage_strides@.len() == n
            &&& patch.valid_output_zone@.len() == n
            &&& patch.data_field.cols() == n
            &&& patch.data_field.rows() == product(ints(patch.spec.kernel_shape@))
            &&& patch.standard_layout_data_field@.len() == patch.data_field.rows()
        }),
{
    assert(ints(patch.pad_before@).len() == patch.pad_before@.len());
    assert(ints(patch.pad_after@).len() == patch.pad_after@.len());
    assert(ints(patch.output_spatial_shape@).len() == patch.output_spatial_shape@.len());
    assert(signed_ints(patch.op_strides_times_input_storage_strides@).len()
        == patch.op_strides_times_input_storage_strides@.len());
    assert(crate::patch::bounds(patch.valid_output_zone@).len() == patch.valid_output_zone@.len());
}

/// The padding of a patch is what was asked for: none, that which was given, or so much that the
/// kernel ends with it at the last output, shared out evenly.
pub proof fn padding_of_a_patch_is_what_was_asked_for(patch: &Patch, ix: int)
    requires
        patch.wf(),
        0 <= ix < patch.spec.input_full_shape@.len() - 2,
    ensures
        ({
            let spec = patch.spec;
            let h: int = if spec.data_format == DataFormat::NCHW {
                2
            } else {
                1
            };
            let input = spec.input_full_shape@[h + ix];
            let (before, after) = (patch.pad_before@[ix], patch.pad_after@[ix]);
            let end = (patch.output_spatial_shape@[ix] - 1) * spec.strides@[ix] + (
            spec.kernel_shape@[ix] - 1) * spec.dilations@[ix] + 1;
            match spec.padding {
                PaddingSpec::Explicit(b, a) => before == b@[ix] && after == a@[ix],
                PaddingSpec::Valid => before == 0 && after == 0,
                PaddingSpec::SameUpper => {
                    &&& before <= after <= before + 1
                    &&& end <= input + before + after
                    &&& before + after == 0 || input + before + after == end
                },
                PaddingSpec::SameLower => {
                    &&& after <= before <= after + 1
                    &&& end <= input + before + after
                    &&& before + after == 0 || input + before + after == end
                },
            }
        }),
{
    let spec = &patch.spec;
    lemma_fields(patch, ix);
    let (i, k, d, s) = (
        spec.dim(ix),
        spec.kernel_shape@[ix] as int,
        spec.dilations@[ix] as int,
        spec.strides@[ix] as int,
    );
    assert(spec.accepts_axis(ix));
    padding_is_what_was_asked_for(spec.padding, ix, i, k, d, s);
    if spec.padding == PaddingSpec::SameUpper || spec.padding == PaddingSpec::SameLower {
        same_padding_is_just_enough(spec.padding, ix, i, k, d, s);
    }
}

/// The outputs of a patch are the places at which the whole kernel fits into the padded input; or,
/// where the padding is such as the strides ask for, those at which the strides do not lead out of
/// the input.
pub proof fn outputs_of_a_patch_are_the_places_that_fit(patch: &Patch, ix: int, place: int)
    requires
        patch.wf(),
        0 <= ix < patch.spec.input_full_shape@.len() - 2,
    ensures
        ({
            let spec = patch.spec;
            let h: int = if spec.data_format == DataFormat::NCHW {
                2
            } else {
                1
            };
            let input = spec.input_full_shape@[h + ix];
            let position = place * spec.strides@[ix];
            place < patch.output_spatial_shape@[ix] <==> (match spec.padding {
                PaddingSpec::Explicit(_, _) | PaddingSpec::Valid => position + (
                spec.kernel_shape@[ix] - 1) * spec.dilations@[ix] < input + patch.pad_before@[ix]
                    + patch.pad_after@[ix],
                PaddingSpec::SameUpper | PaddingSpec::SameLower => position < input,
            })
        }),
{
    let spec = &patch.spec;
    lemma_fields(patch, ix);
    assert(spec.accepts_axis(ix));
    outputs_are_the_places_that_fit(
        spec.padding,
        ix,
        spec.dim(ix),
        spec.kernel_shape@[ix] as int,
        spec.dilations@[ix] as int,
        spec.strides@[ix] as int,
        place,
    );
}

/// A patch is padded exactly where there is padding along some axis.
pub proof fn padded_patches_have_padding(patch: &Patch)
    requires
        patch.wf(),
    ensures
        !patch.padded <==> forall|ix: int|
            0 <= ix < patch.pad_before@.len() ==> #[trigger] patch.pad_before@[ix] == 0
                && patch.pad_after@[ix] == 0,
{
    shapes_are_those_of_the_input(patch);
    let spec = &patch.spec;
    if !patch.padded {
        assert forall|ix: int| 0 <= ix < patch.pad_before@.len() implies #[trigger] patch.pad_before@[ix]
            == 0 && patch.pad_after@[ix] == 0 by {
            lemma_fields(patch, ix);
            assert(spec.before(ix) == 0 && spec.after(ix) == 0);
        }
    }
    if forall|ix: int|
        0 <= ix < patch.pad_before@.len() ==> #[trigger] patch.pad_before@[ix] == 0
            && patch.pad_after@[ix] == 0 {
        assert forall|ix: int| 0 <= ix < spec.rank() implies #[trigger] spec.before(ix) == 0 by {
            lemma_fields(patch, ix);
            assert(patch.pad_before@[ix] == 0);
        }
        assert forall|ix: int| 0 <= ix < spec.rank() implies #[trigger] spec.after(ix) == 0 by {
            lemma_fields(patch, ix);
            assert(patch.pad_before@[ix] == 0);
        }
    }
}

/// The fields along one axis, as the model says.
pub proof fn lemma_fields(patch: &Patch, ix: int)
    requires
        patch.wf(),
        0 <= ix < patch.spec.input_full_shape@.len() - 2,
    ensures
        patch.pad_before@[ix] == patch.spec.before(ix),
        patch.pad_after@[ix] == patch.spec.after(ix),
        patch.output_spatial_shape@[ix] == patch.spec.output(ix),
        patch.valid_output_zone@[ix].start == patch.spec.valid_start(ix),
        patch.valid_output_zone@[ix].end == patch.spec.valid_end(ix),
        patch.spec.dim(ix) == patch.spec.input_full_shape@[(if patch.spec.data_format
            == DataFormat::NCHW {
            2int
        } else {
            1
        }) + ix],
{
    shapes_are_those_of_the_input(patch);
    axes_are_told_apart(patch.spec.data_format, patch.spec.input_full_shape@.len() as int, 0);
    assert(ints(patch.pad_before@)[ix] == patch.pad_before@[ix]);
    assert(ints(patch.pad_after@)[ix] == patch.pad_after@[ix]);
    assert(ints(patch.output_spatial_shape@)[ix] == patch.output_spatial_shape@[ix]);
    assert(crate::patch::bounds(patch.valid_output_zone@)[ix] == patch.spec.valid_zone()[ix]);
}

/// The taps are the points of the kernel in row-major order, spread by the dilations and shifted by
/// the padding.
pub proof fn taps_are_spread_by_the_dilations(patch: &Patch, t: int, ix: int)
    requires
        patch.wf(),
        0 <= t < product(ints(patch.spec.kernel_shape@)),
        0 <= ix < patch.spec.kernel_shape@.len(),
    ensures
        ({
            let kernel = ints(patch.spec.kernel_shape@);
            &&& 1 <= product(kernel.skip(ix + 1))
            &&& patch.data_field.cell(t, ix) + patch.pad_before@[ix] == (t / product(
                kernel.skip(ix + 1),
            ) % kernel[ix]) * patch.spec.dilations@[ix]
        }),
{
    lemma_fields(patch, ix);
    let kernel = ints(patch.spec.kernel_shape@);
    row_major_walks_count_round(kernel, t, ix);
    assert(patch.data_field.cell(t, ix) == patch.spec.tap(t)[ix]);
}

/// Between two taps that are neighbours along one axis of the kernel lies the dilation along that
/// axis, and nothing along the others.
pub proof fn neighbouring_taps_are_a_dilation_apart(
    patch: &Patch,
    point: Seq<int>,
    axis: int,
    ix: int,
)
    requires
        patch.wf(),
        in_grid(ints(patch.spec.kernel_shape@), point),
        0 <= axis < point.len(),
        0 <= ix < point.len(),
        point[axis] + 1 < patch.spec.kernel_shape@[axis],
    ensures
        ({
            let kernel = ints(patch.spec.kernel_shape@);
            let t = ravel(kernel, point);
            let next = ravel(kernel, point.update(axis, point[axis] + 1));
            &&& 0 <= t < next < product(kernel)
            &&& patch.data_field.cell(next, ix) - patch.data_field.cell(t, ix) == (if ix == axis {
                patch.spec.dilations@[ix] as int
            } else {
                0
            })
        }),
{
    let kernel = ints(patch.spec.kernel_shape@);
    let moved = point.update(axis, point[axis] + 1);
    assert(in_grid(kernel, moved));
    crate::grid::lemma_ravel(kernel, point);
    crate::grid::lemma_ravel(kernel, moved);
    crate::grid_laws::later_points_come_later(kernel, point, moved, axis);
    let (t, next) = (ravel(kernel, point), ravel(kernel, moved));
    assert(patch.data_field.cell(t, ix) == patch.spec.tap(t)[ix]);
    assert(patch.data_field.cell(next, ix) == patch.spec.tap(next)[ix]);
    let d = patch.spec.dilations@[ix] as int;
    assert((point[ix] + 1) * d == point[ix] * d + d) by (nonlinear_arith);
}

/// How far the first and the last tap lie from where the strides lead to.
pub proof fn extremes_are_those_of_the_kernel(patch: &Patch, ix: int)
    requires
        patch.wf(),
        0 <= ix < patch.spec.kernel_shape@.len(),
    ensures
        patch.data_field_min_max@[ix].0 == -patch.pad_before@[ix],
        patch.data_field_min_max@[ix].1 - patch.data_field_min_max@[ix].0 == (
        patch.spec.kernel_shape@[ix] - 1) * patch.spec.dilations@[ix],
{
    lemma_fields(patch, ix);
    assert(patch.data_field_min_max@[ix].0 == patch.spec.first_tap(ix));
}

/// The offset of a tap is how far it lies ahead along each axis, in elements of an input that is
/// stored in row-major order; and so far apart lie the inputs of neighbouring places.
pub proof fn offsets_count_the_elements_between(patch: &Patch, t: int)
    requires
        patch.wf(),
        0 <= t < product(ints(patch.spec.kernel_shape@)),
    ensures
        ({
            let spec = patch.spec;
            let n = (spec.input_full_shape@.len() - 2) as nat;
            let h: int = if spec.data_format == DataFormat::NCHW {
                2
            } else {
                1
            };
            let shape = ints(spec.input_full_shape@);
            &&& patch.standard_layout_data_field@[t] == dot(
                Seq::new(n, |ix: int| patch.data_field.cell(t, ix) as int),
                Seq::new(n, |ix: int| product(shape.skip(h + ix + 1))),
            )
            &&& forall|ix: int|
                0 <= ix < n ==> #[trigger] patch.op_strides_times_input_storage_strides@[ix]
                    == spec.strides@[ix] * product(shape.skip(h + ix + 1))
        }),
{
    let spec = &patch.spec;
    let n = spec.rank() as nat;
    shapes_are_those_of_the_input(patch);
    axes_are_told_apart(spec.data_format, spec.input_full_shape@.len() as int, 0);
    let h = spec.data_format.first_spatial_axis();
    let shape = ints(spec.input_full_shape@);
    assert forall|ix: int| 0 <= ix < n implies #[trigger] spec.tap(t)[ix] == patch.data_field.cell(
        t,
        ix,
    ) by {
        assert(patch.data_field.cell(t, ix) == spec.tap(t)[ix]);
    }
    assert(Seq::new(n, |ix: int| patch.data_field.cell(t, ix) as int) =~= spec.tap(t));
    assert(Seq::new(n, |ix: int| product(shape.skip(h + ix + 1))) =~= spec.layout());
    assert(patch.standard_layout_data_field@[t] == spec.tap_offset(t));
    assert forall|ix: int|
        0 <= ix < n implies #[trigger] patch.op_strides_times_input_storage_strides@[ix]
        == spec.strides@[ix] * product(shape.skip(h + ix + 1)) by {
        assert(signed_ints(patch.op_strides_times_input_storage_strides@)[ix]
            == spec.step_layout()[ix]);
        assert(spec.step_layout()[ix] == spec.strides@[ix] * spec.layout()[ix]);
    }
}

/// The valid zone is made of the places from which every tap lies inside of the input, axis by axis.
pub proof fn valid_places_keep_every_tap_inside(patch: &Patch, ix: int, place: int)
    requires
        patch.wf(),
        0 <= ix < patch.spec.input_full_shape@.len() - 2,
    ensures
        ({
            let spec = patch.spec;
            let h: int = if spec.data_format == DataFormat::NCHW {
                2
            } else {
                1
            };
            patch.valid_output_zone@[ix].start <= place < patch.valid_output_zone@[ix].end
                <==> forall|t: int|
                0 <= t < patch.data_field.rows() ==> 0 <= place * spec.strides@[ix]
                    + #[trigger] patch.data_field.cell(t, ix) < spec.input_full_shape@[h + ix]
        }),
{
    let spec = &patch.spec;
    lemma_fields(patch, ix);
    assert(spec.accepts_axis(ix));
    lemma_axis(spec, ix);
    crate::laws::lemma_valid_along(spec, ix, place);
    let pos = place * spec.strides@[ix];
    let (first, last) = lemma_extreme_taps(spec, ix);
    assert(patch.data_field.cell(first, ix) == spec.tap(first)[ix]);
    assert(patch.data_field.cell(last, ix) == spec.tap(last)[ix]);
    if spec.valid_along(ix, place) {
        assert forall|t: int| 0 <= t < patch.data_field.rows() implies 0 <= pos
            + #[trigger] patch.data_field.cell(t, ix) < spec.dim(ix) by {
            lemma_tap(spec, t, ix);
        }
    }
}

/// The valid zone starts at the first place from which the first tap does not lie before the input, and
/// ends at the first one from which the last tap lies after it.
pub proof fn valid_zones_start_and_end_with_the_input(patch: &Patch, ix: int, place: int)
    requires
        patch.wf(),
        0 <= ix < patch.spec.input_full_shape@.len() - 2,
    ensures
        ({
            let spec = patch.spec;
            let h: int = if spec.data_format == DataFormat::NCHW {
                2
            } else {
                1
            };
            let position = place * spec.strides@[ix];
            &&& place < patch.valid_output_zone@[ix].start <==> position
                + patch.data_field_min_max@[ix].0 < 0
            &&& place < patch.valid_output_zone@[ix].end <==> position
                + patch.data_field_min_max@[ix].1 < spec.input_full_shape@[h + ix]
        }),
{
    let spec = &patch.spec;
    lemma_fields(patch, ix);
    assert(spec.accepts_axis(ix));
    assert(patch.data_field_min_max@[ix].0 == spec.first_tap(ix));
    lemma_ceil_div(spec.before(ix), spec.strides@[ix] as int, place);
    lemma_ceil_div(spec.dim(ix) - spec.last_tap(ix), spec.strides@[ix] as int, place);
}

/// A place is valid exactly where every tap lies inside of the input along every axis.
pub proof fn places_are_valid_where_every_tap_is_inside(patch: &Patch, place: Seq<int>)
    requires
        patch.wf(),
        place.len() == patch.spec.input_full_shape@.len() - 2,
    ensures
        ({
            let spec = patch.spec;
            let h: int = if spec.data_format == DataFormat::NCHW {
                2
            } else {
                1
            };
            spec.valid_at(place) <==> forall|t: int, ix: int|
                0 <= t < patch.data_field.rows() && 0 <= ix < place.len() ==> 0 <= place[ix]
                    * spec.strides@[ix] + #[trigger] patch.data_field.cell(t, ix)
                    < spec.input_full_shape@[h + ix]
        }),
{
    let spec = &patch.spec;
    axes_are_told_apart(spec.data_format, spec.input_full_shape@.len() as int, 0);
    let h = spec.data_format.first_spatial_axis();
    let all = forall|t: int, ix: int|
        0 <= t < patch.data_field.rows() && 0 <= ix < place.len() ==> 0 <= place[ix]
            * spec.strides@[ix] + #[trigger] patch.data_field.cell(t, ix)
            < spec.input_full_shape@[h + ix];
    if spec.valid_at(place) {
        assert forall|t: int, ix: int|
            0 <= t < patch.data_field.rows() && 0 <= ix < place.len() implies 0 <= place[ix]
            * spec.strides@[ix] + #[trigger] patch.data_field.cell(t, ix)
            < spec.input_full_shape@[h + ix] by {
            assert(spec.valid_along(ix, place[ix]));
            lemma_tap(spec, t, ix);
        }
    }
    if all {
        assert forall|ix: int| 0 <= ix < spec.rank() implies spec.valid_along(
            ix,
            #[trigger] place[ix],
        ) by {
            let (first, last) = lemma_extreme_taps(spec, ix);
            assert(patch.data_field.cell(first, ix) == spec.tap(first)[ix]);
            assert(patch.data_field.cell(last, ix) == spec.tap(last)[ix]);
        }
    }
}

/// Of a tap that lies outside of the input along some axis nothing is read but that it does; of every
/// other tap an offset is read. There is one reading for each tap of the kernel.
pub proof fn taps_in_the_padding_are_not_read(patch: &Patch, place: Seq<int>, t: int)
    requires
        patch.wf(),
        place.len() == patch.spec.input_full_shape@.len() - 2,
        0 <= t < product(ints(patch.spec.kernel_shape@)),
    ensures
        ({
            let spec = patch.spec;
            let h: int = if spec.data_format == DataFormat::NCHW {
                2
            } else {
                1
            };
            let read = pixels(&spec, place, false);
            &&& read.len() == product(ints(spec.kernel_shape@))
            &&& read[t] is Some <==> forall|ix: int|
                0 <= ix < place.len() ==> 0 <= place[ix] * spec.strides@[ix]
                    + #[trigger] patch.data_field.cell(t, ix) < spec.input_full_shape@[h + ix]
        }),
{
    let spec = &patch.spec;
    axes_are_told_apart(spec.data_format, spec.input_full_shape@.len() as int, 0);
    let h = spec.data_format.first_spatial_axis();
    let position = spec.position(place);
    let all = forall|ix: int|
        0 <= ix < place.len() ==> 0 <= place[ix] * spec.strides@[ix]
            + #[trigger] patch.data_field.cell(t, ix) < spec.input_full_shape@[h + ix];
    if all {
        assert forall|ix: int| 0 <= ix < spec.rank() implies 0 <= #[trigger] position[ix]
            + spec.tap(t)[ix] < spec.dim(ix) by {
            assert(patch.data_field.cell(t, ix) == spec.tap(t)[ix]);
        }
        assert(spec.inside(position, t));
    }
    if spec.inside(position, t) {
        assert forall|ix: int| 0 <= ix < place.len() implies 0 <= place[ix] * spec.strides@[ix]
            + #[trigger] patch.data_field.cell(t, ix) < spec.input_full_shape@[h + ix] by {
            assert(0 <= position[ix] + spec.tap(t)[ix] < spec.dim(ix));
        }
    }
}

proof fn lemma_dot_first(x: int, y: int, a: Seq<int>, b: Seq<int>)
    requires
        a.len() == b.len(),
    ensures
        dot(seq![x] + a, seq![y] + b) == x * y + dot(a, b),
    decreases a.len(),
{
    let (xa, yb) = (seq![x] + a, seq![y] + b);
    if a.len() == 0 {
        reveal_with_fuel(dot, 2);
        assert(xa.drop_last() =~= Seq::<int>::empty());
    } else {
        lemma_dot_first(x, y, a.drop_last(), b.drop_last());
        assert(xa.drop_last() =~= seq![x] + a.drop_last());
        assert(yb.drop_last() =~= seq![y] + b.drop_last());
    }
}

/// The elements before a point are those before its place in the grid, as many times as there are
/// elements at each point.
proof fn lemma_point_offset(dims: Seq<int>, rest: Seq<int>, point: Seq<int>)
    requires
        point.len() == dims.len(),
    ensures
        dot(point, Seq::new(dims.len(), |ix: int| product((dims + rest).skip(ix + 1)))) == ravel(
            dims,
            point,
        ) * product(rest),
    decreases dims.len(),
{
    let layout = Seq::new(dims.len(), |ix: int| product((dims + rest).skip(ix + 1)));
    let inner = product(rest);
    if dims.len() == 0 {
        assert(point =~= Seq::<int>::empty());
        assert(0 * inner == 0);
    } else {
        let (d1, p1) = (dims.skip(1), point.skip(1));
        lemma_point_offset(d1, rest, p1);
        let l1 = Seq::new(d1.len(), |ix: int| product((d1 + rest).skip(ix + 1)));
        assert forall|ix: int| 0 <= ix < d1.len() implies #[trigger] layout[ix + 1] == l1[ix] by {
            assert((dims + rest).skip(ix + 2) =~= (d1 + rest).skip(ix + 1));
        }
        assert(layout =~= seq![layout[0]] + l1);
        assert(point =~= seq![point[0]] + p1);
        lemma_dot_first(point[0], layout[0], p1, l1);
        assert((dims + rest).skip(1) =~= d1 + rest);
        points_of_grids_are_multiplied(d1, rest, 0);
        let (x, p, r) = (point[0], product(d1), ravel(d1, p1));
        assert(x * (p * inner) + r * inner == (x * p + r) * inner) by (nonlinear_arith);
    }
}

/// What is read of a tap that lies inside of the input is the row-major place of its point in the
/// image, counted in elements. It is one of the elements of the image.
pub proof fn offsets_are_places_in_the_image(patch: &Patch, place: Seq<int>, t: int)
    requires
        patch.wf(),
        place.len() == patch.spec.input_full_shape@.len() - 2,
        0 <= t < product(ints(patch.spec.kernel_shape@)),
        pixels(&patch.spec, place, false)[t] is Some,
    ensures
        ({
            let spec = patch.spec;
            let n = spec.input_full_shape@.len() - 2;
            let h: int = if spec.data_format == DataFormat::NCHW {
                2
            } else {
                1
            };
            let shape = ints(spec.input_full_shape@);
            let offset = pixels(&spec, place, false)[t]->Some_0;
            let point = Seq::new(
                n as nat,
                |ix: int| place[ix] * spec.strides@[ix] + patch.data_field.cell(t, ix),
            );
            &&& in_grid(shape.subrange(h, h + n), point)
            &&& offset == ravel(shape.subrange(h, h + n), point) * product(shape.skip(h + n))
            &&& 0 <= offset
            &&& offset + product(shape.skip(h + n)) <= product(shape.skip(h))
            &&& spec.data_format == DataFormat::NCHW ==> offset < product(shape.skip(2))
        }),
{
    let spec = &patch.spec;
    let n = spec.rank();
    axes_are_told_apart(spec.data_format, spec.input_full_shape@.len() as int, 0);
    let h = spec.data_format.first_spatial_axis();
    let shape = ints(spec.input_full_shape@);
    let position = spec.position(place);
    let point = Seq::new(
        n as nat,
        |ix: int| place[ix] * spec.strides@[ix] + patch.data_field.cell(t, ix),
    );
    let dims = shape.subrange(h, h + n);
    let rest = shape.skip(h + n);
    taps_in_the_padding_are_not_read(patch, place, t);
    assert forall|ix: int| 0 <= ix < n implies 0 <= #[trigger] point[ix] < dims[ix] by {
        assert(0 <= place[ix] * spec.strides@[ix] + patch.data_field.cell(t, ix)
            < spec.input_full_shape@[h + ix]);
    }
    let modelled = Seq::new(position.len(), |ix: int| position[ix] + spec.tap(t)[ix]);
    assert(point =~= modelled) by {
        assert forall|ix: int| 0 <= ix < n implies #[trigger] point[ix] == modelled[ix] by {
            assert(patch.data_field.cell(t, ix) == spec.tap(t)[ix]);
        }
    }
    lemma_center(spec, place);
    lemma_pixel(spec, position, t);
    lemma_point_in_image(spec, point);
    lemma_point_offset(dims, rest, point);
    assert forall|ix: int| 0 <= ix < n implies #[trigger] spec.layout()[ix] == product(
        (dims + rest).skip(ix + 1),
    ) by {
        assert((dims + rest).skip(ix + 1) =~= shape.skip(h + ix + 1));
    }
    assert(spec.layout() =~= Seq::new(
        dims.len(),
        |ix: int| product((dims + rest).skip(ix + 1)),
    ));
    if spec.data_format == DataFormat::NCHW {
        assert(rest =~= Seq::<int>::empty());
    }
}

/// A place that is taken as valid has an offset read for every tap: as far from where the strides lead
/// to as the tap lies from there.
pub proof fn places_taken_as_valid_are_not_asked(patch: &Patch, place: Seq<int>, t: int)
    requires
        patch.wf(),
        place.len() == patch.spec.input_full_shape@.len() - 2,
        0 <= t < product(ints(patch.spec.kernel_shape@)),
    ensures
        pixels(&patch.spec, place, true).len() == product(ints(patch.spec.kernel_shape@)),
        pixels(&patch.spec, place, true)[t] == Some(
            dot(place, signed_ints(patch.op_strides_times_input_storage_strides@))
                + patch.standard_layout_data_field@[t],
        ),
        pixels(&patch.spec, place, false)[t] is Some ==> pixels(&patch.spec, place, false)[t]
            == pixels(&patch.spec, place, true)[t],
{
    assert(patch.standard_layout_data_field@[t] == patch.spec.tap_offset(t));
}

/// A hint is believed. Without a hint a place is taken as valid where there is no padding, and
/// otherwise where every tap lies inside of the input.
pub proof fn hints_are_believed(patch: &Patch, place: Seq<int>, hint: bool)
    requires
        patch.wf(),
        place.len() == patch.spec.input_full_shape@.len() - 2,
    ensures
        taken_as_valid(patch, place, Some(hint)) == hint,
        ({
            let spec = patch.spec;
            let h: int = if spec.data_format == DataFormat::NCHW {
                2
            } else {
                1
            };
            taken_as_valid(patch, place, None) <==> !patch.padded || forall|t: int, ix: int|
                0 <= t < patch.data_field.rows() && 0 <= ix < place.len() ==> 0 <= place[ix]
                    * spec.strides@[ix] + #[trigger] patch.data_field.cell(t, ix)
                    < spec.input_full_shape@[h + ix]
        }),
{
    places_are_valid_where_every_tap_is_inside(patch, place);
}

/// Whatever is read at a place of the output, with a hint that is right or without one, lies inside
/// of the image, and a tap that lies in the padding is never read.
pub proof fn readings_stay_in_the_image(
    patch: &Patch,
    place: Seq<int>,
    hint: Option<bool>,
    t: int,
)
    requires
        patch.wf(),
        in_grid(ints(patch.output_spatial_shape@), place),
        hint is None || hint == Some(patch.spec.valid_at(place)),
        0 <= t < product(ints(patch.spec.kernel_shape@)),
    ensures
        ({
            let spec = patch.spec;
            let n = spec.input_full_shape@.len() - 2;
            let h: int = if spec.data_format == DataFormat::NCHW {
                2
            } else {
                1
            };
            let shape = ints(spec.input_full_shape@);
            let read = pixels(&spec, place, taken_as_valid(patch, place, hint));
            &&& read.len() == product(ints(spec.kernel_shape@))
            &&& read[t] is Some <==> forall|ix: int|
                0 <= ix < place.len() ==> 0 <= place[ix] * spec.strides@[ix]
                    + #[trigger] patch.data_field.cell(t, ix) < spec.input_full_shape@[h + ix]
            &&& read[t] is Some ==> 0 <= read[t]->Some_0 && read[t]->Some_0 + product(
                shape.skip(h + n),
            ) <= product(shape.skip(h))
            &&& read[t] is Some && spec.data_format == DataFormat::NCHW ==> read[t]->Some_0
                < product(shape.skip(2))
        }),
{
    let spec = &patch.spec;
    shapes_are_those_of_the_input(patch);
    assert(ints(patch.output_spatial_shape@).len() == patch.output_spatial_shape@.len());
    if taken_as_valid(patch, place, hint) {
        if !patch.padded {
            places_without_padding_are_valid(spec, place);
        }
        valid_places_read_the_same_unasked(spec, place);
    }
    taps_in_the_padding_are_not_read(patch, place, t);
    if pixels(spec, place, false)[t] is Some {
        offsets_are_places_in_the_image(patch, place, t);
    }
}

/// A sum of products fits where the factors on one side are between others and their negatives, and
/// the sum with those fits.
proof fn lemma_between_negatives(a: Seq<int>, reach: Seq<int>, b: Seq<int>)
    requires
        a.len() == reach.len() == b.len(),
        forall|j: int| 0 <= j < a.len() ==> -reach[j] <= #[trigger] a[j] <= reach[j],
        forall|j: int| 0 <= j < b.len() ==> 0 <= #[trigger] b[j],
        dot(reach, b) <= isize::MAX,
    ensures
        dot_fits(a, b),
{
    assert forall|j: int| 0 <= j < reach.len() implies 0 <= #[trigger] reach[j] by {
        assert(-reach[j] <= a[j] <= reach[j]);
    }
    lemma_dot_fits_nonnegative(reach, b);
    let negative = Seq::new(reach.len(), |j: int| -reach[j]);
    assert forall|k: int| 0 <= k < negative.len() implies fits(#[trigger] negative[k] * b[k]) && fits(
        dot(negative.take(k + 1), b.take(k + 1)),
    ) by {
        assert(fits(reach[k] * b[k]));
        assert(negative[k] * b[k] == -(reach[k] * b[k])) by (nonlinear_arith)
            requires
                negative[k] == -reach[k],
        ;
        let zero = Seq::new((k + 1) as nat, |j: int| 0int);
        lemma_dot_monotone(zero, reach.take(k + 1), b.take(k + 1));
        lemma_dot_negative(reach.take(k + 1), b.take(k + 1));
        lemma_dot_zero(b.take(k + 1));
        assert(zero =~= Seq::new(b.take(k + 1).len(), |j: int| 0int));
        assert(negative.take(k + 1) =~= Seq::new((k + 1) as nat, |j: int| -reach.take(k + 1)[j]));
        assert(0 <= reach[k] * b[k]) by (nonlinear_arith)
            requires
                0 <= reach[k],
                0 <= b[k],
        ;
    }
    lemma_dot_fits_between(negative, a, reach, b);
}

proof fn lemma_dot_negative(a: Seq<int>, b: Seq<int>)
    requires
        a.len() == b.len(),
    ensures
        dot(Seq::new(a.len(), |j: int| -a[j]), b) == -dot(a, b),
    decreases a.len(),
{
    if a.len() > 0 {
        let negative = Seq::new(a.len(), |j: int| -a[j]);
        let a1 = a.drop_last();
        lemma_dot_negative(a1, b.drop_last());
        assert(negative.drop_last() =~= Seq::new(a1.len(), |j: int| -a1[j]));
        assert(negative.last() * b.last() == -(a.last() * b.last())) by (nonlinear_arith)
            requires
                negative.last() == -a.last(),
        ;
    }
}

proof fn lemma_dot_zero(b: Seq<int>)
    ensures
        dot(Seq::new(b.len(), |j: int| 0int), b) == 0,
    decreases b.len(),
{
    if b.len() > 0 {
        let zero = Seq::new(b.len(), |j: int| 0int);
        lemma_dot_zero(b.drop_last());
        assert(zero.drop_last() =~= Seq::new(b.drop_last().len(), |j: int| 0int));
        assert(0 * b.last() == 0);
    }
}

/// There is a patch for every kernel that fits into its padded input and is no longer than the input
/// and its padding before, as far as an `isize` counts the input and the offsets.
pub proof fn kernels_that_fit_make_a_patch(spec: PatchSpec)
    requires
        spec.input_full_shape@.len() >= 2,
        spec.kernel_shape@.len() == spec.input_full_shape@.len() - 2,
        spec.strides@.len() == spec.kernel_shape@.len(),
        spec.dilations@.len() == spec.kernel_shape@.len(),
        product(ints(spec.kernel_shape@)) * spec.kernel_shape@.len() <= isize::MAX,
        forall|axis: int|
            1 <= axis <= spec.input_full_shape@.len() ==> #[trigger] product(
                ints(spec.input_full_shape@).skip(axis),
            ) <= isize::MAX,
        forall|ix: int|
            0 <= ix < spec.kernel_shape@.len() ==> {
                let h: int = if spec.data_format == DataFormat::NCHW {
                    2
                } else {
                    1
                };
                let input = spec.input_full_shape@[h + ix];
                let reach = (#[trigger] spec.kernel_shape@[ix] - 1) * spec.dilations@[ix];
                &&& 1 <= spec.kernel_shape@[ix]
                &&& 1 <= spec.strides@[ix]
                &&& reach <= isize::MAX
                &&& spec.before(ix) <= isize::MAX
                &&& reach <= input + spec.before(ix)
                &&& spec.strides@[ix] * product(ints(spec.input_full_shape@).skip(h + ix + 1))
                    <= isize::MAX
                &&& match spec.padding {
                    PaddingSpec::Explicit(before, after) => {
                        &&& ix < before@.len()
                        &&& ix < after@.len()
                        &&& reach < input + before@[ix] + after@[ix] <= usize::MAX
                    },
                    PaddingSpec::Valid => reach < input,
                    _ => 1 <= input && reach + input <= usize::MAX,
                }
            },
        ({
            let h: int = if spec.data_format == DataFormat::NCHW {
                2
            } else {
                1
            };
            let n = spec.kernel_shape@.len();
            dot(
                Seq::new(
                    n,
                    |ix: int|
                        spec.before(ix) + (spec.kernel_shape@[ix] - 1) * spec.dilations@[ix],
                ),
                Seq::new(n, |ix: int| product(ints(spec.input_full_shape@).skip(h + ix + 1))),
            ) <= isize::MAX
        }),
    ensures
        spec.wf(),
{
    let n = spec.kernel_shape@.len();
    axes_are_told_apart(spec.data_format, spec.input_full_shape@.len() as int, 0);
    let h = spec.data_format.first_spatial_axis();
    let shape = ints(spec.input_full_shape@);
    let layout = Seq::new(n, |ix: int| product(shape.skip(h + ix + 1)));
    let reach = Seq::new(
        n,
        |ix: int| spec.before(ix) + (spec.kernel_shape@[ix] - 1) * spec.dilations@[ix],
    );
    assert(spec.layout() =~= layout);
    assert forall|ix: int| 0 <= ix < n implies #[trigger] spec.accepts_axis(ix) && 0 <= layout[ix]
        && 0 <= spec.before(ix) && 0 <= (spec.kernel_shape@[ix] - 1) * spec.dilations@[ix] by {
        let (k, d) = (spec.kernel_shape@[ix] as int, spec.dilations@[ix] as int);
        assert(spec.kernel_shape@[ix] >= 1);
        assert(0 <= (k - 1) * d) by (nonlinear_arith)
            requires
                1 <= k,
                0 <= d,
        ;
        kernels_that_fit_are_accepted(
            spec.padding,
            ix,
            spec.dim(ix),
            k,
            d,
            spec.strides@[ix] as int,
        );
        padding_is_what_was_asked_for(
            spec.padding,
            ix,
            spec.dim(ix),
            k,
            d,
            spec.strides@[ix] as int,
        );
        lemma_product_nonnegative(shape.skip(h + ix + 1));
    }
    assert forall|ix: int| 0 <= ix < n implies 0 <= #[trigger] layout[ix] by {
        assert(spec.accepts_axis(ix));
    }
    assert forall|ix: int| 0 <= ix < n implies fits(
        spec.strides@[ix] * #[trigger] spec.layout()[ix],
    ) by {
        assert(spec.kernel_shape@[ix] >= 1);
        assert(0 <= spec.strides@[ix] * layout[ix]) by (nonlinear_arith)
            requires
                0 <= layout[ix],
                0 <= spec.strides@[ix],
        ;
    }
    assert forall|ix: int| 0 <= ix < n implies -reach[ix] <= #[trigger] spec.first_taps()[ix]
        <= reach[ix] by {
        assert(spec.accepts_axis(ix));
    }
    lemma_between_negatives(spec.first_taps(), reach, layout);
    assert forall|ix: int| 0 <= ix < n implies -reach[ix] <= #[trigger] spec.last_taps()[ix]
        <= reach[ix] by {
        assert(spec.accepts_axis(ix));
    }
    lemma_between_negatives(spec.last_taps(), reach, layout);
}

} // verus!
