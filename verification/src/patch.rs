//! A patch: where the taps of a kernel fall, at every place that the kernel has over its input.
use crate::arith::fits;
use crate::arrays::OffsetArray;
use crate::data_format::{DataFormat, DataShape};
use crate::geometry::lemma_axis;
use crate::grid::{ints, signed_ints};
use crate::patch_spec::{Bounds, PatchSpec};
use core::ops::Range;
use vstd::prelude::*;

verus! {

/// The geometry of a [`PatchSpec`], worked out.
#[derive(Debug, PartialEq)]
pub struct Patch {
    pub spec: PatchSpec,
    pub pad_before: Vec<usize>,
    pub pad_after: Vec<usize>,
    pub padded: bool,
    pub input_shape: DataShape,
    pub output_spatial_shape: Vec<usize>,
    pub data_field: OffsetArray,
    pub data_field_min_max: Vec<(isize, isize)>,
    pub standard_layout_data_field: Vec<isize>,
    pub op_strides_times_input_storage_strides: Vec<isize>,
    pub valid_output_zone: Vec<Range<usize>>,
    pub invalid_output_zones: Vec<Vec<Range<usize>>>,
}

/// The bounds of a zone.
pub open spec fn bounds(zone: Seq<Range<usize>>) -> Bounds {
    Seq::new(zone.len(), |ix: int| (zone[ix].start as int, zone[ix].end as int))
}

/// The bounds of each zone.
pub open spec fn all_bounds(zones: Seq<Vec<Range<usize>>>) -> Seq<Bounds> {
    Seq::new(zones.len(), |z: int| bounds(zones[z]@))
}

/// Whether there is any padding.
pub open spec fn is_padded(spec: &PatchSpec) -> bool {
    ||| exists|ix: int| 0 <= ix < spec.rank() && #[trigger] spec.before(ix) != 0
    ||| exists|ix: int| 0 <= ix < spec.rank() && #[trigger] spec.after(ix) != 0
}

impl Patch {
    /// Every field is what follows from the [`PatchSpec`].
    pub open spec fn wf(&self) -> bool {
        let spec = self.spec;
        let n = spec.rank() as nat;
        &&& spec.wf()
        &&& self.input_shape.fmt == spec.data_format
        &&& self.input_shape.shape@ == spec.input_full_shape@
        &&& ints(self.pad_before@) == Seq::new(n, |ix: int| spec.before(ix))
        &&& ints(self.pad_after@) == Seq::new(n, |ix: int| spec.after(ix))
        &&& self.padded == is_padded(&spec)
        &&& ints(self.output_spatial_shape@) == spec.output_shape()
        &&& self.data_field.rows() == spec.taps()
        &&& self.data_field.cols() == n
        &&& forall|t: int, ix: int|
            0 <= t < spec.taps() && 0 <= ix < n ==> #[trigger] self.data_field.cell(t, ix)
                == spec.tap(t)[ix]
        &&& self.data_field_min_max@.len() == n
        &&& forall|ix: int|
            0 <= ix < n ==> (#[trigger] self.data_field_min_max@[ix]).0 == spec.first_tap(ix)
                && self.data_field_min_max@[ix].1 == spec.last_tap(ix)
        &&& self.standard_layout_data_field@.len() == spec.taps()
        &&& forall|t: int|
            0 <= t < spec.taps() ==> #[trigger] self.standard_layout_data_field@[t]
                == spec.tap_offset(t)
        &&& signed_ints(self.op_strides_times_input_storage_strides@) == spec.step_layout()
        &&& bounds(self.valid_output_zone@) == spec.valid_zone()
        &&& all_bounds(self.invalid_output_zones@) == spec.invalid_zones(spec.rank())
    }
}

impl Patch {
    /// The shape of the output with so many channels.
    pub fn output_full_shape(&self, channels: usize) -> (shape: Vec<usize>)
        requires
            self.wf(),
        ensures
            shape@.len() == self.spec.input_full_shape@.len(),
            forall|axis: int|
                0 <= axis < shape@.len() ==> #[trigger] shape@[axis] == ({
                    let h = self.spec.data_format.first_spatial_axis();
                    if axis == self.spec.data_format.channel_axis(shape@.len() as int) {
                        channels as int
                    } else if h <= axis < h + self.spec.rank() {
                        self.spec.output(axis - h)
                    } else {
                        self.spec.input_full_shape@[axis] as int
                    }
                }),
            shape@[0] == self.spec.input_full_shape@[0],
            self.spec.data_format == DataFormat::NCHW ==> shape@[1] == channels && shape@.skip(2)
                == self.output_spatial_shape@,
            self.spec.data_format == DataFormat::NHWC ==> shape@.last() == channels && shape@.skip(
                1,
            ).drop_last() == self.output_spatial_shape@,
    {
        let mut shape: Vec<usize> = Vec::new();
        shape.extend_from_slice(self.input_shape.shape.as_slice());
        assert(shape@ =~= self.spec.input_full_shape@);
        let c = self.input_shape.c_axis();
        let h = self.input_shape.h_axis();
        let rank = shape.len();
        shape[c] = channels;
        assert(ints(self.output_spatial_shape@).len() == self.output_spatial_shape@.len());
        for ix in 0..self.output_spatial_shape.len()
            invariant
                self.wf(),
                self.output_spatial_shape@.len() == self.spec.rank(),
                ints(self.output_spatial_shape@) == self.spec.output_shape(),
                rank == shape@.len(),
                h == self.spec.data_format.first_spatial_axis(),
                c == self.spec.data_format.channel_axis(shape@.len() as int),
                shape@.len() == self.spec.input_full_shape@.len(),
                forall|axis: int|
                    0 <= axis < shape@.len() ==> #[trigger] shape@[axis] == (if axis == c {
                        channels as int
                    } else if h <= axis < h + ix {
                        self.spec.output(axis - h)
                    } else {
                        self.spec.input_full_shape@[axis] as int
                    }),
        {
            assert(ints(self.output_spatial_shape@)[ix as int] == self.output_spatial_shape@[ix as int]);
            shape[h + ix] = self.output_spatial_shape[ix];
        }
        proof {
            assert forall|ix: int| 0 <= ix < self.spec.rank() implies #[trigger] shape@[h + ix]
                == self.output_spatial_shape@[ix] by {
                assert(ints(self.output_spatial_shape@)[ix] == self.output_spatial_shape@[ix]);
                assert(shape@[h + ix] == self.spec.output(ix));
            }
            if self.spec.data_format == DataFormat::NCHW {
                assert(shape@.skip(2) =~= self.output_spatial_shape@);
            } else {
                assert(shape@.skip(1).drop_last() =~= self.output_spatial_shape@);
            }
        }
        shape
    }

    /// Whether every tap lies inside of the input at a place.
    pub fn is_valid(&self, coords: &[usize]) -> (valid: bool)
        requires
            self.wf(),
            coords@.len() >= self.spec.rank(),
            forall|ix: int|
                0 <= ix < self.spec.rank() ==> self.spec.place_fits(
                    ix,
                    #[trigger] coords@[ix] as int,
                ),
        ensures
            valid == self.spec.valid_at(ints(coords@)),
            valid <==> forall|ix: int|
                0 <= ix < self.data_field_min_max@.len() ==> {
                    let position = coords@[ix] * self.spec.strides@[ix];
                    let dim = self.input_shape.shape@[self.input_shape.fmt.first_spatial_axis() + ix];
                    &&& 0 <= position + (#[trigger] self.data_field_min_max@[ix]).0
                    &&& position + self.data_field_min_max@[ix].1 < dim
                },
    {
        let dims = self.input_shape.hw_dims();
        let ghost place = ints(coords@);
        for ix in 0..dims.len()
            invariant
                self.wf(),
                dims@ == self.input_shape.spatial_dims(),
                dims@.len() == self.spec.rank(),
                coords@.len() >= self.spec.rank(),
                place == ints(coords@),
                forall|ix: int|
                    0 <= ix < self.spec.rank() ==> self.spec.place_fits(
                        ix,
                        #[trigger] coords@[ix] as int,
                    ),
                forall|j: int| 0 <= j < ix ==> self.spec.valid_along(j, #[trigger] place[j]),
        {
            let ghost axis = ix as int;
            proof {
                assert(self.spec.accepts_axis(axis));
                lemma_axis(&self.spec, axis);
                assert(self.spec.place_fits(axis, coords@[axis] as int));
                lemma_product_fits(coords@[axis], self.spec.strides@[axis]);
                assert(self.data_field_min_max@[axis].0 == self.spec.first_tap(axis));
                assert(dims@[axis] == self.spec.dim(axis));
                assert(place[axis] == coords@[axis]);
            }
            let pos = coords[ix] as isize * self.spec.strides[ix] as isize;
            let (first, last) = self.data_field_min_max[ix];
            if pos + first < 0 || (pos + last >= 0 && (pos + last) as usize >= dims[ix]) {
                assert(!self.spec.valid_along(axis, place[axis]));
                return false;
            }
        }
        proof {
            assert forall|ix: int| 0 <= ix < self.data_field_min_max@.len() implies {
                let position = coords@[ix] * self.spec.strides@[ix];
                let dim = self.input_shape.shape@[self.input_shape.fmt.first_spatial_axis() + ix];
                &&& 0 <= position + (#[trigger] self.data_field_min_max@[ix]).0
                &&& position + self.data_field_min_max@[ix].1 < dim
            } by {
                assert(place[ix] == coords@[ix]);
                assert(self.spec.valid_along(ix, place[ix]));
            }
        }
        true
    }
}

/// A product that an `isize` holds is that of the factors as an `isize` holds them.
pub proof fn lemma_product_fits(a: usize, b: usize)
    requires
        fits(a * b),
    ensures
        (a as isize) * (b as isize) == a * b,
{
    let (x, y) = (a as isize, b as isize);
    if a == 0 || b == 0 {
        assert(x * y == 0 && a * b == 0) by (nonlinear_arith)
            requires
                (a == 0 && x == 0) || (b == 0 && y == 0),
        ;
    } else {
        assert(a <= a * b && b <= a * b) by (nonlinear_arith)
            requires
                1 <= a,
                1 <= b,
        ;
    }
}

} // verus!
