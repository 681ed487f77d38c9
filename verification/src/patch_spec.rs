//! What a patch is made from, and the geometry that follows from it.
use crate::arith::{ceil_div, dot, dot_fits, fits};
use crate::data_format::DataFormat;
use crate::grid::{ints, product, unravel};
use crate::padding::{kernel_field, PaddingSpec};
use vstd::prelude::*;

verus! {

/// An input, and a kernel that is moved over its spatial axes.
#[derive(Debug, PartialEq)]
pub struct PatchSpec {
    pub data_format: DataFormat,
    pub input_full_shape: Vec<usize>,
    pub kernel_shape: Vec<usize>,
    pub strides: Vec<usize>,
    pub dilations: Vec<usize>,
    pub padding: PaddingSpec,
}

/// A box of places: for each axis the first one, and the one after the last.
pub type Bounds = Seq<(int, int)>;

impl PatchSpec {
    /// How many spatial axes there are.
    pub open spec fn rank(&self) -> int {
        self.input_full_shape@.len() - 2
    }

    /// The extent of the input along a spatial axis.
    pub open spec fn dim(&self, ix: int) -> int {
        self.input_full_shape@[self.data_format.first_spatial_axis() + ix] as int
    }

    /// The padding before the input along a spatial axis.
    pub open spec fn before(&self, ix: int) -> int {
        self.padding.before(
            ix,
            self.dim(ix),
            self.kernel_shape@[ix] as int,
            self.dilations@[ix] as int,
            self.strides@[ix] as int,
        )
    }

    /// The padding after the input along a spatial axis.
    pub open spec fn after(&self, ix: int) -> int {
        self.padding.after(
            ix,
            self.dim(ix),
            self.kernel_shape@[ix] as int,
            self.dilations@[ix] as int,
            self.strides@[ix] as int,
        )
    }

    /// How many places the kernel has along a spatial axis.
    pub open spec fn output(&self, ix: int) -> int {
        self.padding.output(
            ix,
            self.dim(ix),
            self.kernel_shape@[ix] as int,
            self.dilations@[ix] as int,
            self.strides@[ix] as int,
        )
    }

    /// The places of the kernel, as a grid.
    pub open spec fn output_shape(&self) -> Seq<int> {
        Seq::new(self.rank() as nat, |ix: int| self.output(ix))
    }

    /// How far the first tap of the kernel lies behind the input that the strides lead to.
    pub open spec fn first_tap(&self, ix: int) -> int {
        -self.before(ix)
    }

    /// How far the last tap of the kernel lies ahead of the input that the strides lead to.
    pub open spec fn last_tap(&self, ix: int) -> int {
        (self.kernel_shape@[ix] - 1) * self.dilations@[ix] - self.before(ix)
    }

    /// The first tap along each axis.
    pub open spec fn first_taps(&self) -> Seq<int> {
        Seq::new(self.rank() as nat, |ix: int| self.first_tap(ix))
    }

    /// The last tap along each axis.
    pub open spec fn last_taps(&self) -> Seq<int> {
        Seq::new(self.rank() as nat, |ix: int| self.last_tap(ix))
    }

    /// How many taps the kernel has.
    pub open spec fn taps(&self) -> int {
        product(ints(self.kernel_shape@))
    }

    /// Where tap `t` lies along each axis, from the input that the strides lead to. The taps are
    /// counted in row-major order.
    pub open spec fn tap(&self, t: int) -> Seq<int> {
        let point = unravel(ints(self.kernel_shape@), t);
        Seq::new(
            self.rank() as nat,
            |ix: int| point[ix] * self.dilations@[ix] + self.first_tap(ix),
        )
    }

    /// How many elements of the input lie between neighbours along each spatial axis, where the
    /// input is stored in row-major order.
    pub open spec fn layout(&self) -> Seq<int> {
        let h = self.data_format.first_spatial_axis();
        Seq::new(
            self.rank() as nat,
            |ix: int| product(ints(self.input_full_shape@).skip(h + ix + 1)),
        )
    }

    /// How many elements of the input lie between the inputs that neighbouring places lead to.
    pub open spec fn step_layout(&self) -> Seq<int> {
        Seq::new(self.rank() as nat, |ix: int| self.strides@[ix] * self.layout()[ix])
    }

    /// Where in the input the strides lead to from a place.
    pub open spec fn center(&self, place: Seq<int>) -> int {
        dot(place, self.step_layout())
    }

    /// Where in the input tap `t` lies, from where the strides lead to.
    pub open spec fn tap_offset(&self, t: int) -> int {
        dot(self.tap(t), self.layout())
    }

    /// The input that the strides lead to from a place, along each axis.
    pub open spec fn position(&self, place: Seq<int>) -> Seq<int> {
        Seq::new(self.rank() as nat, |ix: int| place[ix] * self.strides@[ix])
    }

    /// Whether tap `t` lies inside of the input, from a position.
    pub open spec fn inside(&self, position: Seq<int>, t: int) -> bool {
        forall|ix: int|
            0 <= ix < self.rank() ==> 0 <= #[trigger] position[ix] + self.tap(t)[ix] < self.dim(ix)
    }

    /// The first place along an axis at which no tap lies before the input.
    pub open spec fn valid_start(&self, ix: int) -> int {
        ceil_div(self.before(ix), self.strides@[ix] as int)
    }

    /// The first place along an axis at which some tap lies after the input.
    pub open spec fn valid_end(&self, ix: int) -> int {
        ceil_div(self.dim(ix) - self.last_tap(ix), self.strides@[ix] as int)
    }

    /// The places at which every tap lies inside of the input.
    pub open spec fn valid_zone(&self) -> Bounds {
        Seq::new(self.rank() as nat, |ix: int| (self.valid_start(ix), self.valid_end(ix)))
    }

    /// The places that are valid along the axes before `ix`, lie between `start` and `end` along
    /// `ix`, and anywhere along the axes after it.
    pub open spec fn zone_from(&self, ix: int, start: int, end: int) -> Bounds {
        Seq::new(
            self.rank() as nat,
            |j: int|
                if j < ix {
                    (self.valid_start(j), self.valid_end(j))
                } else if j == ix {
                    (start, end)
                } else {
                    (0, self.output(j))
                },
        )
    }

    /// The zones that leave the valid places along axis `ix` first: those before the valid places
    /// and those after them, as far as there are any.
    pub open spec fn invalid_zones_at(&self, ix: int) -> Seq<Bounds> {
        let low = if self.valid_start(ix) != 0 {
            seq![self.zone_from(ix, 0, self.valid_start(ix))]
        } else {
            Seq::empty()
        };
        let high = if self.valid_end(ix) < self.output(ix) {
            seq![self.zone_from(ix, self.valid_end(ix), self.output(ix))]
        } else {
            Seq::empty()
        };
        low + high
    }

    /// The zones that leave the valid places along one of the first `n` axes.
    pub open spec fn invalid_zones(&self, n: int) -> Seq<Bounds>
        decreases n,
    {
        if n <= 0 {
            Seq::empty()
        } else {
            self.invalid_zones(n - 1) + self.invalid_zones_at(n - 1)
        }
    }

    /// Whether every tap lies inside of the input along one axis, at a place along that axis.
    pub open spec fn valid_along(&self, ix: int, place: int) -> bool {
        let pos = place * self.strides@[ix];
        0 <= pos + self.first_tap(ix) && pos + self.last_tap(ix) < self.dim(ix)
    }

    /// Whether every tap lies inside of the input at a place.
    pub open spec fn valid_at(&self, place: Seq<int>) -> bool {
        forall|ix: int| 0 <= ix < self.rank() ==> self.valid_along(ix, #[trigger] place[ix])
    }

    /// Whether an `isize` holds where the taps lie along one axis, at a place along that axis.
    pub open spec fn place_fits(&self, ix: int, place: int) -> bool {
        let pos = place * self.strides@[ix];
        fits(pos) && fits(pos + self.last_tap(ix))
    }

    /// Whether the padding can be computed along an axis, the taps can be counted from the input,
    /// and the last tap does not lie further ahead than the whole input.
    pub open spec fn accepts_axis(&self, ix: int) -> bool {
        &&& self.padding.accepts(
            ix,
            self.dim(ix),
            self.kernel_shape@[ix] as int,
            self.dilations@[ix] as int,
            self.strides@[ix] as int,
        )
        &&& kernel_field(self.kernel_shape@[ix] as int, self.dilations@[ix] as int) - 1
            <= isize::MAX
        &&& self.before(ix) <= isize::MAX
        &&& self.last_tap(ix) <= self.dim(ix)
    }

    /// Whether there is a patch: the shapes go together, every axis is accepted, and the offsets
    /// are such that an `isize` holds them.
    pub open spec fn wf(&self) -> bool {
        let n = self.rank();
        &&& 0 <= n
        &&& self.kernel_shape@.len() == n
        &&& self.dilations@.len() >= n
        &&& self.strides@.len() >= n
        &&& forall|ix: int| 0 <= ix < n ==> #[trigger] self.accepts_axis(ix)
        &&& self.taps() * n <= isize::MAX
        &&& forall|axis: int|
            1 <= axis <= self.input_full_shape@.len() ==> #[trigger] product(
                ints(self.input_full_shape@).skip(axis),
            ) <= isize::MAX
        &&& forall|ix: int|
            0 <= ix < n ==> fits(self.strides@[ix] * #[trigger] self.layout()[ix])
        &&& dot_fits(self.first_taps(), self.layout())
        &&& dot_fits(self.last_taps(), self.layout())
    }

    /// A kernel of one tap, moved over the spatial axes of an input one by one, without padding.
    pub fn for_full_shape(data_format: DataFormat, input_full_shape: &[usize]) -> (res: PatchSpec)
        requires
            input_full_shape@.len() >= 2,
        ensures
            res.data_format == data_format,
            res.input_full_shape@ == input_full_shape@,
            res.kernel_shape@ == Seq::new(
                (input_full_shape@.len() - 2) as nat,
                |ix: int| 1usize,
            ),
            res.strides@ == res.kernel_shape@,
            res.dilations@ == res.kernel_shape@,
            res.padding == PaddingSpec::Valid,
    {
        let rank = input_full_shape.len() - 2;
        let mut shape: Vec<usize> = Vec::new();
        shape.extend_from_slice(input_full_shape);
        let res = PatchSpec {
            data_format,
            kernel_shape: vec![1; rank],
            strides: vec![1; rank],
            dilations: vec![1; rank],
            input_full_shape: shape,
            padding: PaddingSpec::Valid,
        };
        res
    }

    /// The same with another kernel.
    pub fn with_kernel_shape(self, kernel_shape: Vec<usize>) -> (res: PatchSpec)
        ensures
            res == (PatchSpec { kernel_shape, ..self }),
    {
        PatchSpec { kernel_shape, ..self }
    }

    /// The same with other dilations.
    pub fn with_dilations(self, dilations: Vec<usize>) -> (res: PatchSpec)
        ensures
            res == (PatchSpec { dilations, ..self }),
    {
        PatchSpec { dilations, ..self }
    }

    /// The same with other strides.
    pub fn with_strides(self, strides: Vec<usize>) -> (res: PatchSpec)
        ensures
            res == (PatchSpec { strides, ..self }),
    {
        PatchSpec { strides, ..self }
    }

    /// The same with another padding.
    pub fn with_padding(self, padding: PaddingSpec) -> (res: PatchSpec)
        ensures
            res == (PatchSpec { padding, ..self }),
    {
        PatchSpec { padding, ..self }
    }
}

} // verus!
