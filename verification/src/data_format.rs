//! Where the axes of an image tensor stand.
use core::ops::Range;
use vstd::prelude::*;

verus! {

/// The order of the axes of an image tensor: batch, channels, and the spatial axes.
#[derive(Debug, Clone, Copy, PartialEq, Eq, Structural)]
pub enum DataFormat {
    /// Batch, channels, spatial axes.
    NCHW,
    /// Batch, spatial axes, channels.
    NHWC,
}

impl DataFormat {
    /// The first spatial axis.
    pub open spec fn first_spatial_axis(self) -> int {
        match self {
            DataFormat::NCHW => 2,
            DataFormat::NHWC => 1,
        }
    }

    /// The channel axis of a tensor of the given rank.
    pub open spec fn channel_axis(self, rank: int) -> int {
        match self {
            DataFormat::NCHW => 1,
            DataFormat::NHWC => rank - 1,
        }
    }

    /// Reads a shape in this format.
    pub fn shape(&self, shape: Vec<usize>) -> (res: DataShape)
        ensures
            res.fmt == *self,
            res.shape == shape,
    {
        DataShape { fmt: *self, shape }
    }
}

/// A shape together with the order of its axes.
#[derive(Debug, PartialEq)]
pub struct DataShape {
    pub fmt: DataFormat,
    pub shape: Vec<usize>,
}

impl DataShape {
    /// A batch axis and a channel axis, and then spatial axes.
    pub open spec fn wf(&self) -> bool {
        self.shape@.len() >= 2
    }

    /// How many spatial axes there are.
    pub open spec fn spatial_rank(&self) -> int {
        self.shape@.len() - 2
    }

    /// The extents along the spatial axes.
    pub open spec fn spatial_dims(&self) -> Seq<usize> {
        let h = self.fmt.first_spatial_axis();
        self.shape@.subrange(h, h + self.spatial_rank())
    }

    /// The channel axis.
    pub fn c_axis(&self) -> (axis: usize)
        requires
            self.wf(),
        ensures
            axis == self.fmt.channel_axis(self.shape@.len() as int),
            self.fmt == DataFormat::NCHW ==> axis == 1,
            self.fmt == DataFormat::NHWC ==> axis == self.shape@.len() - 1,
    {
        match self.fmt {
            DataFormat::NCHW => 1,
            DataFormat::NHWC => self.shape.len() - 1,
        }
    }

    /// The first spatial axis.
    pub fn h_axis(&self) -> (axis: usize)
        ensures
            axis == self.fmt.first_spatial_axis(),
            self.fmt == DataFormat::NCHW ==> axis == 2,
            self.fmt == DataFormat::NHWC ==> axis == 1,
    {
        match self.fmt {
            DataFormat::NCHW => 2,
            DataFormat::NHWC => 1,
        }
    }

    /// The spatial axes.
    pub fn hw_axes(&self) -> (axes: Range<usize>)
        requires
            self.wf(),
        ensures
            axes.start == self.fmt.first_spatial_axis(),
            axes.end == self.fmt.first_spatial_axis() + self.spatial_rank(),
            self.fmt == DataFormat::NCHW ==> axes.start == 2 && axes.end == self.shape@.len(),
            self.fmt == DataFormat::NHWC ==> axes.start == 1 && axes.end == self.shape@.len() - 1,
    {
        let h = self.h_axis();
        h..h + (self.shape.len() - 2)
    }

    /// The extents along the spatial axes.
    pub fn hw_dims(&self) -> (dims: &[usize])
        requires
            self.wf(),
        ensures
            dims@ == self.spatial_dims(),
            self.fmt == DataFormat::NCHW ==> dims@ == self.shape@.skip(2),
            self.fmt == DataFormat::NHWC ==> dims@ == self.shape@.skip(1).drop_last(),
    {
        &self.shape[self.hw_axes()]
    }
}

/// The axes of a tensor are the batch, the channels and the spatial axes, and each axis is one of
/// them alone. The channels come before the spatial axes, or after them, as the format says.
pub proof fn axes_are_told_apart(fmt: DataFormat, rank: int, axis: int)
    requires
        2 <= rank,
        0 <= axis < rank,
    ensures
        ({
            let (c, h) = (fmt.channel_axis(rank), fmt.first_spatial_axis());
            let (batch, channels, spatial) = (axis == 0, axis == c, h <= axis < h + rank - 2);
            &&& batch || channels || spatial
            &&& !(batch && channels) && !(channels && spatial) && !(spatial && batch)
            &&& spatial ==> (fmt == DataFormat::NCHW <==> c < axis)
            &&& spatial ==> (fmt == DataFormat::NHWC <==> axis < c)
        }),
        fmt.first_spatial_axis() == (if fmt == DataFormat::NCHW {
            2int
        } else {
            1
        }),
{
}

/// The spatial extents are those of the shape that are neither the batch nor the channels, in their
/// order.
pub proof fn spatial_extents_keep_their_order(shape: DataShape)
    requires
        shape.wf(),
    ensures
        shape.fmt == DataFormat::NCHW ==> shape.spatial_dims() == shape.shape@.skip(2),
        shape.fmt == DataFormat::NHWC ==> shape.spatial_dims() == shape.shape@.skip(1).drop_last(),
{
    assert(shape.fmt == DataFormat::NCHW ==> shape.spatial_dims() =~= shape.shape@.skip(2));
    assert(shape.fmt == DataFormat::NHWC ==> shape.spatial_dims()
        =~= shape.shape@.skip(1).drop_last());
}

} // verus!
