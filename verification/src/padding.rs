//! How much padding a window needs along each axis, and how many places it then has.
use crate::arith::{ceil_div, div_ceil, lemma_ceil_div, lemma_ceil_div_bounds};
use vstd::prelude::*;

verus! {

/// The padding around the spatial axes of an input.
#[derive(Debug, PartialEq)]
pub enum PaddingSpec {
    /// So many before and so many after, for each axis.
    Explicit(Vec<usize>, Vec<usize>),
    /// No padding.
    Valid,
    /// As many outputs as the strides leave of the input; an odd rest goes after.
    SameUpper,
    /// As many outputs as the strides leave of the input; an odd rest goes before.
    SameLower,
}

/// What the padding comes to along one axis.
#[derive(Debug, Clone, Copy, PartialEq, Eq, Structural)]
pub struct ComputedPaddedDim {
    pub output: usize,
    pub pad_before: usize,
    pub pad_after: usize,
}

/// How many inputs the kernel spans along one axis.
pub open spec fn kernel_field(kernel: int, dilation: int) -> int {
    (kernel - 1) * dilation + 1
}

/// How much padding leaves as many outputs as the strides leave of the input. A kernel that is
/// shorter than the stride may need none.
pub open spec fn same_padding(input: int, kernel: int, dilation: int, stride: int) -> int {
    let needed = (ceil_div(input, stride) - 1) * stride + kernel_field(kernel, dilation);
    if needed <= input {
        0
    } else {
        needed - input
    }
}

impl PaddingSpec {
    /// The padding before the input along one axis.
    pub open spec fn before(
        self,
        axis: int,
        input: int,
        kernel: int,
        dilation: int,
        stride: int,
    ) -> int {
        let same = same_padding(input, kernel, dilation, stride);
        match self {
            PaddingSpec::Explicit(before, _) => before@[axis] as int,
            PaddingSpec::Valid => 0,
            PaddingSpec::SameUpper => same / 2,
            PaddingSpec::SameLower => same - same / 2,
        }
    }

    /// The padding after the input along one axis.
    pub open spec fn after(
        self,
        axis: int,
        input: int,
        kernel: int,
        dilation: int,
        stride: int,
    ) -> int {
        let same = same_padding(input, kernel, dilation, stride);
        match self {
            PaddingSpec::Explicit(_, after) => after@[axis] as int,
            PaddingSpec::Valid => 0,
            PaddingSpec::SameUpper => same - same / 2,
            PaddingSpec::SameLower => same / 2,
        }
    }

    /// How many places the kernel has along one axis.
    pub open spec fn output(
        self,
        axis: int,
        input: int,
        kernel: int,
        dilation: int,
        stride: int,
    ) -> int {
        match self {
            PaddingSpec::SameUpper => ceil_div(input, stride),
            PaddingSpec::SameLower => ceil_div(input, stride),
            _ => ceil_div(
                input + self.before(axis, input, kernel, dilation, stride) + self.after(
                    axis,
                    input,
                    kernel,
                    dilation,
                    stride,
                ) - kernel_field(kernel, dilation) + 1,
                stride,
            ),
        }
    }

    /// Whether there is a kernel and a stride along one axis, the kernel is no longer than the
    /// padded input and one more, and all of it can be counted.
    pub open spec fn accepts(
        self,
        axis: int,
        input: int,
        kernel: int,
        dilation: int,
        stride: int,
    ) -> bool {
        &&& 1 <= kernel
        &&& 1 <= stride
        &&& kernel_field(kernel, dilation) <= usize::MAX
        &&& match self {
            PaddingSpec::Explicit(before, after) => {
                &&& axis < before@.len()
                &&& axis < after@.len()
                &&& input + before@[axis] + after@[axis] <= usize::MAX
                &&& kernel_field(kernel, dilation) <= input + before@[axis] + after@[axis] + 1
            },
            PaddingSpec::Valid => kernel_field(kernel, dilation) <= input + 1,
            _ => {
                &&& 1 <= input
                &&& (ceil_div(input, stride) - 1) * stride + kernel_field(kernel, dilation)
                    <= usize::MAX
            },
        }
    }

    /// What the padding comes to along each axis.
    pub fn compute(
        &self,
        input: &[usize],
        kernel: &[usize],
        dilations: &[usize],
        strides: &[usize],
    ) -> (dims: Vec<ComputedPaddedDim>)
        requires
            kernel@.len() >= input@.len(),
            dilations@.len() >= input@.len(),
            strides@.len() >= input@.len(),
            forall|ix: int|
                0 <= ix < input@.len() ==> self.accepts(
                    ix,
                    #[trigger] input@[ix] as int,
                    kernel@[ix] as int,
                    dilations@[ix] as int,
                    strides@[ix] as int,
                ),
        ensures
            dims@.len() == input@.len(),
            forall|ix: int|
                0 <= ix < input@.len() ==> {
                    let (i, k, d, s) = (
                        input@[ix] as int,
                        kernel@[ix] as int,
                        dilations@[ix] as int,
                        strides@[ix] as int,
                    );
                    &&& (#[trigger] dims@[ix]).output == self.output(ix, i, k, d, s)
                    &&& dims@[ix].pad_before == self.before(ix, i, k, d, s)
                    &&& dims@[ix].pad_after == self.after(ix, i, k, d, s)
                },
    {
        let mut dims: Vec<ComputedPaddedDim> = Vec::new();
        for ix in 0..input.len()
            invariant
                kernel@.len() >= input@.len(),
                dilations@.len() >= input@.len(),
                strides@.len() >= input@.len(),
                forall|ix: int|
                    0 <= ix < input@.len() ==> self.accepts(
                        ix,
                        #[trigger] input@[ix] as int,
                        kernel@[ix] as int,
                        dilations@[ix] as int,
                        strides@[ix] as int,
                    ),
                dims@.len() == ix,
                forall|ix: int|
                    0 <= ix < dims@.len() ==> {
                        let (i, k, d, s) = (
                            input@[ix] as int,
                            kernel@[ix] as int,
                            dilations@[ix] as int,
                            strides@[ix] as int,
                        );
                        &&& (#[trigger] dims@[ix]).output == self.output(ix, i, k, d, s)
                        &&& dims@[ix].pad_before == self.before(ix, i, k, d, s)
                        &&& dims@[ix].pad_after == self.after(ix, i, k, d, s)
                    },
        {
            let dim = self.compute_one(ix, input[ix], kernel[ix], dilations[ix], strides[ix]);
            dims.push(dim);
        }
        dims
    }

    /// What the padding comes to along one axis.
    pub fn compute_one(
        &self,
        axis: usize,
        input: usize,
        kernel: usize,
        dilation: usize,
        stride: usize,
    ) -> (dim: ComputedPaddedDim)
        requires
            self.accepts(axis as int, input as int, kernel as int, dilation as int, stride as int),
        ensures
            dim.output == self.output(
                axis as int,
                input as int,
                kernel as int,
                dilation as int,
                stride as int,
            ),
            dim.pad_before == self.before(
                axis as int,
                input as int,
                kernel as int,
                dilation as int,
                stride as int,
            ),
            dim.pad_after == self.after(
                axis as int,
                input as int,
                kernel as int,
                dilation as int,
                stride as int,
            ),
            match *self {
                PaddingSpec::Explicit(before, after) => {
                    &&& dim.pad_before == before@[axis as int]
                    &&& dim.pad_after == after@[axis as int]
                },
                PaddingSpec::Valid => dim.pad_before == 0 && dim.pad_after == 0,
                PaddingSpec::SameUpper => dim.pad_before <= dim.pad_after <= dim.pad_before + 1,
                PaddingSpec::SameLower => dim.pad_after <= dim.pad_before <= dim.pad_after + 1,
            },
    {
        match self {
            PaddingSpec::Explicit(before, after) => explicit(
                input,
                kernel,
                dilation,
                stride,
                before[axis],
                after[axis],
            ),
            PaddingSpec::Valid => explicit(input, kernel, dilation, stride, 0, 0),
            PaddingSpec::SameUpper => same(input, kernel, dilation, stride, true),
            PaddingSpec::SameLower => same(input, kernel, dilation, stride, false),
        }
    }
}

/// No padding is none, explicit padding is as given, and the padding that leaves as many outputs as
/// the strides do is shared out evenly, with an odd rest after or before.
pub proof fn padding_is_what_was_asked_for(
    padding: PaddingSpec,
    axis: int,
    input: int,
    kernel: int,
    dilation: int,
    stride: int,
)
    requires
        padding.accepts(axis, input, kernel, dilation, stride),
    ensures
        ({
            let before = padding.before(axis, input, kernel, dilation, stride);
            let after = padding.after(axis, input, kernel, dilation, stride);
            match padding {
                PaddingSpec::Explicit(given_before, given_after) => {
                    before == given_before@[axis] && after == given_after@[axis]
                },
                PaddingSpec::Valid => before == 0 && after == 0,
                PaddingSpec::SameUpper => 0 <= before <= after <= before + 1,
                PaddingSpec::SameLower => 0 <= after <= before <= after + 1,
            }
        }),
{
}

/// A place is one of the outputs exactly where the whole kernel fits into the padded input; or, where
/// the padding is such as the strides ask for, where the strides do not lead out of the input.
pub proof fn outputs_are_the_places_that_fit(
    padding: PaddingSpec,
    axis: int,
    input: int,
    kernel: int,
    dilation: int,
    stride: int,
    place: int,
)
    requires
        padding.accepts(axis, input, kernel, dilation, stride),
    ensures
        ({
            let before = padding.before(axis, input, kernel, dilation, stride);
            let after = padding.after(axis, input, kernel, dilation, stride);
            let output = padding.output(axis, input, kernel, dilation, stride);
            match padding {
                PaddingSpec::Explicit(_, _) | PaddingSpec::Valid => place < output <==> place
                    * stride + (kernel - 1) * dilation < input + before + after,
                PaddingSpec::SameUpper | PaddingSpec::SameLower => place < output <==> place
                    * stride < input,
            }
        }),
{
    lemma_ceil_div(
        input + padding.before(axis, input, kernel, dilation, stride) + padding.after(
            axis,
            input,
            kernel,
            dilation,
            stride,
        ) - kernel_field(kernel, dilation) + 1,
        stride,
        place,
    );
    lemma_ceil_div(input, stride, place);
}

/// Padding that the strides ask for is just enough: at the last output the kernel ends inside of the
/// padded input, and where there is any padding it ends with it.
pub proof fn same_padding_is_just_enough(
    padding: PaddingSpec,
    axis: int,
    input: int,
    kernel: int,
    dilation: int,
    stride: int,
)
    requires
        padding.accepts(axis, input, kernel, dilation, stride),
        padding == PaddingSpec::SameUpper || padding == PaddingSpec::SameLower,
    ensures
        ({
            let padded = input + padding.before(axis, input, kernel, dilation, stride)
                + padding.after(axis, input, kernel, dilation, stride);
            let output = padding.output(axis, input, kernel, dilation, stride);
            let end = (output - 1) * stride + (kernel - 1) * dilation + 1;
            end <= padded && (padded == input || padded == end)
        }),
{
}

/// Every kernel that fits into the padded input is accepted, as far as a `usize` counts it.
pub proof fn kernels_that_fit_are_accepted(
    padding: PaddingSpec,
    axis: int,
    input: int,
    kernel: int,
    dilation: int,
    stride: int,
)
    requires
        1 <= kernel,
        0 <= dilation,
        1 <= stride,
        match padding {
            PaddingSpec::Explicit(before, after) => {
                &&& 0 <= axis < before@.len()
                &&& axis < after@.len()
                &&& (kernel - 1) * dilation < input + before@[axis] + after@[axis] <= usize::MAX
            },
            PaddingSpec::Valid => (kernel - 1) * dilation < input <= usize::MAX,
            _ => 1 <= input && (kernel - 1) * dilation + input <= usize::MAX,
        },
    ensures
        padding.accepts(axis, input, kernel, dilation, stride),
{
    assert(0 <= (kernel - 1) * dilation) by (nonlinear_arith)
        requires
            1 <= kernel,
            0 <= dilation,
    ;
    lemma_ceil_div(input, stride, ceil_div(input, stride) - 1);
}

/// How many inputs the kernel spans.
fn field(kernel: usize, dilation: usize) -> (span: usize)
    requires
        1 <= kernel,
        kernel_field(kernel as int, dilation as int) <= usize::MAX,
    ensures
        span == kernel_field(kernel as int, dilation as int),
{
    assert(0 <= (kernel - 1) * dilation) by (nonlinear_arith)
        requires
            1 <= kernel,
    ;
    (kernel - 1) * dilation + 1
}

/// The places that the kernel has with the padding as given.
fn explicit(
    input: usize,
    kernel: usize,
    dilation: usize,
    stride: usize,
    before: usize,
    after: usize,
) -> (dim: ComputedPaddedDim)
    requires
        1 <= kernel,
        1 <= stride,
        kernel_field(kernel as int, dilation as int) <= usize::MAX,
        input + before + after <= usize::MAX,
        kernel_field(kernel as int, dilation as int) <= input + before + after + 1,
    ensures
        dim.output == ceil_div(
            input + before + after - kernel_field(kernel as int, dilation as int) + 1,
            stride as int,
        ),
        dim.pad_before == before,
        dim.pad_after == after,
{
    let span = field(kernel, dilation);
    assert(1 <= span) by {
        assert(0 <= (kernel - 1) * dilation) by (nonlinear_arith)
            requires
                1 <= kernel,
        ;
    }
    let places = input + before + after - (span - 1);
    ComputedPaddedDim {
        output: div_ceil(places, stride),
        pad_before: before,
        pad_after: after,
    }
}

/// As many places as the strides leave of the input, with the padding that this needs.
fn same(input: usize, kernel: usize, dilation: usize, stride: usize, upper: bool) -> (dim:
    ComputedPaddedDim)
    requires
        1 <= input,
        1 <= kernel,
        1 <= stride,
        kernel_field(kernel as int, dilation as int) <= usize::MAX,
        (ceil_div(input as int, stride as int) - 1) * stride + kernel_field(
            kernel as int,
            dilation as int,
        ) <= usize::MAX,
    ensures
        dim.output == ceil_div(input as int, stride as int),
        ({
            let pad = same_padding(input as int, kernel as int, dilation as int, stride as int);
            if upper {
                dim.pad_before == pad / 2 && dim.pad_after == pad - pad / 2
            } else {
                dim.pad_before == pad - pad / 2 && dim.pad_after == pad / 2
            }
        }),
{
    let output = div_ceil(input, stride);
    let span = field(kernel, dilation);
    proof {
        lemma_ceil_div_bounds(input as int, stride as int);
        assert(1 <= span && 0 <= (output - 1) * stride) by {
            assert(0 <= (kernel - 1) * dilation) by (nonlinear_arith)
                requires
                    1 <= kernel,
            ;
            assert(0 <= (output - 1) * stride) by (nonlinear_arith)
                requires
                    1 <= output,
                    1 <= stride,
            ;
        }
    }
    let needed = (output - 1) * stride + span;
    let pad: usize = if needed <= input {
        0
    } else {
        needed - input
    };
    let half = pad / 2;
    let rest = pad - half;
    if upper {
        ComputedPaddedDim { output, pad_before: half, pad_after: rest }
    } else {
        ComputedPaddedDim { output, pad_before: rest, pad_after: half }
    }
}

} // verus!
