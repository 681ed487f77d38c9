//! The arrays of `ndarray` and the pairing of `itertools`, as far as the patches use them.
use crate::grid::{ints, nonzero_product, product, unravel};
use ndarray::{Array2, Dimension, ShapeError};
use vstd::prelude::*;

verus! {

/// A two-dimensional array of `ndarray` that holds offsets.
#[verifier::external_body]
#[derive(Debug, PartialEq)]
pub struct OffsetArray {
    array: Array2<isize>,
}

/// Why `ndarray` refuses to give a shape to a vector.
#[verifier::external_type_specification]
#[verifier::external_body]
pub struct ExShapeError(ndarray::ShapeError);

/// The elements of the array, row after row.
pub uninterp spec fn array_elems(a: OffsetArray) -> Seq<isize>;

/// The two extents of the array: how many rows, and how many columns.
pub uninterp spec fn array_shape(a: OffsetArray) -> Seq<usize>;

/// Whether a vector of this length can be cut into rows: it has the length that the shape asks for,
/// and the extents that are not zero multiply to no more than an `isize` holds.
pub open spec fn can_be_cut(rows: usize, cols: usize, len: nat) -> bool {
    &&& rows * cols == len
    &&& nonzero_product(ints(seq![rows, cols])) <= isize::MAX
}

impl OffsetArray {
    /// How many rows there are.
    pub open spec fn rows(self) -> int {
        array_shape(self)[0] as int
    }

    /// How many columns there are.
    pub open spec fn cols(self) -> int {
        array_shape(self)[1] as int
    }

    /// The element in one row and one column.
    pub open spec fn cell(self, row: int, col: int) -> isize {
        array_elems(self)[row * self.cols() + col]
    }

    /// `ndarray::Array2::from_shape_vec`: the vector cut into rows. It is refused where it has
    /// another length than the shape asks for, and where the extents that are not zero multiply to
    /// more than an `isize` holds.
    #[verifier::external_body]
    pub(crate) fn from_shape_vec(
        rows: usize,
        cols: usize,
        elems: Vec<isize>,
    ) -> (res: Result<OffsetArray, ShapeError>)
        ensures
            res is Ok == can_be_cut(rows, cols, elems@.len()),
            res is Ok ==> array_shape(res->Ok_0) == seq![rows, cols],
            res is Ok ==> array_elems(res->Ok_0) == elems@,
    {
        Array2::from_shape_vec((rows, cols), elems).map(|array| OffsetArray { array })
    }

    /// `ndarray::ArrayBase::gencolumns`: the columns from left to right, each from top to bottom.
    #[verifier::external_body]
    pub(crate) fn gencolumns(&self) -> (columns: Vec<Vec<isize>>)
        ensures
            columns@.len() == self.cols(),
            forall|j: int| 0 <= j < columns@.len() ==> (#[trigger] columns@[j])@.len() == self.rows(),
            forall|j: int, i: int|
                0 <= j < columns@.len() && 0 <= i < self.rows() ==> #[trigger] columns@[j]@[i]
                    == self.cell(i, j),
    {
        self.array.gencolumns().into_iter().map(|column| column.to_vec()).collect()
    }

    /// `ndarray::ArrayBase::outer_iter`: the rows from top to bottom, each from left to right.
    #[verifier::external_body]
    pub(crate) fn outer_iter(&self) -> (rows: Vec<Vec<isize>>)
        ensures
            rows@.len() == self.rows(),
            forall|i: int| 0 <= i < rows@.len() ==> (#[trigger] rows@[i])@.len() == self.cols(),
            forall|i: int, j: int|
                0 <= i < rows@.len() && 0 <= j < self.cols() ==> #[trigger] rows@[i]@[j]
                    == self.cell(i, j),
    {
        self.array.outer_iter().map(|row| row.to_vec()).collect()
    }

    /// `ndarray::ArrayBase::index`: the element in one row and one column. Outside of the array it
    /// panics.
    #[verifier::external_body]
    pub(crate) fn index(&self, row: usize, col: usize) -> (elem: isize)
        requires
            row < self.rows(),
            col < self.cols(),
        ensures
            elem == self.cell(row as int, col as int),
    {
        self.array[[row, col]]
    }

    /// The rows of the array from top to bottom.
    pub fn to_rows(&self) -> (rows: Vec<Vec<isize>>)
        ensures
            rows@.len() == self.rows(),
            forall|i: int| 0 <= i < rows@.len() ==> (#[trigger] rows@[i])@.len() == self.cols(),
            forall|i: int, j: int|
                0 <= i < rows@.len() && 0 <= j < self.cols() ==> #[trigger] rows@[i]@[j]
                    == self.cell(i, j),
    {
        self.outer_iter()
    }
}

impl Clone for OffsetArray {
    /// `ndarray::ArrayBase::clone`: another array with the same shape and the same elements.
    #[verifier::external_body]
    fn clone(&self) -> (res: Self)
        ensures
            array_shape(res) == array_shape(*self),
            array_elems(res) == array_elems(*self),
    {
        OffsetArray { array: self.array.clone() }
    }
}

/// `ndarray::indices`: every point of a grid of the given shape, in row-major order. It multiplies
/// the extents, so their product has to fit.
#[verifier::external_body]
pub(crate) fn indices(shape: &[usize]) -> (points: Vec<Vec<usize>>)
    requires
        nonzero_product(ints(shape@)) <= usize::MAX,
    ensures
        points@.len() == product(ints(shape@)),
        forall|i: int|
            0 <= i < points@.len() ==> ints((#[trigger] points@[i])@) == unravel(ints(shape@), i),
{
    ndarray::indices(shape).into_iter().map(|point| point.slice().to_vec()).collect()
}

/// `itertools::zip`: the elements of two slices in lock step, until the shorter one ends.
#[verifier::external_body]
pub(crate) fn zip<A: Copy, B: Copy>(a: &[A], b: &[B]) -> (pairs: Vec<(A, B)>)
    ensures
        pairs@.len() == (if a@.len() <= b@.len() { a@.len() } else { b@.len() }),
        forall|i: int| 0 <= i < pairs@.len() ==> #[trigger] pairs@[i] == (a@[i], b@[i]),
{
    itertools::zip(a, b).map(|(x, y)| (*x, *y)).collect()
}

} // verus!
