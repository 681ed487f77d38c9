//! Working out a patch.
use crate::arith::{div_ceil, fits, sum_of_products};
use crate::arrays::{indices, zip, OffsetArray};
use crate::geometry::{
    lemma_axis, lemma_extreme_taps, lemma_layout, lemma_tap, lemma_tap_fits, lemma_taps_positive,
    lemma_valid_zone_bounds,
};
use crate::grid::{ints, lemma_product_nonnegative, nonzero_product, product, signed_ints, unravel};
use crate::patch::{all_bounds, bounds, is_padded, Patch};
use crate::patch_spec::PatchSpec;
use core::ops::Range;
use vstd::prelude::*;

verus! {

/// The offsets of the first `t` taps, tap after tap.
spec fn flat_taps(spec: &PatchSpec, t: int) -> Seq<int>
    decreases t,
{
    if t <= 0 {
        Seq::empty()
    } else {
        flat_taps(spec, t - 1) + spec.tap(t - 1)
    }
}

proof fn lemma_flat_taps_len(spec: &PatchSpec, m: int)
    requires
        0 <= m,
        0 <= spec.rank(),
    ensures
        flat_taps(spec, m).len() == m * spec.rank(),
    decreases m,
{
    if m > 0 {
        lemma_flat_taps_len(spec, m - 1);
        assert((m - 1) * spec.rank() + spec.rank() == m * spec.rank()) by (nonlinear_arith);
    } else {
        assert(0 * spec.rank() == 0);
    }
}

/// The offset of tap `t` along axis `ix` comes at `t` times the rank, and `ix`.
proof fn lemma_flat_taps(spec: &PatchSpec, m: int, t: int, ix: int)
    requires
        0 <= t < m,
        0 <= ix < spec.rank(),
    ensures
        0 <= t * spec.rank() + ix < flat_taps(spec, m).len(),
        flat_taps(spec, m)[t * spec.rank() + ix] == spec.tap(t)[ix],
    decreases m,
{
    lemma_flat_taps_len(spec, m - 1);
    lemma_flat_taps_len(spec, m);
    let n = spec.rank();
    assert(0 <= t * n) by (nonlinear_arith)
        requires
            0 <= t,
            0 <= n,
    ;
    if t < m - 1 {
        lemma_flat_taps(spec, m - 1, t, ix);
    } else {
        assert((m - 1) * n + n == m * n) by (nonlinear_arith);
    }
}

/// The offsets of all taps, tap after tap.
fn tap_offsets(spec: &PatchSpec, points: &Vec<Vec<usize>>, pad_before: &Vec<usize>) -> (flat: Vec<
    isize,
>)
    requires
        spec.wf(),
        points@.len() == spec.taps(),
        forall|t: int|
            0 <= t < spec.taps() ==> ints((#[trigger] points@[t])@) == unravel(
                ints(spec.kernel_shape@),
                t,
            ),
        ints(pad_before@) == Seq::new(spec.rank() as nat, |ix: int| spec.before(ix)),
    ensures
        signed_ints(flat@) == flat_taps(spec, spec.taps()),
{
    let rank = spec.kernel_shape.len();
    let mut flat: Vec<isize> = Vec::new();
    assert(signed_ints(flat@) =~= flat_taps(spec, 0));
    for t in 0..points.len()
        invariant
            spec.wf(),
            rank == spec.rank(),
            points@.len() == spec.taps(),
            forall|t: int|
                0 <= t < spec.taps() ==> ints((#[trigger] points@[t])@) == unravel(
                    ints(spec.kernel_shape@),
                    t,
                ),
            ints(pad_before@) == Seq::new(spec.rank() as nat, |ix: int| spec.before(ix)),
            signed_ints(flat@) == flat_taps(spec, t as int),
    {
        let point = &points[t];
        let ghost u = unravel(ints(spec.kernel_shape@), t as int);
        assert(ints(point@) == u);
        assert(signed_ints(flat@) =~= flat_taps(spec, t as int) + spec.tap(t as int).take(0));
        for ix in 0..rank
            invariant
                spec.wf(),
                rank == spec.rank(),
                0 <= t < spec.taps(),
                u == unravel(ints(spec.kernel_shape@), t as int),
                ints(point@) == u,
                ints(pad_before@) == Seq::new(spec.rank() as nat, |ix: int| spec.before(ix)),
                signed_ints(flat@) == flat_taps(spec, t as int) + spec.tap(t as int).take(
                    ix as int,
                ),
        {
            proof {
                lemma_tap(spec, t as int, ix as int);
                assert(spec.accepts_axis(ix as int));
                lemma_axis(spec, ix as int);
                assert(ints(point@).len() == rank && ints(pad_before@).len() == rank);
                assert(ints(point@)[ix as int] == point@[ix as int]);
                assert(ints(pad_before@)[ix as int] == pad_before@[ix as int]);
            }
            let ghost before = flat@;
            let offset = (point[ix] * spec.dilations[ix]) as isize - pad_before[ix] as isize;
            flat.push(offset);
            proof {
                assert(offset == spec.tap(t as int)[ix as int]);
                assert(signed_ints(flat@) =~= signed_ints(before).push(offset as int));
                assert(spec.tap(t as int).take(ix + 1) =~= spec.tap(t as int).take(ix as int).push(
                    offset as int,
                ));
                assert(signed_ints(flat@) =~= flat_taps(spec, t as int) + spec.tap(t as int).take(
                    ix + 1,
                ));
            }
        }
        assert(spec.tap(t as int).take(rank as int) =~= spec.tap(t as int));
    }
    flat
}

/// The offsets of all taps, one tap in each row.
fn tap_array(spec: &PatchSpec, pad_before: &Vec<usize>) -> (array: OffsetArray)
    requires
        spec.wf(),
        ints(pad_before@) == Seq::new(spec.rank() as nat, |ix: int| spec.before(ix)),
    ensures
        array.rows() == spec.taps(),
        array.cols() == spec.rank(),
        forall|t: int, ix: int|
            0 <= t < spec.taps() && 0 <= ix < spec.rank() ==> #[trigger] array.cell(t, ix)
                == spec.tap(t)[ix],
{
    let rank = spec.kernel_shape.len();
    proof {
        lemma_taps_positive(spec);
        if rank == 0 {
            assert(ints(spec.kernel_shape@) =~= Seq::<int>::empty());
        } else {
            assert(spec.taps() <= spec.taps() * rank) by (nonlinear_arith)
                requires
                    1 <= spec.taps(),
                    1 <= rank,
            ;
        }
    }
    let points = indices(spec.kernel_shape.as_slice());
    let flat = tap_offsets(spec, &points, pad_before);
    let rows = points.len();
    proof {
        lemma_flat_taps_len(spec, spec.taps());
        assert(signed_ints(flat@).len() == flat@.len());
        let shape = ints(seq![rows, rank]);
        assert(shape.skip(1).skip(1) =~= Seq::<int>::empty());
        reveal_with_fuel(nonzero_product, 3);
        assert(shape.skip(1)[0] == rank);
        assert(rank * 1 == rank && rows * 1 == rows);
    }
    let ghost offsets = flat@;
    let array = OffsetArray::from_shape_vec(rows, rank, flat).unwrap();
    proof {
        assert forall|t: int, ix: int|
            0 <= t < spec.taps() && 0 <= ix < spec.rank() implies #[trigger] array.cell(t, ix)
            == spec.tap(t)[ix] by {
            lemma_flat_taps(spec, spec.taps(), t, ix);
            assert(signed_ints(offsets)[t * spec.rank() + ix] == offsets[t * spec.rank() + ix]);
        }
    }
    array
}

/// The least and the greatest of the offsets along one axis.
fn min_max(offsets: &Vec<isize>) -> (res: (isize, isize))
    requires
        offsets@.len() > 0,
    ensures
        offsets@.contains(res.0),
        offsets@.contains(res.1),
        forall|t: int| 0 <= t < offsets@.len() ==> res.0 <= #[trigger] offsets@[t] <= res.1,
{
    let mut min: isize = offsets[0];
    let mut max: isize = offsets[0];
    for k in 1..offsets.len()
        invariant
            offsets@.len() > 0,
            offsets@.contains(min),
            offsets@.contains(max),
            forall|t: int| 0 <= t < k ==> min <= #[trigger] offsets@[t] <= max,
    {
        let offset = offsets[k];
        if offset < min {
            min = offset;
        }
        if max < offset {
            max = offset;
        }
    }
    (min, max)
}

/// The first tap and the last tap along each axis.
fn tap_min_max(spec: &PatchSpec, array: &OffsetArray) -> (res: Vec<(isize, isize)>)
    requires
        spec.wf(),
        array.rows() == spec.taps(),
        array.cols() == spec.rank(),
        forall|t: int, ix: int|
            0 <= t < spec.taps() && 0 <= ix < spec.rank() ==> #[trigger] array.cell(t, ix)
                == spec.tap(t)[ix],
    ensures
        res@.len() == spec.rank(),
        forall|ix: int|
            0 <= ix < spec.rank() ==> (#[trigger] res@[ix]).0 == spec.first_tap(ix) && res@[ix].1
                == spec.last_tap(ix),
{
    let columns = array.gencolumns();
    let mut res: Vec<(isize, isize)> = Vec::new();
    for ix in 0..columns.len()
        invariant
            spec.wf(),
            array.rows() == spec.taps(),
            array.cols() == spec.rank(),
            forall|t: int, ix: int|
                0 <= t < spec.taps() && 0 <= ix < spec.rank() ==> #[trigger] array.cell(t, ix)
                    == spec.tap(t)[ix],
            columns@.len() == spec.rank(),
            forall|j: int|
                0 <= j < columns@.len() ==> (#[trigger] columns@[j])@.len() == array.rows(),
            forall|j: int, i: int|
                0 <= j < columns@.len() && 0 <= i < array.rows() ==> #[trigger] columns@[j]@[i]
                    == array.cell(i, j),
            res@.len() == ix,
            forall|j: int|
                0 <= j < ix ==> (#[trigger] res@[j]).0 == spec.first_tap(j) && res@[j].1
                    == spec.last_tap(j),
    {
        proof {
            lemma_taps_positive(spec);
        }
        let extremes = min_max(&columns[ix]);
        proof {
            let j = ix as int;
            let column = columns@[j]@;
            let (first, last) = lemma_extreme_taps(spec, j);
            assert(column[first] == array.cell(first, j));
            assert(column[last] == array.cell(last, j));
            let lo = choose|i: int| 0 <= i < column.len() && column[i] == extremes.0;
            let hi = choose|i: int| 0 <= i < column.len() && column[i] == extremes.1;
            assert(column[lo] == array.cell(lo, j));
            assert(column[hi] == array.cell(hi, j));
            lemma_tap(spec, lo, j);
            lemma_tap(spec, hi, j);
        }
        res.push(extremes);
    }
    res
}

/// How many elements lie between neighbours along each axis of an array in row-major order.
fn layout_strides(shape: &Vec<usize>) -> (strides: Vec<isize>)
    requires
        shape@.len() > 0,
        forall|axis: int|
            1 <= axis <= shape@.len() ==> #[trigger] product(ints(shape@).skip(axis)) <= isize::MAX,
    ensures
        strides@.len() == shape@.len(),
        forall|axis: int|
            0 <= axis < shape@.len() ==> #[trigger] strides@[axis] == product(
                ints(shape@).skip(axis + 1),
            ),
{
    let rank = shape.len();
    let ghost dims = ints(shape@);
    let mut reversed: Vec<isize> = Vec::new();
    reversed.push(1);
    assert(dims.skip(rank as int) =~= Seq::<int>::empty());
    let mut previous: isize = 1;
    for k in 1..rank
        invariant
            rank == shape@.len(),
            dims == ints(shape@),
            forall|axis: int|
                1 <= axis <= rank ==> #[trigger] product(dims.skip(axis)) <= isize::MAX,
            reversed@.len() == k,
            previous == product(dims.skip(rank - k + 1)),
            forall|i: int| 0 <= i < k ==> #[trigger] reversed@[i] == product(dims.skip(rank - i)),
    {
        let dim = shape[rank - k];
        proof {
            let tail = dims.skip(rank - k);
            assert(tail.skip(1) =~= dims.skip(rank - k + 1));
            assert(tail[0] == dim);
            assert(product(tail) == dim * previous);
            lemma_product_nonnegative(dims.skip(rank - k + 1));
            if previous == 0 {
                let wrapped = dim as isize;
                assert(wrapped * previous == 0 && dim * previous == 0) by (nonlinear_arith)
                    requires
                        previous == 0,
                ;
            } else {
                assert(dim <= dim * previous) by (nonlinear_arith)
                    requires
                        1 <= previous,
                        0 <= dim,
                ;
            }
        }
        previous = dim as isize * previous;
        reversed.push(previous);
    }
    let mut strides: Vec<isize> = Vec::new();
    for k in 0..rank
        invariant
            rank == shape@.len(),
            dims == ints(shape@),
            reversed@.len() == rank,
            forall|i: int| 0 <= i < rank ==> #[trigger] reversed@[i] == product(dims.skip(rank - i)),
            strides@.len() == k,
            forall|axis: int|
                0 <= axis < k ==> #[trigger] strides@[axis] == product(dims.skip(axis + 1)),
    {
        assert(reversed@[rank - 1 - k] == product(dims.skip(k + 1)));
        strides.push(reversed[rank - 1 - k]);
    }
    strides
}

/// The places of a part of a vector.
fn part(v: &Vec<isize>, range: Range<usize>) -> (res: Vec<isize>)
    requires
        range.start <= range.end <= v@.len(),
    ensures
        res@ == v@.subrange(range.start as int, range.end as int),
{
    let mut res: Vec<isize> = Vec::new();
    res.extend_from_slice(&v[range]);
    res
}

/// Where each tap lies in the input, from the input that the strides lead to, where the input is
/// stored in row-major order.
fn tap_layout(spec: &PatchSpec, array: &OffsetArray, layout: &Vec<isize>) -> (res: Vec<isize>)
    requires
        spec.wf(),
        array.rows() == spec.taps(),
        array.cols() == spec.rank(),
        forall|t: int, ix: int|
            0 <= t < spec.taps() && 0 <= ix < spec.rank() ==> #[trigger] array.cell(t, ix)
                == spec.tap(t)[ix],
        signed_ints(layout@) == spec.layout(),
    ensures
        res@.len() == spec.taps(),
        forall|t: int|
            0 <= t < spec.taps() ==> #[trigger] res@[t] == spec.tap_offset(t),
{
    let rows = array.outer_iter();
    let mut res: Vec<isize> = Vec::new();
    for t in 0..rows.len()
        invariant
            spec.wf(),
            array.rows() == spec.taps(),
            array.cols() == spec.rank(),
            forall|t: int, ix: int|
                0 <= t < spec.taps() && 0 <= ix < spec.rank() ==> #[trigger] array.cell(t, ix)
                    == spec.tap(t)[ix],
            signed_ints(layout@) == spec.layout(),
            rows@.len() == spec.taps(),
            forall|i: int| 0 <= i < rows@.len() ==> (#[trigger] rows@[i])@.len() == array.cols(),
            forall|i: int, j: int|
                0 <= i < rows@.len() && 0 <= j < array.cols() ==> #[trigger] rows@[i]@[j]
                    == array.cell(i, j),
            res@.len() == t,
            forall|i: int| 0 <= i < t ==> #[trigger] res@[i] == spec.tap_offset(i),
    {
        proof {
            let row = rows@[t as int]@;
            assert forall|j: int| 0 <= j < row.len() implies row[j] == #[trigger] spec.tap(
                t as int,
            )[j] by {
                assert(rows@[t as int]@[j] == array.cell(t as int, j));
            }
            assert(signed_ints(row) =~= spec.tap(t as int));
            lemma_tap_fits(spec, t as int);
            assert(signed_ints(layout@).len() == layout@.len());
        }
        let offset = sum_of_products(rows[t].as_slice(), layout.as_slice());
        res.push(offset);
    }
    res
}

/// How many elements of the input lie between the inputs that neighbouring places lead to.
fn stride_layout(spec: &PatchSpec, layout: &Vec<isize>) -> (res: Vec<isize>)
    requires
        spec.wf(),
        signed_ints(layout@) == spec.layout(),
    ensures
        signed_ints(res@) == spec.step_layout(),
{
    let pairs = zip(spec.strides.as_slice(), layout.as_slice());
    let mut res: Vec<isize> = Vec::new();
    assert(signed_ints(layout@).len() == layout@.len());
    for ix in 0..pairs.len()
        invariant
            spec.wf(),
            signed_ints(layout@) == spec.layout(),
            layout@.len() == spec.rank(),
            pairs@.len() == spec.rank(),
            forall|i: int|
                0 <= i < pairs@.len() ==> #[trigger] pairs@[i] == (spec.strides@[i], layout@[i]),
            res@.len() == ix,
            forall|i: int|
                0 <= i < ix ==> #[trigger] res@[i] == spec.strides@[i] * spec.layout()[i],
    {
        let (stride, step) = pairs[ix];
        proof {
            lemma_layout(spec);
            assert(pairs@[ix as int] == (spec.strides@[ix as int], layout@[ix as int]));
            assert(signed_ints(layout@)[ix as int] == step);
            assert(fits(spec.strides@[ix as int] * spec.layout()[ix as int]));
            if step == 0 {
                let wrapped = stride as isize;
                assert(wrapped * step == 0 && stride * step == 0) by (nonlinear_arith)
                    requires
                        step == 0,
                ;
            } else {
                assert(stride <= stride * step) by (nonlinear_arith)
                    requires
                        1 <= step,
                        0 <= stride,
                ;
            }
        }
        res.push(stride as isize * step);
    }
    assert(signed_ints(res@) =~= spec.step_layout());
    res
}

/// Whether any of the counts is not zero.
fn any_nonzero(counts: &Vec<usize>) -> (res: bool)
    ensures
        res == exists|ix: int| 0 <= ix < counts@.len() && #[trigger] counts@[ix] != 0,
{
    for ix in 0..counts.len()
        invariant
            forall|i: int| 0 <= i < ix ==> #[trigger] counts@[i] == 0,
    {
        if counts[ix] != 0 {
            return true;
        }
    }
    false
}

/// The zone that leaves the valid places along the next axis, between two bounds.
fn leaving_zone(
    spec: &PatchSpec,
    valid: &Vec<Range<usize>>,
    start: usize,
    end: usize,
    output: &Vec<usize>,
) -> (zone: Vec<Range<usize>>)
    requires
        valid@.len() < spec.rank(),
        bounds(valid@) == spec.valid_zone().take(valid@.len() as int),
        ints(output@) == spec.output_shape(),
    ensures
        bounds(zone@) == spec.zone_from(valid@.len() as int, start as int, end as int),
{
    let ghost n = spec.rank();
    let ghost target = spec.zone_from(valid@.len() as int, start as int, end as int);
    let mut zone: Vec<Range<usize>> = Vec::new();
    for ix in 0..valid.len()
        invariant
            n == spec.rank(),
            valid@.len() < n,
            zone@.len() == ix,
            forall|j: int| 0 <= j < ix ==> #[trigger] zone@[j] == valid@[j],
    {
        let r = &valid[ix];
        zone.push(r.start..r.end);
    }
    zone.push(start..end);
    assert(ints(output@).len() == output@.len());
    proof {
        assert forall|j: int| 0 <= j < zone@.len() implies #[trigger] bounds(zone@)[j]
            == target[j] by {
            if j < valid@.len() {
                assert(bounds(valid@)[j] == spec.valid_zone()[j]);
            }
        }
    }
    while zone.len() < output.len()
        invariant
            n == spec.rank(),
            valid@.len() < n,
            output@.len() == n,
            ints(output@) == spec.output_shape(),
            target == spec.zone_from(valid@.len() as int, start as int, end as int),
            valid@.len() < zone@.len() <= n,
            forall|j: int| 0 <= j < zone@.len() ==> #[trigger] bounds(zone@)[j] == target[j],
        decreases n - zone@.len(),
    {
        let ghost before = zone@;
        let ix = zone.len();
        zone.push(0..output[ix]);
        proof {
            assert(ints(output@)[ix as int] == output@[ix as int]);
            assert forall|j: int| 0 <= j < zone@.len() implies #[trigger] bounds(zone@)[j]
                == target[j] by {
                if j < ix {
                    assert(bounds(before)[j] == target[j]);
                }
            }
        }
    }
    assert(bounds(zone@) =~= target);
    zone
}

/// The valid places, and the zones that leave them.
fn zones(
    spec: &PatchSpec,
    dims: &[usize],
    extremes: &Vec<(isize, isize)>,
    output: &Vec<usize>,
) -> (res: (Vec<Range<usize>>, Vec<Vec<Range<usize>>>))
    requires
        spec.wf(),
        dims@.len() == spec.rank(),
        forall|ix: int| 0 <= ix < spec.rank() ==> #[trigger] dims@[ix] == spec.dim(ix),
        extremes@.len() == spec.rank(),
        forall|ix: int|
            0 <= ix < spec.rank() ==> (#[trigger] extremes@[ix]).0 == spec.first_tap(ix)
                && extremes@[ix].1 == spec.last_tap(ix),
        ints(output@) == spec.output_shape(),
    ensures
        bounds(res.0@) == spec.valid_zone(),
        all_bounds(res.1@) == spec.invalid_zones(spec.rank()),
{
    let mut valid: Vec<Range<usize>> = Vec::new();
    let mut invalid: Vec<Vec<Range<usize>>> = Vec::new();
    assert(bounds(valid@) =~= spec.valid_zone().take(0));
    assert(all_bounds(invalid@) =~= spec.invalid_zones(0));
    assert(ints(output@).len() == output@.len());
    for ix in 0..dims.len()
        invariant
            spec.wf(),
            dims@.len() == spec.rank(),
            forall|ix: int| 0 <= ix < spec.rank() ==> #[trigger] dims@[ix] == spec.dim(ix),
            extremes@.len() == spec.rank(),
            forall|ix: int|
                0 <= ix < spec.rank() ==> (#[trigger] extremes@[ix]).0 == spec.first_tap(ix)
                    && extremes@[ix].1 == spec.last_tap(ix),
            output@.len() == spec.rank(),
            ints(output@) == spec.output_shape(),
            valid@.len() == ix,
            bounds(valid@) == spec.valid_zone().take(ix as int),
            all_bounds(invalid@) == spec.invalid_zones(ix as int),
    {
        let ghost axis = ix as int;
        proof {
            assert(spec.accepts_axis(axis));
            lemma_axis(spec, axis);
            lemma_valid_zone_bounds(spec, axis);
            assert(extremes@[axis].0 == spec.first_tap(axis));
            assert(dims@[axis] == spec.dim(axis));
            assert(ints(output@)[axis] == output@[axis]);
        }
        let (first, last) = extremes[ix];
        let stride = spec.strides[ix];
        let start = div_ceil((-first) as usize, stride);
        let reach: usize = if last >= 0 {
            dims[ix] - last as usize
        } else {
            dims[ix] + (-last) as usize
        };
        let end = div_ceil(reach, stride);
        assert(start == spec.valid_start(axis) && end == spec.valid_end(axis));
        let ghost known = invalid@;
        if start != 0 {
            invalid.push(leaving_zone(spec, &valid, 0, start, output));
        }
        let ghost with_low = invalid@;
        if end < output[ix] {
            invalid.push(leaving_zone(spec, &valid, end, output[ix], output));
        }
        let ghost earlier = valid@;
        valid.push(start..end);
        proof {
            let low = if start != 0 {
                seq![spec.zone_from(axis, 0, start as int)]
            } else {
                Seq::empty()
            };
            let high = if end < output@[axis] {
                seq![spec.zone_from(axis, end as int, output@[axis] as int)]
            } else {
                Seq::empty()
            };
            assert(all_bounds(with_low) =~= all_bounds(known) + low);
            assert(all_bounds(invalid@) =~= all_bounds(with_low) + high);
            assert(spec.invalid_zones_at(axis) =~= low + high);
            assert(all_bounds(invalid@) =~= spec.invalid_zones(axis) + spec.invalid_zones_at(axis));
            assert(bounds(valid@) =~= bounds(earlier).push((start as int, end as int)));
            assert(bounds(valid@) =~= spec.valid_zone().take(axis + 1));
        }
    }
    assert(spec.valid_zone().take(spec.rank()) =~= spec.valid_zone());
    (valid, invalid)
}

impl PatchSpec {
    /// Works out the patch.
    pub fn into_patch(self) -> (patch: Patch)
        requires
            self.wf(),
        ensures
            patch.spec == self,
            patch.wf(),
    {
        let ghost n = self.rank() as nat;
        let mut full_shape: Vec<usize> = Vec::new();
        full_shape.extend_from_slice(self.input_full_shape.as_slice());
        let input_shape = self.data_format.shape(full_shape);
        assert(input_shape.shape@ =~= self.input_full_shape@);
        let dims = input_shape.hw_dims();
        assert forall|ix: int| 0 <= ix < n implies #[trigger] dims@[ix] == self.dim(ix)
            && self.accepts_axis(ix) by {
            assert(self.accepts_axis(ix));
        }
        let padded_dims = self.padding.compute(
            dims,
            self.kernel_shape.as_slice(),
            self.dilations.as_slice(),
            self.strides.as_slice(),
        );

        let mut output: Vec<usize> = Vec::new();
        let mut pad_before: Vec<usize> = Vec::new();
        let mut pad_after: Vec<usize> = Vec::new();
        for ix in 0..padded_dims.len()
            invariant
                n == self.rank(),
                padded_dims@.len() == n,
                dims@.len() == n,
                forall|ix: int| 0 <= ix < n ==> #[trigger] dims@[ix] == self.dim(ix),
                forall|ix: int|
                    0 <= ix < n ==> {
                        let (i, k, d, s) = (
                            dims@[ix] as int,
                            self.kernel_shape@[ix] as int,
                            self.dilations@[ix] as int,
                            self.strides@[ix] as int,
                        );
                        &&& (#[trigger] padded_dims@[ix]).output == self.padding.output(
                            ix,
                            i,
                            k,
                            d,
                            s,
                        )
                        &&& padded_dims@[ix].pad_before == self.padding.before(ix, i, k, d, s)
                        &&& padded_dims@[ix].pad_after == self.padding.after(ix, i, k, d, s)
                    },
                output@.len() == ix,
                pad_before@.len() == ix,
                pad_after@.len() == ix,
                forall|j: int| 0 <= j < ix ==> #[trigger] output@[j] == self.output(j),
                forall|j: int| 0 <= j < ix ==> #[trigger] pad_before@[j] == self.before(j),
                forall|j: int| 0 <= j < ix ==> #[trigger] pad_after@[j] == self.after(j),
        {
            let dim = padded_dims[ix];
            assert(dims@[ix as int] == self.dim(ix as int));
            output.push(dim.output);
            pad_before.push(dim.pad_before);
            pad_after.push(dim.pad_after);
        }
        assert(ints(output@) =~= self.output_shape());
        assert(ints(pad_before@) =~= Seq::new(n, |ix: int| self.before(ix)));
        assert(ints(pad_after@) =~= Seq::new(n, |ix: int| self.after(ix)));

        let data_field = tap_array(&self, &pad_before);
        let data_field_min_max = tap_min_max(&self, &data_field);

        let axis_strides = layout_strides(&input_shape.shape);
        let layout = part(&axis_strides, input_shape.hw_axes());
        assert(signed_ints(layout@) =~= self.layout());
        let standard_layout_data_field = tap_layout(&self, &data_field, &layout);
        let op_strides_times_input_storage_strides = stride_layout(&self, &layout);

        let (valid_output_zone, invalid_output_zones) = zones(
            &self,
            dims,
            &data_field_min_max,
            &output,
        );

        let padded = any_nonzero(&pad_before) || any_nonzero(&pad_after);
        assert(padded == is_padded(&self)) by {
            assert(forall|ix: int| 0 <= ix < n ==> pad_before@[ix] == #[trigger] self.before(ix));
            assert(forall|ix: int| 0 <= ix < n ==> pad_after@[ix] == #[trigger] self.after(ix));
        }

        Patch {
            spec: self,
            padded,
            pad_before,
            pad_after,
            input_shape,
            output_spatial_shape: output,
            data_field,
            data_field_min_max,
            standard_layout_data_field,
            op_strides_times_input_storage_strides,
            valid_output_zone,
            invalid_output_zones,
        }
    }
}

} // verus!
