//! Copies of patches, and of what they are made from.
use crate::arrays::{array_elems, array_shape};
use crate::data_format::DataShape;
use crate::padding::PaddingSpec;
use crate::patch::{all_bounds, bounds, is_padded, Patch};
use crate::patch_spec::PatchSpec;
use core::ops::Range;
use vstd::prelude::*;

verus! {

impl PaddingSpec {
    /// Whether two paddings are the same.
    pub open spec fn same_as(self, other: PaddingSpec) -> bool {
        match (self, other) {
            (PaddingSpec::Explicit(a, b), PaddingSpec::Explicit(c, d)) => a@ == c@ && b@ == d@,
            (PaddingSpec::Valid, PaddingSpec::Valid) => true,
            (PaddingSpec::SameUpper, PaddingSpec::SameUpper) => true,
            (PaddingSpec::SameLower, PaddingSpec::SameLower) => true,
            _ => false,
        }
    }
}

impl PatchSpec {
    /// Whether two inputs and their kernels are the same.
    pub open spec fn same_as(self, other: PatchSpec) -> bool {
        &&& self.data_format == other.data_format
        &&& self.input_full_shape@ == other.input_full_shape@
        &&& self.kernel_shape@ == other.kernel_shape@
        &&& self.strides@ == other.strides@
        &&& self.dilations@ == other.dilations@
        &&& self.padding.same_as(other.padding)
    }
}

impl Patch {
    /// Whether two patches are the same.
    pub open spec fn same_as(self, other: Patch) -> bool {
        &&& self.spec.same_as(other.spec)
        &&& self.pad_before@ == other.pad_before@
        &&& self.pad_after@ == other.pad_after@
        &&& self.padded == other.padded
        &&& self.input_shape.fmt == other.input_shape.fmt
        &&& self.input_shape.shape@ == other.input_shape.shape@
        &&& self.output_spatial_shape@ == other.output_spatial_shape@
        &&& array_shape(self.data_field) == array_shape(other.data_field)
        &&& array_elems(self.data_field) == array_elems(other.data_field)
        &&& self.data_field_min_max@ == other.data_field_min_max@
        &&& self.standard_layout_data_field@ == other.standard_layout_data_field@
        &&& self.op_strides_times_input_storage_strides@
            == other.op_strides_times_input_storage_strides@
        &&& bounds(self.valid_output_zone@) == bounds(other.valid_output_zone@)
        &&& all_bounds(self.invalid_output_zones@) == all_bounds(other.invalid_output_zones@)
    }
}

fn counts(v: &Vec<usize>) -> (res: Vec<usize>)
    ensures
        res@ == v@,
{
    let res = v.clone();
    assert(res@ =~= v@);
    res
}

fn offsets(v: &Vec<isize>) -> (res: Vec<isize>)
    ensures
        res@ == v@,
{
    let res = v.clone();
    assert(res@ =~= v@);
    res
}

fn pairs(v: &Vec<(isize, isize)>) -> (res: Vec<(isize, isize)>)
    ensures
        res@ == v@,
{
    let mut res: Vec<(isize, isize)> = Vec::new();
    for i in 0..v.len()
        invariant
            res@ == v@.take(i as int),
    {
        let (low, high) = v[i];
        res.push((low, high));
        assert(res@ =~= v@.take(i + 1));
    }
    assert(v@.take(v@.len() as int) =~= v@);
    res
}

fn zone(v: &Vec<Range<usize>>) -> (res: Vec<Range<usize>>)
    ensures
        bounds(res@) == bounds(v@),
{
    let mut res: Vec<Range<usize>> = Vec::new();
    for i in 0..v.len()
        invariant
            res@.len() == i,
            forall|j: int|
                0 <= j < i ==> (#[trigger] res@[j]).start == v@[j].start && res@[j].end == v@[j].end,
    {
        res.push(v[i].start..v[i].end);
    }
    assert(bounds(res@) =~= bounds(v@));
    res
}

fn zones(v: &Vec<Vec<Range<usize>>>) -> (res: Vec<Vec<Range<usize>>>)
    ensures
        all_bounds(res@) == all_bounds(v@),
{
    let mut res: Vec<Vec<Range<usize>>> = Vec::new();
    for i in 0..v.len()
        invariant
            res@.len() == i,
            forall|j: int| 0 <= j < i ==> bounds((#[trigger] res@[j])@) == bounds(v@[j]@),
    {
        res.push(zone(&v[i]));
    }
    assert(all_bounds(res@) =~= all_bounds(v@));
    res
}

impl Clone for PaddingSpec {
    fn clone(&self) -> (res: Self)
        ensures
            res.same_as(*self),
            match *self {
                PaddingSpec::Explicit(before, after) => {
                    &&& res is Explicit
                    &&& res->Explicit_0@ == before@
                    &&& res->Explicit_1@ == after@
                },
                _ => res == *self,
            },
    {
        match self {
            PaddingSpec::Explicit(before, after) => PaddingSpec::Explicit(
                counts(before),
                counts(after),
            ),
            PaddingSpec::Valid => PaddingSpec::Valid,
            PaddingSpec::SameUpper => PaddingSpec::SameUpper,
            PaddingSpec::SameLower => PaddingSpec::SameLower,
        }
    }
}

impl Clone for PatchSpec {
    fn clone(&self) -> (res: Self)
        ensures
            res.same_as(*self),
            res.wf() == self.wf(),
            res.data_format == self.data_format,
            res.input_full_shape@ == self.input_full_shape@,
            res.kernel_shape@ == self.kernel_shape@,
            res.strides@ == self.strides@,
            res.dilations@ == self.dilations@,
    {
        let res = PatchSpec {
            data_format: self.data_format,
            input_full_shape: counts(&self.input_full_shape),
            kernel_shape: counts(&self.kernel_shape),
            strides: counts(&self.strides),
            dilations: counts(&self.dilations),
            padding: self.padding.clone(),
        };
        proof {
            same_specs_make_the_same_patch(&res, self);
        }
        res
    }
}

impl Clone for DataShape {
    fn clone(&self) -> (res: Self)
        ensures
            res.fmt == self.fmt,
            res.shape@ == self.shape@,
    {
        DataShape { fmt: self.fmt, shape: counts(&self.shape) }
    }
}

impl Clone for Patch {
    fn clone(&self) -> (res: Self)
        ensures
            res.same_as(*self),
            res.wf() == self.wf(),
            res.pad_before@ == self.pad_before@,
            res.pad_after@ == self.pad_after@,
            res.output_spatial_shape@ == self.output_spatial_shape@,
            res.data_field_min_max@ == self.data_field_min_max@,
            res.standard_layout_data_field@ == self.standard_layout_data_field@,
            res.op_strides_times_input_storage_strides@ == self.op_strides_times_input_storage_strides@,
            res.padded == self.padded,
            res.valid_output_zone@.len() == self.valid_output_zone@.len(),
            res.invalid_output_zones@.len() == self.invalid_output_zones@.len(),
            forall|row: int, col: int| #[trigger]
                res.data_field.cell(row, col) == self.data_field.cell(row, col),
    {
        let res = Patch {
            spec: self.spec.clone(),
            pad_before: counts(&self.pad_before),
            pad_after: counts(&self.pad_after),
            padded: self.padded,
            input_shape: self.input_shape.clone(),
            output_spatial_shape: counts(&self.output_spatial_shape),
            data_field: self.data_field.clone(),
            data_field_min_max: pairs(&self.data_field_min_max),
            standard_layout_data_field: offsets(&self.standard_layout_data_field),
            op_strides_times_input_storage_strides: offsets(
                &self.op_strides_times_input_storage_strides,
            ),
            valid_output_zone: zone(&self.valid_output_zone),
            invalid_output_zones: zones(&self.invalid_output_zones),
        };
        proof {
            the_same_has_the_same_parts(res, *self);
            if self.wf() {
                lemma_same_patches(&res, self);
            }
            if res.wf() {
                lemma_same_patches(self, &res);
            }
        }
        res
    }
}

/// What is the same has the same parts, down to each number.
pub proof fn the_same_has_the_same_parts(a: Patch, b: Patch)
    requires
        a.same_as(b),
    ensures
        a.spec.data_format == b.spec.data_format,
        a.spec.input_full_shape@ == b.spec.input_full_shape@,
        a.spec.kernel_shape@ == b.spec.kernel_shape@,
        a.spec.strides@ == b.spec.strides@,
        a.spec.dilations@ == b.spec.dilations@,
        match a.spec.padding {
            PaddingSpec::Explicit(before, after) => {
                &&& b.spec.padding is Explicit
                &&& b.spec.padding->Explicit_0@ == before@
                &&& b.spec.padding->Explicit_1@ == after@
            },
            _ => b.spec.padding == a.spec.padding,
        },
        a.pad_before@ == b.pad_before@,
        a.pad_after@ == b.pad_after@,
        a.padded == b.padded,
        a.input_shape.fmt == b.input_shape.fmt,
        a.input_shape.shape@ == b.input_shape.shape@,
        a.output_spatial_shape@ == b.output_spatial_shape@,
        array_shape(a.data_field) == array_shape(b.data_field),
        array_elems(a.data_field) == array_elems(b.data_field),
        a.data_field_min_max@ == b.data_field_min_max@,
        a.standard_layout_data_field@ == b.standard_layout_data_field@,
        a.op_strides_times_input_storage_strides@ == b.op_strides_times_input_storage_strides@,
        a.valid_output_zone@.len() == b.valid_output_zone@.len(),
        forall|ix: int|
            0 <= ix < a.valid_output_zone@.len() ==> (#[trigger] a.valid_output_zone@[ix]).start
                == b.valid_output_zone@[ix].start && a.valid_output_zone@[ix].end
                == b.valid_output_zone@[ix].end,
        a.invalid_output_zones@.len() == b.invalid_output_zones@.len(),
        forall|z: int|
            0 <= z < a.invalid_output_zones@.len() ==> (#[trigger] a.invalid_output_zones@[z])@.len()
                == b.invalid_output_zones@[z]@.len(),
        forall|z: int, ix: int|
            0 <= z < a.invalid_output_zones@.len() && 0 <= ix < a.invalid_output_zones@[z]@.len()
                ==> (#[trigger] a.invalid_output_zones@[z]@[ix]).start
                == b.invalid_output_zones@[z]@[ix].start && a.invalid_output_zones@[z]@[ix].end
                == b.invalid_output_zones@[z]@[ix].end,
{
    let (va, vb) = (a.valid_output_zone@, b.valid_output_zone@);
    let (ia, ib) = (a.invalid_output_zones@, b.invalid_output_zones@);
    assert(bounds(va).len() == va.len() && bounds(vb).len() == vb.len());
    assert forall|ix: int| 0 <= ix < va.len() implies (#[trigger] va[ix]).start == vb[ix].start
        && va[ix].end == vb[ix].end by {
        assert(bounds(va)[ix] == bounds(vb)[ix]);
    }
    assert(all_bounds(ia).len() == ia.len() && all_bounds(ib).len() == ib.len());
    assert forall|z: int| 0 <= z < ia.len() implies (#[trigger] ia[z])@.len() == ib[z]@.len() by {
        assert(all_bounds(ia)[z] == all_bounds(ib)[z]);
        assert(bounds(ia[z]@).len() == bounds(ib[z]@).len());
    }
    assert forall|z: int, ix: int| 0 <= z < ia.len() && 0 <= ix < ia[z]@.len() implies (
    #[trigger] ia[z]@[ix]).start == ib[z]@[ix].start && ia[z]@[ix].end == ib[z]@[ix].end by {
        assert(all_bounds(ia)[z] == all_bounds(ib)[z]);
        assert(bounds(ia[z]@)[ix] == bounds(ib[z]@)[ix]);
    }
}

/// The same along one axis.
proof fn lemma_same_axis(a: &PatchSpec, b: &PatchSpec, ix: int)
    requires
        a.same_as(*b),
    ensures
        a.dim(ix) == b.dim(ix),
        a.before(ix) == b.before(ix),
        a.after(ix) == b.after(ix),
        a.output(ix) == b.output(ix),
        a.last_tap(ix) == b.last_tap(ix),
        a.valid_start(ix) == b.valid_start(ix),
        a.valid_end(ix) == b.valid_end(ix),
        a.accepts_axis(ix) == b.accepts_axis(ix),
{
}

/// Whatever follows from an input and a kernel follows from a copy of them.
pub proof fn same_specs_make_the_same_patch(a: &PatchSpec, b: &PatchSpec)
    requires
        a.same_as(*b),
    ensures
        a.wf() == b.wf(),
        a.taps() == b.taps(),
        a.output_shape() == b.output_shape(),
        a.layout() == b.layout(),
        a.step_layout() == b.step_layout(),
        forall|t: int| #[trigger] a.tap(t) == b.tap(t),
        forall|t: int| #[trigger] a.tap_offset(t) == b.tap_offset(t),
        a.valid_zone() == b.valid_zone(),
        a.invalid_zones(a.rank()) == b.invalid_zones(b.rank()),
        is_padded(a) == is_padded(b),
{
    assert forall|ix: int| #[trigger] a.output(ix) == b.output(ix) by {
        lemma_same_axis(a, b, ix);
    }
    assert forall|ix: int| #[trigger] a.first_tap(ix) == b.first_tap(ix) by {
        lemma_same_axis(a, b, ix);
    }
    assert forall|ix: int| #[trigger] a.last_tap(ix) == b.last_tap(ix) by {
        lemma_same_axis(a, b, ix);
    }
    assert forall|ix: int| #[trigger] a.accepts_axis(ix) == b.accepts_axis(ix) by {
        lemma_same_axis(a, b, ix);
    }
    assert(a.output_shape() =~= b.output_shape());
    assert(a.layout() =~= b.layout());
    assert(a.step_layout() =~= b.step_layout());
    assert(a.first_taps() =~= b.first_taps());
    assert(a.last_taps() =~= b.last_taps());
    assert forall|t: int| #[trigger] a.tap(t) == b.tap(t) by {
        assert(a.tap(t) =~= b.tap(t));
    }
    assert(a.valid_zone() =~= b.valid_zone()) by {
        assert forall|ix: int| 0 <= ix < a.rank() implies #[trigger] a.valid_zone()[ix]
            == b.valid_zone()[ix] by {
            lemma_same_axis(a, b, ix);
        }
    }
    lemma_same_zones(a, b, a.rank());
    assert(forall|ix: int| a.accepts_axis(ix) == #[trigger] b.accepts_axis(ix));
    if is_padded(a) {
        lemma_same_padded(a, b);
    }
    if is_padded(b) {
        lemma_same_padded(b, a);
    }
}

proof fn lemma_same_zones(a: &PatchSpec, b: &PatchSpec, n: int)
    requires
        a.same_as(*b),
    ensures
        a.invalid_zones(n) == b.invalid_zones(n),
    decreases n,
{
    if n > 0 {
        let ix = n - 1;
        lemma_same_zones(a, b, ix);
        lemma_same_axis(a, b, ix);
        lemma_same_zone_from(a, b, ix, 0, a.valid_start(ix));
        lemma_same_zone_from(a, b, ix, a.valid_end(ix), a.output(ix));
    }
}

proof fn lemma_same_zone_from(a: &PatchSpec, b: &PatchSpec, ix: int, start: int, end: int)
    requires
        a.same_as(*b),
    ensures
        a.zone_from(ix, start, end) == b.zone_from(ix, start, end),
{
    assert forall|j: int| 0 <= j < a.rank() implies #[trigger] a.zone_from(ix, start, end)[j]
        == b.zone_from(ix, start, end)[j] by {
        lemma_same_axis(a, b, j);
    }
    assert(a.zone_from(ix, start, end) =~= b.zone_from(ix, start, end));
}

/// Padding is padding of a copy.
proof fn lemma_same_padded(a: &PatchSpec, b: &PatchSpec)
    requires
        a.same_as(*b),
        is_padded(a),
    ensures
        is_padded(b),
{
    if exists|ix: int| 0 <= ix < a.rank() && #[trigger] a.before(ix) != 0 {
        let ix = choose|ix: int| 0 <= ix < a.rank() && #[trigger] a.before(ix) != 0;
        lemma_same_axis(a, b, ix);
        assert(b.before(ix) != 0);
    } else {
        let ix = choose|ix: int| 0 <= ix < a.rank() && #[trigger] a.after(ix) != 0;
        lemma_same_axis(a, b, ix);
        assert(b.after(ix) != 0);
    }
}

/// A copy of a whole patch is whole.
proof fn lemma_same_patches(a: &Patch, b: &Patch)
    requires
        a.same_as(*b),
        b.wf(),
    ensures
        a.wf(),
{
    same_specs_make_the_same_patch(&a.spec, &b.spec);
    let n = a.spec.rank() as nat;
    assert forall|ix: int|
        a.spec.before(ix) == b.spec.before(ix) && a.spec.after(ix) == b.spec.after(ix)
            && #[trigger] a.spec.last_tap(ix) == b.spec.last_tap(ix) by {
        lemma_same_axis(&a.spec, &b.spec, ix);
    }
    assert(Seq::new(n, |ix: int| a.spec.before(ix)) =~= Seq::new(n, |ix: int| b.spec.before(ix)))
        by {
        assert forall|ix: int| 0 <= ix < n implies #[trigger] a.spec.before(ix) == b.spec.before(
            ix,
        ) by {
            lemma_same_axis(&a.spec, &b.spec, ix);
        }
    }
    assert(Seq::new(n, |ix: int| a.spec.after(ix)) =~= Seq::new(n, |ix: int| b.spec.after(ix))) by {
        assert forall|ix: int| 0 <= ix < n implies #[trigger] a.spec.after(ix) == b.spec.after(
            ix,
        ) by {
            lemma_same_axis(&a.spec, &b.spec, ix);
        }
    }
    assert forall|t: int, ix: int|
        0 <= t < a.spec.taps() && 0 <= ix < n implies #[trigger] a.data_field.cell(t, ix)
        == a.spec.tap(t)[ix] by {
        assert(b.data_field.cell(t, ix) == b.spec.tap(t)[ix]);
    }
    assert forall|t: int| 0 <= t < a.spec.taps() implies #[trigger] a.standard_layout_data_field@[t]
        == a.spec.tap_offset(t) by {
        assert(b.standard_layout_data_field@[t] == b.spec.tap_offset(t));
    }
    assert forall|ix: int| 0 <= ix < n implies (#[trigger] a.data_field_min_max@[ix]).0
        == a.spec.first_tap(ix) && a.data_field_min_max@[ix].1 == a.spec.last_tap(ix) by {
        assert(b.data_field_min_max@[ix].0 == b.spec.first_tap(ix));
    }
}

} // verus!
