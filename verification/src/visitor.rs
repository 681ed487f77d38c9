//! Reading the taps of a kernel at a place.
use crate::arith::{dot, dot_fits, fits, lemma_dot_step};
use crate::arrays::zip;
use crate::data_format::axes_are_told_apart;
use crate::geometry::{
    lemma_axis, lemma_center, lemma_center_fits, lemma_pixel, lemma_point_in_image, lemma_tap,
    lemma_taps_positive, lemma_valid_is_inside,
};
use crate::grid::{ints, product, signed_ints};
use crate::patch::Patch;
use crate::patch_laws::{
    places_taken_as_valid_are_not_asked, taps_in_the_padding_are_not_read,
};
use crate::patch_spec::PatchSpec;
use vstd::arithmetic::div_mod::{lemma_fundamental_div_mod_converse, lemma_small_mod};
use vstd::prelude::*;

verus! {

/// A patch over an input.
#[derive(Debug)]
pub struct PatchVisitor<'p> {
    pub patch: &'p Patch,
}

impl Patch {
    /// Lays the patch over an input with the given strides. Offsets are those of an input in row-major
    /// order, so that no more is asked of the strides than that there are enough of them.
    pub fn wrap<'p>(&'p self, input_strides: &[isize]) -> (visitor: PatchVisitor<'p>)
        requires
            self.wf(),
            input_strides@.len() >= self.spec.data_format.first_spatial_axis() + self.spec.rank(),
        ensures
            visitor.patch == self,
    {
        PatchVisitor { patch: self }
    }
}

/// Where a tap lies in the input, or that it lies outside.
pub open spec fn pixel(found: Option<isize>) -> Option<int> {
    match found {
        Some(offset) => Some(offset as int),
        None => None,
    }
}

/// Whether the taps are read without asking where they lie: the hint says that they are inside, or
/// there is no hint and no padding.
pub open spec fn unasked(patch: &Patch, hint: Option<bool>) -> bool {
    match hint {
        Some(valid) => valid,
        None => !patch.padded,
    }
}

/// Whether the taps are taken to lie inside of the input.
pub open spec fn taken_as_valid(patch: &Patch, place: Seq<int>, hint: Option<bool>) -> bool {
    match hint {
        Some(valid) => valid,
        None => !patch.padded || patch.spec.valid_at(place),
    }
}

/// What is read at a place: where each tap lies, or that it lies outside. A place that is taken as
/// valid is not asked.
pub open spec fn pixels(spec: &PatchSpec, place: Seq<int>, valid: bool) -> Seq<Option<int>> {
    Seq::new(
        spec.taps() as nat,
        |t: int|
            if valid || spec.inside(spec.position(place), t) {
                Some(spec.center(place) + spec.tap_offset(t))
            } else {
                None
            },
    )
}

/// Whether an `isize` holds where each tap lies, from a center.
pub open spec fn offsets_fit(spec: &PatchSpec, center: int) -> bool {
    forall|t: int| 0 <= t < spec.taps() ==> fits(center + #[trigger] spec.tap_offset(t))
}

/// A tap that lies inside of the input has an offset that an `isize` holds.
proof fn lemma_inside_fits(spec: &PatchSpec, position: Seq<int>, t: int)
    requires
        spec.wf(),
        position.len() == spec.rank(),
        spec.inside(position, t),
    ensures
        fits(dot(position, spec.layout()) + spec.tap_offset(t)),
{
    let point = Seq::new(position.len(), |ix: int| position[ix] + spec.tap(t)[ix]);
    lemma_pixel(spec, position, t);
    assert forall|ix: int| 0 <= ix < spec.rank() implies 0 <= #[trigger] point[ix] < spec.dim(
        ix,
    ) by {
        assert(0 <= position[ix] + spec.tap(t)[ix] < spec.dim(ix));
    }
    lemma_point_in_image(spec, point);
}

/// What is read at a place, in terms of the fields of the patch.
proof fn lemma_readings(patch: &Patch, coords: Seq<usize>)
    requires
        patch.wf(),
        coords.len() == patch.spec.rank(),
    ensures
        forall|valid: bool|
            (#[trigger] pixels(&patch.spec, ints(coords), valid)).len() == product(
                ints(patch.spec.kernel_shape@),
            ),
        forall|t: int|
            0 <= t < product(ints(patch.spec.kernel_shape@)) ==> #[trigger] pixels(
                &patch.spec,
                ints(coords),
                true,
            )[t] == Some(
                dot(
                    ints(coords),
                    signed_ints(patch.op_strides_times_input_storage_strides@),
                ) + patch.standard_layout_data_field@[t],
            ),
        forall|t: int|
            #![trigger pixels(&patch.spec, ints(coords), false)[t]]
            0 <= t < product(ints(patch.spec.kernel_shape@)) ==> {
                let read = pixels(&patch.spec, ints(coords), false)[t];
                &&& read is Some <==> forall|ix: int|
                    0 <= ix < coords.len() ==> 0 <= coords[ix] * patch.spec.strides@[ix]
                        + #[trigger] patch.data_field.cell(t, ix)
                        < patch.input_shape.shape@[patch.input_shape.fmt.first_spatial_axis() + ix]
                &&& read is Some ==> read == pixels(&patch.spec, ints(coords), true)[t]
            },
{
    let place = ints(coords);
    axes_are_told_apart(patch.spec.data_format, patch.spec.input_full_shape@.len() as int, 0);
    lemma_taps_positive(&patch.spec);
    assert forall|t: int| 0 <= t < product(ints(patch.spec.kernel_shape@)) implies #[trigger] pixels(
        &patch.spec,
        place,
        true,
    )[t] == Some(
        dot(place, signed_ints(patch.op_strides_times_input_storage_strides@))
            + patch.standard_layout_data_field@[t],
    ) by {
        places_taken_as_valid_are_not_asked(patch, place, t);
    }
    assert forall|t: int|
        #![trigger pixels(&patch.spec, place, false)[t]]
        0 <= t < product(ints(patch.spec.kernel_shape@)) implies {
        let read = pixels(&patch.spec, place, false)[t];
        &&& read is Some <==> forall|ix: int|
            0 <= ix < coords.len() ==> 0 <= coords[ix] * patch.spec.strides@[ix]
                + #[trigger] patch.data_field.cell(t, ix)
                < patch.input_shape.shape@[patch.input_shape.fmt.first_spatial_axis() + ix]
        &&& read is Some ==> read == pixels(&patch.spec, place, true)[t]
    } by {
        places_taken_as_valid_are_not_asked(patch, place, t);
        taps_in_the_padding_are_not_read(patch, place, t);
        let h = patch.input_shape.fmt.first_spatial_axis();
        let read = pixels(&patch.spec, place, false)[t];
        if read is Some {
            assert forall|ix: int| 0 <= ix < coords.len() implies 0 <= coords[ix]
                * patch.spec.strides@[ix] + #[trigger] patch.data_field.cell(t, ix)
                < patch.input_shape.shape@[h + ix] by {
                assert(place[ix] == coords[ix]);
            }
        }
        if forall|ix: int|
            0 <= ix < coords.len() ==> 0 <= coords[ix] * patch.spec.strides@[ix]
                + #[trigger] patch.data_field.cell(t, ix) < patch.input_shape.shape@[h + ix] {
            assert forall|ix: int| 0 <= ix < place.len() implies 0 <= place[ix]
                * patch.spec.strides@[ix] + #[trigger] patch.data_field.cell(t, ix)
                < patch.spec.input_full_shape@[h + ix] by {
                assert(place[ix] == coords[ix]);
            }
        }
    }
}

impl<'p> PatchVisitor<'p> {
    /// Reads the taps at a place.
    pub fn attt<'v>(&'p self, coords: &[usize]) -> (it: PatchIterator<'p, 'v>) where 'p: 'v
        requires
            self.patch.wf(),
            coords@.len() == self.patch.spec.rank(),
            self.patch.spec.center(ints(coords@)) <= isize::MAX,
            !self.patch.padded ==> self.patch.spec.valid_at(ints(coords@)) || offsets_fit(
                &self.patch.spec,
                self.patch.spec.center(ints(coords@)),
            ),
            self.patch.padded ==> forall|ix: int|
                0 <= ix < coords@.len() ==> self.patch.spec.place_fits(
                    ix,
                    #[trigger] coords@[ix] as int,
                ),
        ensures
            it.wf(),
            it is Fast <==> taken_as_valid(self.patch, ints(coords@), None),
            it.remaining() == pixels(
                &self.patch.spec,
                ints(coords@),
                taken_as_valid(self.patch, ints(coords@), None),
            ),
            it is Fast <==> !self.patch.padded || self.patch.spec.valid_at(ints(coords@)),
            it.remaining().len() == product(ints(self.patch.spec.kernel_shape@)),
            it is Fast ==> forall|t: int|
                0 <= t < it.remaining().len() ==> #[trigger] it.remaining()[t] == Some(
                    dot(
                        ints(coords@),
                        signed_ints(self.patch.op_strides_times_input_storage_strides@),
                    ) + self.patch.standard_layout_data_field@[t],
                ),
            it is Safe ==> forall|t: int|
                #![trigger it.remaining()[t]]
                0 <= t < it.remaining().len() ==> (it.remaining()[t] is Some <==> forall|ix: int|
                    0 <= ix < coords@.len() ==> 0 <= coords@[ix] * self.patch.spec.strides@[ix]
                        + #[trigger] self.patch.data_field.cell(t, ix)
                        < self.patch.input_shape.shape@[self.patch.input_shape.fmt.first_spatial_axis()
                        + ix]),
            it is Safe ==> forall|t: int|
                0 <= t < it.remaining().len() && it.remaining()[t] is Some
                    ==> #[trigger] it.remaining()[t] == Some(
                    dot(
                        ints(coords@),
                        signed_ints(self.patch.op_strides_times_input_storage_strides@),
                    ) + self.patch.standard_layout_data_field@[t],
                ),
    {
        self.at_hint(coords, None)
    }

    /// Reads the taps at a place, where a hint may say whether they all lie inside of the input.
    pub fn at_hint<'v>(&'p self, coords: &[usize], hint: Option<bool>) -> (it: PatchIterator<
        'p,
        'v,
    >) where 'p: 'v
        requires
            self.patch.wf(),
            coords@.len() == self.patch.spec.rank(),
            self.patch.spec.center(ints(coords@)) <= isize::MAX,
            unasked(self.patch, hint) ==> self.patch.spec.valid_at(ints(coords@)) || offsets_fit(
                &self.patch.spec,
                self.patch.spec.center(ints(coords@)),
            ),
            !unasked(self.patch, hint) ==> forall|ix: int|
                0 <= ix < coords@.len() ==> self.patch.spec.place_fits(
                    ix,
                    #[trigger] coords@[ix] as int,
                ),
        ensures
            it.wf(),
            it is Fast <==> taken_as_valid(self.patch, ints(coords@), hint),
            it.remaining() == pixels(
                &self.patch.spec,
                ints(coords@),
                taken_as_valid(self.patch, ints(coords@), hint),
            ),
            hint is Some ==> (it is Fast <==> hint->Some_0),
            hint is None ==> (it is Fast <==> !self.patch.padded || self.patch.spec.valid_at(
                ints(coords@),
            )),
            it.remaining().len() == product(ints(self.patch.spec.kernel_shape@)),
            it is Fast ==> forall|t: int|
                0 <= t < it.remaining().len() ==> #[trigger] it.remaining()[t] == Some(
                    dot(
                        ints(coords@),
                        signed_ints(self.patch.op_strides_times_input_storage_strides@),
                    ) + self.patch.standard_layout_data_field@[t],
                ),
            it is Safe ==> forall|t: int|
                #![trigger it.remaining()[t]]
                0 <= t < it.remaining().len() ==> (it.remaining()[t] is Some <==> forall|ix: int|
                    0 <= ix < coords@.len() ==> 0 <= coords@[ix] * self.patch.spec.strides@[ix]
                        + #[trigger] self.patch.data_field.cell(t, ix)
                        < self.patch.input_shape.shape@[self.patch.input_shape.fmt.first_spatial_axis()
                        + ix]),
            it is Safe ==> forall|t: int|
                0 <= t < it.remaining().len() && it.remaining()[t] is Some
                    ==> #[trigger] it.remaining()[t] == Some(
                    dot(
                        ints(coords@),
                        signed_ints(self.patch.op_strides_times_input_storage_strides@),
                    ) + self.patch.standard_layout_data_field@[t],
                ),
    {
        let patch = self.patch;
        let ghost spec = &patch.spec;
        let ghost place = ints(coords@);
        proof {
            lemma_readings(patch, coords@);
        }
        let center = self.center(coords);
        let valid = match hint {
            Some(valid) => valid,
            None => !patch.padded || patch.is_valid(coords),
        };
        proof {
            lemma_center(spec, place);
        }
        if valid {
            proof {
                if spec.valid_at(place) {
                    assert forall|t: int| 0 <= t < spec.taps() implies fits(
                        center + #[trigger] spec.tap_offset(t),
                    ) by {
                        lemma_valid_is_inside(spec, place, t);
                        lemma_inside_fits(spec, spec.position(place), t);
                    }
                }
            }
            let it = FastPatchIterator { visitor: self, center, item: 0 };
            assert(it.remaining() =~= pixels(spec, place, true));
            PatchIterator::Fast(it)
        } else {
            let mut input_patch_center: Vec<usize> = Vec::new();
            for ix in 0..coords.len()
                invariant
                    patch.wf(),
                    spec == patch.spec,
                    place == ints(coords@),
                    coords@.len() == spec.rank(),
                    forall|ix: int|
                        0 <= ix < coords@.len() ==> spec.place_fits(
                            ix,
                            #[trigger] coords@[ix] as int,
                        ),
                    input_patch_center@.len() == ix,
                    forall|j: int|
                        0 <= j < ix ==> #[trigger] input_patch_center@[j] == spec.position(
                            place,
                        )[j],
            {
                assert(spec.place_fits(ix as int, coords@[ix as int] as int));
                assert(place[ix as int] == coords@[ix as int]);
                assert(0 <= coords@[ix as int] * spec.strides@[ix as int]) by (nonlinear_arith);
                input_patch_center.push(coords[ix] * patch.spec.strides[ix]);
            }
            let it = SafePatchIterator { visitor: self, item: 0, input_patch_center, center };
            proof {
                assert(ints(it.input_patch_center@) =~= spec.position(place));
                assert forall|ix: int| 0 <= ix < spec.rank() implies fits(
                    (#[trigger] it.input_patch_center@[ix]) as int,
                ) && fits(it.input_patch_center@[ix] + spec.last_tap(ix)) by {
                    assert(spec.place_fits(ix, coords@[ix] as int));
                    assert(place[ix] == coords@[ix]);
                }
                assert(it.remaining() =~= pixels(spec, place, false));
            }
            PatchIterator::Safe(it)
        }
    }

    /// Where in the input the strides lead to from a place.
    fn center(&self, coords: &[usize]) -> (center: isize)
        requires
            self.patch.wf(),
            coords@.len() == self.patch.spec.rank(),
            self.patch.spec.center(ints(coords@)) <= isize::MAX,
        ensures
            center == self.patch.spec.center(ints(coords@)),
    {
        let ghost place = ints(coords@);
        let ghost steps = self.patch.spec.step_layout();
        proof {
            lemma_center_fits(&self.patch.spec, place);
        }
        let layout = &self.patch.op_strides_times_input_storage_strides;
        assert(signed_ints(layout@).len() == layout@.len());
        let pairs = zip(coords, layout.as_slice());
        let mut center: isize = 0;
        for ix in 0..pairs.len()
            invariant
                self.patch.wf(),
                place == ints(coords@),
                steps == self.patch.spec.step_layout(),
                layout@.len() == steps.len(),
                signed_ints(layout@) == steps,
                coords@.len() == steps.len(),
                pairs@.len() == steps.len(),
                forall|i: int|
                    0 <= i < pairs@.len() ==> #[trigger] pairs@[i] == (coords@[i], layout@[i]),
                dot_fits(place, steps),
                forall|i: int| 0 <= i < steps.len() ==> 0 <= #[trigger] steps[i],
                center == dot(place.take(ix as int), steps.take(ix as int)),
        {
            let (coord, step) = pairs[ix];
            proof {
                assert(pairs@[ix as int] == (coords@[ix as int], layout@[ix as int]));
                assert(place[ix as int] == coord);
                assert(signed_ints(layout@)[ix as int] == step);
                assert(fits(place[ix as int] * steps[ix as int]));
                lemma_dot_step(place, steps, ix as int);
                lemma_coord_fits(coord, step);
            }
            center = center + coord as isize * step;
        }
        assert(place.take(place.len() as int) =~= place);
        assert(steps.take(steps.len() as int) =~= steps);
        center
    }

    /// Where in the input one tap lies at a place, counted as an address is.
    pub fn global_offset_for(&self, coords: &[usize], patch_index: usize) -> (offset: usize)
        requires
            self.patch.wf(),
            coords@.len() == self.patch.spec.rank(),
            self.patch.spec.center(ints(coords@)) <= isize::MAX,
            patch_index < self.patch.spec.taps(),
            fits(
                self.patch.spec.center(ints(coords@)) + self.patch.spec.tap_offset(
                    patch_index as int,
                ),
            ),
        ensures
            ({
                let exact = self.patch.spec.center(ints(coords@)) + self.patch.spec.tap_offset(
                    patch_index as int,
                );
                offset == (if exact >= 0 {
                    exact
                } else {
                    exact + usize::MAX + 1
                })
            }),
            offset == (dot(
                ints(coords@),
                signed_ints(self.patch.op_strides_times_input_storage_strides@),
            ) + self.patch.standard_layout_data_field@[patch_index as int]) % (usize::MAX + 1),
    {
        let center = self.center(coords);
        assert(self.patch.standard_layout_data_field@[patch_index as int]
            == self.patch.spec.tap_offset(patch_index as int));
        let exact = center + self.patch.standard_layout_data_field[patch_index];
        assert(exact < 0 && usize::BITS == 64 ==> (exact as usize) == exact
            + 0x1_0000_0000_0000_0000) by (bit_vector);
        assert(exact < 0 && usize::BITS == 32 ==> (exact as usize) == exact + 0x1_0000_0000)
            by (bit_vector);
        proof {
            let m = usize::MAX + 1;
            let x = exact as int;
            if x >= 0 {
                lemma_small_mod(x as nat, m as nat);
            } else {
                lemma_fundamental_div_mod_converse(x, m, -1, x + m);
            }
        }
        exact as usize
    }
}

/// A product with a count that an `isize` holds is that with the count as an `isize` holds it.
proof fn lemma_coord_fits(coord: usize, step: isize)
    requires
        fits(coord * step),
        0 <= step,
    ensures
        (coord as isize) * step == coord * step,
{
    let wrapped = coord as isize;
    if step == 0 {
        assert(wrapped * step == 0 && coord * step == 0) by (nonlinear_arith)
            requires
                step == 0,
        ;
    } else {
        assert(coord <= coord * step) by (nonlinear_arith)
            requires
                1 <= step,
                0 <= coord,
        ;
    }
}

/// Reads the taps at a place one after the other.
#[derive(Debug)]
pub enum PatchIterator<'p, 'v> where 'p: 'v {
    /// The taps are taken to lie inside of the input.
    Fast(FastPatchIterator<'p, 'v>),
    /// Each tap is asked where it lies.
    Safe(SafePatchIterator<'p, 'v>),
}

impl<'p, 'v> PatchIterator<'p, 'v> where 'p: 'v {
    /// The patch is whole, and what is left to read can be counted.
    pub open spec fn wf(&self) -> bool {
        match self {
            PatchIterator::Fast(it) => it.wf(),
            PatchIterator::Safe(it) => it.wf(),
        }
    }

    /// What is left to read.
    pub open spec fn remaining(&self) -> Seq<Option<int>> {
        match self {
            PatchIterator::Fast(it) => it.remaining(),
            PatchIterator::Safe(it) => it.remaining(),
        }
    }

    /// Reads the next tap, as long as there is one.
    pub fn next(&mut self) -> (found: Option<Option<isize>>)
        requires
            old(self).wf(),
        ensures
            final(self).wf(),
            old(self).remaining().len() == 0 ==> found is None && final(self).remaining() == old(
                self,
            ).remaining(),
            old(self).remaining().len() > 0 ==> found is Some && pixel(found->Some_0) == old(
                self,
            ).remaining()[0] && final(self).remaining() == old(self).remaining().skip(1),
            found is Some && old(self).remaining()[0] is Some ==> found->Some_0 is Some
                && found->Some_0->Some_0 == old(self).remaining()[0]->Some_0,
            found is Some && old(self).remaining()[0] is None ==> found->Some_0 is None,
            (*final(self) is Fast) == (*old(self) is Fast),
    {
        match self {
            PatchIterator::Fast(it) => it.next(),
            PatchIterator::Safe(it) => it.next(),
        }
    }
}

/// Reads the taps at a place at which they all lie inside of the input.
#[derive(Debug)]
pub struct FastPatchIterator<'p, 'v> where 'p: 'v {
    visitor: &'v PatchVisitor<'p>,
    center: isize,
    item: usize,
}

impl<'p, 'v> FastPatchIterator<'p, 'v> where 'p: 'v {
    /// The patch is whole, and what is left to read can be counted.
    pub closed spec fn wf(&self) -> bool {
        let spec = self.visitor.patch.spec;
        &&& self.visitor.patch.wf()
        &&& self.item <= spec.taps()
        &&& offsets_fit(&spec, self.center as int)
    }

    /// What is left to read.
    pub closed spec fn remaining(&self) -> Seq<Option<int>> {
        let spec = self.visitor.patch.spec;
        Seq::new(
            (spec.taps() - self.item) as nat,
            |i: int| Some(self.center + spec.tap_offset(self.item + i)),
        )
    }

    /// Reads the next tap, as long as there is one.
    pub fn next(&mut self) -> (found: Option<Option<isize>>)
        requires
            old(self).wf(),
        ensures
            final(self).wf(),
            old(self).remaining().len() == 0 ==> found is None && final(self).remaining() == old(
                self,
            ).remaining(),
            old(self).remaining().len() > 0 ==> found is Some && pixel(found->Some_0) == old(
                self,
            ).remaining()[0] && final(self).remaining() == old(self).remaining().skip(1),
            found is Some && old(self).remaining()[0] is Some ==> found->Some_0 is Some
                && found->Some_0->Some_0 == old(self).remaining()[0]->Some_0,
            found is Some && old(self).remaining()[0] is None ==> found->Some_0 is None,
    {
        let patch = self.visitor.patch;
        if self.item == patch.standard_layout_data_field.len() {
            return None;
        }
        assert(fits(self.center + patch.spec.tap_offset(self.item as int)));
        let position = self.center + patch.standard_layout_data_field[self.item];
        self.item = self.item + 1;
        assert(self.remaining() =~= old(self).remaining().skip(1));
        Some(Some(position))
    }
}

/// Reads the taps at a place at which some may lie outside of the input.
#[derive(Debug)]
pub struct SafePatchIterator<'p, 'v> where 'p: 'v {
    visitor: &'v PatchVisitor<'p>,
    item: usize,
    input_patch_center: Vec<usize>,
    center: isize,
}

impl<'p, 'v> SafePatchIterator<'p, 'v> where 'p: 'v {
    /// The patch is whole, and what is left to read can be counted.
    pub closed spec fn wf(&self) -> bool {
        let spec = self.visitor.patch.spec;
        &&& self.visitor.patch.wf()
        &&& self.item <= spec.taps()
        &&& self.input_patch_center@.len() == spec.rank()
        &&& forall|ix: int|
            0 <= ix < spec.rank() ==> fits((#[trigger] self.input_patch_center@[ix]) as int)
                && fits(self.input_patch_center@[ix] + spec.last_tap(ix))
        &&& self.center == dot(ints(self.input_patch_center@), spec.layout())
    }

    /// What is left to read.
    pub closed spec fn remaining(&self) -> Seq<Option<int>> {
        let spec = self.visitor.patch.spec;
        Seq::new(
            (spec.taps() - self.item) as nat,
            |i: int|
                if spec.inside(ints(self.input_patch_center@), self.item + i) {
                    Some(self.center + spec.tap_offset(self.item + i))
                } else {
                    None
                },
        )
    }

    /// Reads the next tap, as long as there is one.
    pub fn next(&mut self) -> (found: Option<Option<isize>>)
        requires
            old(self).wf(),
        ensures
            final(self).wf(),
            old(self).remaining().len() == 0 ==> found is None && final(self).remaining() == old(
                self,
            ).remaining(),
            old(self).remaining().len() > 0 ==> found is Some && pixel(found->Some_0) == old(
                self,
            ).remaining()[0] && final(self).remaining() == old(self).remaining().skip(1),
            found is Some && old(self).remaining()[0] is Some ==> found->Some_0 is Some
                && found->Some_0->Some_0 == old(self).remaining()[0]->Some_0,
            found is Some && old(self).remaining()[0] is None ==> found->Some_0 is None,
    {
        let patch = self.visitor.patch;
        let ghost spec = &patch.spec;
        let ghost position = ints(self.input_patch_center@);
        if self.item == patch.standard_layout_data_field.len() {
            return None;
        }
        let input_shape = &patch.input_shape;
        let h = input_shape.h_axis();
        let axes = input_shape.shape.len();
        let rank = axes - 2;
        let item = self.item;
        let ghost before = self.remaining();
        self.item = item + 1;
        assert(self.remaining() =~= before.skip(1));
        for ix in 0..rank
            invariant
                patch == self.visitor.patch,
                patch.wf(),
                self.wf(),
                spec == patch.spec,
                position == ints(self.input_patch_center@),
                *input_shape == patch.input_shape,
                h == spec.data_format.first_spatial_axis(),
                rank == spec.rank(),
                axes == input_shape.shape@.len(),
                item < spec.taps(),
                self.remaining() == before.skip(1),
                before == old(self).remaining(),
                before.len() > 0,
                before[0] == (if spec.inside(position, item as int) {
                    Some(self.center + spec.tap_offset(item as int))
                } else {
                    None
                }),
                forall|j: int|
                    0 <= j < ix ==> 0 <= #[trigger] position[j] + spec.tap(item as int)[j]
                        < spec.dim(j),
        {
            proof {
                let axis = ix as int;
                assert(spec.accepts_axis(axis));
                lemma_axis(spec, axis);
                lemma_tap(spec, item as int, axis);
                assert(position[axis] == self.input_patch_center@[axis]);
                assert(patch.data_field.cell(item as int, axis) == spec.tap(item as int)[axis]);
            }
            let pos = self.input_patch_center[ix] as isize + patch.data_field.index(item, ix);
            if pos < 0 || pos as usize >= input_shape.shape[h + ix] {
                assert(!(0 <= position[ix as int] + spec.tap(item as int)[ix as int] < spec.dim(
                    ix as int,
                )));
                return Some(None);
            }
        }
        proof {
            lemma_inside_fits(spec, position, item as int);
        }
        Some(Some(self.center + patch.standard_layout_data_field[item]))
    }
}

} // verus!
