//! In which order zones and their places come, and what a visit holds.
use crate::data_format::DataFormat;
use crate::grid::{in_grid, ints, is_shape, lemma_product_nonnegative, product};
use crate::grid_laws::row_major_walks_count_round;
use crate::laws::{
    in_zone, lemma_in_zone_from, lemma_valid_along, straddles, zone_count, zones_part_the_output,
};
use crate::patch::{all_bounds, bounds, Patch};
use crate::patch_laws::{
    lemma_fields, places_are_valid_where_every_tap_is_inside, shapes_are_those_of_the_input,
};
use crate::patch_spec::{Bounds, PatchSpec};
use crate::visit::{
    all_visits, extents, first_axes, places, visits_1, visits_2, visits_d, with_hint, zone_walk,
    zone_walks,
};
use core::ops::Range;
use vstd::prelude::*;

verus! {

/// The bounds of a zone are those of its ranges, axis by axis and zone by zone.
pub proof fn bounds_are_those_of_the_ranges(zone: Seq<Range<usize>>, zones: Seq<Vec<Range<usize>>>)
    ensures
        bounds(zone).len() == zone.len(),
        forall|ix: int|
            0 <= ix < zone.len() ==> (#[trigger] bounds(zone)[ix]).0 == zone[ix].start
                && bounds(zone)[ix].1 == zone[ix].end,
        all_bounds(zones).len() == zones.len(),
        forall|z: int, ix: int|
            0 <= z < zones.len() && 0 <= ix < zones[z]@.len() ==> (#[trigger] all_bounds(
                zones,
            )[z][ix]).0 == zones[z]@[ix].start && all_bounds(zones)[z][ix].1 == zones[z]@[ix].end,
        forall|z: int|
            0 <= z < zones.len() ==> (#[trigger] all_bounds(zones)[z]).len() == zones[z]@.len(),
{
}

/// What a visit holds is the place and its hint, as they were handed out.
pub proof fn visits_hold_places_and_hints(
    one: Seq<(usize, Option<bool>)>,
    two: Seq<((usize, usize), Option<bool>)>,
    many: Seq<(Vec<usize>, Option<bool>)>,
)
    ensures
        visits_1(one).len() == one.len(),
        forall|i: int|
            0 <= i < one.len() ==> {
                let visit = #[trigger] visits_1(one)[i];
                visit.0.len() == 1 && visit.0[0] == one[i].0 && visit.1 == one[i].1
            },
        visits_2(two).len() == two.len(),
        forall|i: int|
            0 <= i < two.len() ==> {
                let visit = #[trigger] visits_2(two)[i];
                visit.0.len() == 2 && visit.0[0] == two[i].0.0 && visit.0[1] == two[i].0.1
                    && visit.1 == two[i].1
            },
        visits_d(many).len() == many.len(),
        forall|i: int|
            0 <= i < many.len() ==> {
                let visit = #[trigger] visits_d(many)[i];
                visit.0.len() == many[i].0@.len() && visit.1 == many[i].1
            },
        forall|i: int, ix: int|
            0 <= i < many.len() && 0 <= ix < many[i].0@.len() ==> #[trigger] visits_d(
                many,
            )[i].0[ix] == many[i].0@[ix],
{
}

/// A hint goes with every place of a walk, and taking the hints away leaves the walk.
pub proof fn hints_go_with_every_place(walk: Seq<Seq<int>>, hint: Option<bool>)
    ensures
        places(with_hint(walk, hint)) == walk,
        forall|i: int| 0 <= i < walk.len() ==> (#[trigger] with_hint(walk, hint)[i]).1 == hint,
{
    assert(places(with_hint(walk, hint)) =~= walk);
}

/// The walk over a zone has as many places as the extents of the zone multiply to. It counts the
/// last axis up from its start, and starts it again whenever the axis before it moves on.
pub proof fn walks_over_zones_count_round(zone: Bounds, i: int, ix: int)
    requires
        forall|j: int| 0 <= j < zone.len() ==> (#[trigger] zone[j]).0 <= zone[j].1,
        0 <= i < zone_walk(zone).len(),
        0 <= ix < zone.len(),
    ensures
        ({
            let counts = Seq::new(zone.len(), |j: int| zone[j].1 - zone[j].0);
            &&& zone_walk(zone).len() == product(counts)
            &&& zone_walk(zone)[i].len() == zone.len()
            &&& 1 <= product(counts.skip(ix + 1))
            &&& zone[ix].0 < zone[ix].1
            &&& zone_walk(zone)[i][ix] == zone[ix].0 + i / product(counts.skip(ix + 1)) % (
            zone[ix].1 - zone[ix].0)
        }),
{
    let counts = Seq::new(zone.len(), |j: int| zone[j].1 - zone[j].0);
    assert(counts =~= extents(zone));
    assert(is_shape(counts)) by {
        assert forall|j: int| 0 <= j < counts.len() implies 0 <= #[trigger] counts[j] by {
            assert(zone[j].0 <= zone[j].1);
        }
    }
    lemma_product_nonnegative(counts);
    row_major_walks_count_round(counts, i, ix);
}

/// Zones are walked one after the other, and cutting them to their first axes cuts each of them.
pub proof fn zones_are_walked_one_after_the_other(zones: Seq<Bounds>, zone: Bounds, k: int)
    ensures
        zone_walks(Seq::<Bounds>::empty()).len() == 0,
        zone_walks(zones.push(zone)) == zone_walks(zones) + zone_walk(zone),
        first_axes(zones, k).len() == zones.len(),
        forall|z: int| 0 <= z < zones.len() ==> #[trigger] first_axes(zones, k)[z] == zones[z].take(k),
{
    assert(zones.push(zone).drop_last() =~= zones);
}

/// The valid places are visited first, and then the zones that leave them, in their order.
pub proof fn valid_places_are_visited_first(spec: &PatchSpec, k: int, i: int)
    requires
        0 <= i < all_visits(spec, k).len(),
    ensures
        ({
            let valid = zone_walk(spec.valid_zone().take(k));
            let others = zone_walks(first_axes(spec.invalid_zones(spec.rank()), k));
            &&& all_visits(spec, k).len() == valid.len() + others.len()
            &&& i < valid.len() ==> all_visits(spec, k)[i] == (valid[i], Some(true))
            &&& i >= valid.len() ==> all_visits(spec, k)[i] == (
                others[i - valid.len()],
                Some(false),
            )
        }),
{
}

/// The axis of a zone, and whether it lies after the valid places along that axis.
proof fn lemma_zone_side(spec: &PatchSpec, m: int, z: int) -> (res: (int, bool))
    requires
        0 <= m <= spec.rank(),
        0 <= z < spec.invalid_zones(m).len(),
    ensures
        ({
            let (ix, high) = res;
            let (start, end) = (spec.valid_start(ix), spec.valid_end(ix));
            &&& 0 <= ix < m
            &&& spec.invalid_zones(m)[z] == (if high {
                spec.zone_from(ix, end, spec.output(ix))
            } else {
                spec.zone_from(ix, 0, start)
            })
            &&& z == spec.invalid_zones(ix).len() + (if high && start != 0 {
                1int
            } else {
                0
            })
            &&& !high ==> start != 0
            &&& high ==> end < spec.output(ix)
        }),
    decreases m,
{
    let before = spec.invalid_zones(m - 1).len() as int;
    if z < before {
        lemma_zone_side(spec, m - 1, z)
    } else {
        let ix = m - 1;
        let high = !(z == before && spec.valid_start(ix) != 0);
        (ix, high)
    }
}

proof fn lemma_zone_numbers_grow(spec: &PatchSpec, i: int, j: int)
    requires
        0 <= i < j,
    ensures
        spec.invalid_zones(i + 1).len() <= spec.invalid_zones(j).len(),
    decreases j - i,
{
    if i + 1 < j {
        lemma_zone_numbers_grow(spec, i, j - 1);
    }
}

/// The zones that leave the valid places come axis by axis, and along each axis the one before the
/// valid places comes before the one after them: of two places that are not valid, the one that leaves
/// them along an earlier axis lies in an earlier zone; so does, along the same axis, the one that lies
/// before them; and on the same side of the same axis both lie in one zone.
pub proof fn zones_come_axis_by_axis(
    spec: &PatchSpec,
    a: Seq<int>,
    b: Seq<int>,
    za: int,
    zb: int,
    i: int,
    j: int,
)
    requires
        spec.wf(),
        0 <= i < spec.rank(),
        0 <= j < spec.rank(),
        0 <= za < spec.invalid_zones(spec.rank()).len(),
        0 <= zb < spec.invalid_zones(spec.rank()).len(),
        in_zone(spec.invalid_zones(spec.rank())[za], a),
        in_zone(spec.invalid_zones(spec.rank())[zb], b),
        !straddles(spec, a),
        !straddles(spec, b),
        forall|ix: int| 0 <= ix < i ==> spec.valid_along(ix, #[trigger] a[ix]),
        !spec.valid_along(i, a[i]),
        forall|ix: int| 0 <= ix < j ==> spec.valid_along(ix, #[trigger] b[ix]),
        !spec.valid_along(j, b[j]),
    ensures
        i < j ==> za < zb,
        i == j && a[i] < spec.valid_start(i) && b[j] >= spec.valid_end(j) ==> za < zb,
        i == j && (a[i] < spec.valid_start(i) <==> b[j] < spec.valid_start(j)) ==> za == zb,
{
    let n = spec.rank();
    let (ia, ha) = lemma_zone_side(spec, n, za);
    let (ib, hb) = lemma_zone_side(spec, n, zb);
    lemma_first_leaving_axis(spec, a, za, ia, ha, i);
    lemma_first_leaving_axis(spec, b, zb, ib, hb, j);
    if i < j {
        lemma_zone_numbers_grow(spec, i, j);
    }
}

/// The axis of the zone in which a place lies is the first along which the place is not valid.
proof fn lemma_first_leaving_axis(
    spec: &PatchSpec,
    place: Seq<int>,
    z: int,
    axis: int,
    high: bool,
    i: int,
)
    requires
        spec.wf(),
        0 <= axis < spec.rank(),
        0 <= i < spec.rank(),
        0 <= z < spec.invalid_zones(spec.rank()).len(),
        in_zone(spec.invalid_zones(spec.rank())[z], place),
        !straddles(spec, place),
        spec.invalid_zones(spec.rank())[z] == (if high {
            spec.zone_from(axis, spec.valid_end(axis), spec.output(axis))
        } else {
            spec.zone_from(axis, 0, spec.valid_start(axis))
        }),
        forall|ix: int| 0 <= ix < i ==> spec.valid_along(ix, #[trigger] place[ix]),
        !spec.valid_along(i, place[i]),
    ensures
        axis == i,
        high <==> place[i] >= spec.valid_end(i),
        high <==> place[i] >= spec.valid_start(i),
{
    let (start, end) = if high {
        (spec.valid_end(axis), spec.output(axis))
    } else {
        (0int, spec.valid_start(axis))
    };
    crate::visit::lemma_invalid_zone_axes(spec, spec.rank(), z);
    lemma_in_zone_from(spec, place, axis, start, end);
    assert(spec.accepts_axis(axis));
    assert(spec.accepts_axis(i));
    lemma_valid_along(spec, axis, place[axis]);
    lemma_valid_along(spec, i, place[i]);
    if i < axis {
        assert(spec.valid_start(i) <= place[i] < spec.valid_end(i));
    }
    if axis < i {
        assert(spec.valid_along(axis, place[axis]));
    }
    assert(crate::laws::leads_to(spec, place, axis));
}

/// Each zone other than the valid one leaves the valid places along one axis: it holds what is valid
/// along the axes before, what lies before the valid places along that axis, or after them, and
/// everything along the axes after.
pub proof fn zones_leave_along_one_axis(patch: &Patch, z: int) -> (res: (int, bool))
    requires
        patch.wf(),
        0 <= z < patch.invalid_output_zones@.len(),
    ensures
        ({
            let (ix, high) = res;
            let (zone, valid) = (patch.invalid_output_zones@[z]@, patch.valid_output_zone@);
            let output = patch.output_spatial_shape@;
            &&& zone.len() == valid.len() == output.len()
            &&& 0 <= ix < zone.len()
            &&& forall|j: int|
                0 <= j < ix ==> (#[trigger] zone[j]).start == valid[j].start && zone[j].end
                    == valid[j].end
            &&& !high ==> zone[ix].start == 0 && zone[ix].end == valid[ix].start
            &&& high ==> zone[ix].start == valid[ix].end && zone[ix].end == output[ix]
            &&& zone[ix].start < zone[ix].end
            &&& forall|j: int|
                ix < j < zone.len() ==> (#[trigger] zone[j]).start == 0 && zone[j].end == output[j]
        }),
{
    let spec = &patch.spec;
    let n = spec.rank();
    shapes_are_those_of_the_input(patch);
    assert(all_bounds(patch.invalid_output_zones@).len() == patch.invalid_output_zones@.len());
    let (ix, high) = lemma_zone_side(spec, n, z);
    let zone = patch.invalid_output_zones@[z]@;
    let modelled = spec.invalid_zones(n)[z];
    assert(bounds(zone) == all_bounds(patch.invalid_output_zones@)[z]);
    assert(bounds(zone).len() == zone.len());
    crate::visit::lemma_invalid_zone_axes(spec, n, z);
    assert forall|j: int| 0 <= j < n implies (#[trigger] zone[j]).start == modelled[j].0
        && zone[j].end == modelled[j].1 && patch.valid_output_zone@[j].start == spec.valid_start(j)
        && patch.valid_output_zone@[j].end == spec.valid_end(j) && patch.output_spatial_shape@[j]
        == spec.output(j) by {
        assert(bounds(zone)[j] == modelled[j]);
        lemma_fields(patch, j);
    }
    assert(zone[ix].start == modelled[ix].0);
    assert(spec.accepts_axis(ix));
    crate::geometry::lemma_valid_zone_bounds(spec, ix);
    (ix, high)
}

/// Along each axis there is a zone before the valid places, unless they start with the output, and one
/// after them, unless they end with it.
pub proof fn each_side_has_its_zone(patch: &Patch, ix: int)
    requires
        patch.wf(),
        0 <= ix < patch.valid_output_zone@.len(),
    ensures
        patch.valid_output_zone@[ix].start > 0 ==> exists|z: int|
            0 <= z < patch.invalid_output_zones@.len() && (
            #[trigger] patch.invalid_output_zones@[z])@[ix].start == 0
                && patch.invalid_output_zones@[z]@[ix].end == patch.valid_output_zone@[ix].start,
        patch.valid_output_zone@[ix].end < patch.output_spatial_shape@[ix] ==> exists|z: int|
            0 <= z < patch.invalid_output_zones@.len() && (
            #[trigger] patch.invalid_output_zones@[z])@[ix].start
                == patch.valid_output_zone@[ix].end && patch.invalid_output_zones@[z]@[ix].end
                == patch.output_spatial_shape@[ix],
{
    let spec = &patch.spec;
    let n = spec.rank();
    shapes_are_those_of_the_input(patch);
    lemma_fields(patch, ix);
    let zones = patch.invalid_output_zones@;
    assert(all_bounds(zones).len() == zones.len());
    let base = spec.invalid_zones(ix).len() as int;
    lemma_zones_are_kept(spec, ix + 1, n);
    assert(spec.accepts_axis(ix));
    crate::geometry::lemma_valid_zone_bounds(spec, ix);
    if spec.valid_start(ix) > 0 {
        assert(spec.invalid_zones(ix + 1)[base] == spec.zone_from(ix, 0, spec.valid_start(ix)));
        assert(bounds(zones[base]@) == all_bounds(zones)[base]);
        assert(bounds(zones[base]@)[ix] == (0int, spec.valid_start(ix)));
        assert(zones[base]@[ix].start == 0);
    }
    if spec.valid_end(ix) < spec.output(ix) {
        let z = if spec.valid_start(ix) != 0 {
            base + 1
        } else {
            base
        };
        assert(spec.invalid_zones(ix + 1)[z] == spec.zone_from(
            ix,
            spec.valid_end(ix),
            spec.output(ix),
        ));
        assert(bounds(zones[z]@) == all_bounds(zones)[z]);
        assert(bounds(zones[z]@)[ix] == (spec.valid_end(ix), spec.output(ix)));
        assert(zones[z]@[ix].start == spec.valid_end(ix));
    }
}

/// More axes add zones after those of the axes before.
proof fn lemma_zones_are_kept(spec: &PatchSpec, i: int, j: int)
    requires
        0 <= i <= j,
    ensures
        spec.invalid_zones(i).len() <= spec.invalid_zones(j).len(),
        forall|z: int|
            0 <= z < spec.invalid_zones(i).len() ==> #[trigger] spec.invalid_zones(i)[z]
                == spec.invalid_zones(j)[z],
    decreases j - i,
{
    if i < j {
        lemma_zones_are_kept(spec, i, j - 1);
    }
}

/// Every place of the output of a patch is either valid, every tap being inside of the input, or lies
/// in exactly one of the other zones; and no other place lies in any of them. A place that straddles
/// is the only exception.
pub proof fn zones_of_a_patch_part_its_output(patch: &Patch, place: Seq<int>)
    requires
        patch.wf(),
        place.len() == patch.spec.input_full_shape@.len() - 2,
        !straddles(&patch.spec, place),
    ensures
        ({
            let spec = patch.spec;
            let h: int = if spec.data_format == DataFormat::NCHW {
                2
            } else {
                1
            };
            let output = forall|ix: int|
                0 <= ix < place.len() ==> 0 <= #[trigger] place[ix]
                    < patch.output_spatial_shape@[ix];
            let valid = forall|t: int, ix: int|
                0 <= t < patch.data_field.rows() && 0 <= ix < place.len() ==> 0 <= place[ix]
                    * spec.strides@[ix] + #[trigger] patch.data_field.cell(t, ix)
                    < spec.input_full_shape@[h + ix];
            &&& in_zone(bounds(patch.valid_output_zone@), place) <==> valid
            &&& zone_count(all_bounds(patch.invalid_output_zones@), place) == (if output && !valid {
                1int
            } else {
                0
            })
        }),
{
    let spec = &patch.spec;
    shapes_are_those_of_the_input(patch);
    zones_part_the_output(spec, place);
    crate::laws::valid_zone_holds_the_valid_places(spec, place);
    places_are_valid_where_every_tap_is_inside(patch, place);
    let output = forall|ix: int|
        0 <= ix < place.len() ==> 0 <= #[trigger] place[ix] < patch.output_spatial_shape@[ix];
    assert(output <==> in_grid(spec.output_shape(), place)) by {
        assert(ints(patch.output_spatial_shape@) == spec.output_shape());
        assert forall|ix: int| 0 <= ix < place.len() implies #[trigger] spec.output_shape()[ix]
            == patch.output_spatial_shape@[ix] by {
            assert(ints(patch.output_spatial_shape@)[ix] == patch.output_spatial_shape@[ix]);
        }
        if output {
            assert forall|ix: int| 0 <= ix < spec.output_shape().len() implies 0
                <= #[trigger] place[ix] < spec.output_shape()[ix] by {
                assert(spec.output_shape()[ix] == patch.output_spatial_shape@[ix]);
            }
        }
        if in_grid(spec.output_shape(), place) {
            assert forall|ix: int| 0 <= ix < place.len() implies 0 <= #[trigger] place[ix]
                < patch.output_spatial_shape@[ix] by {
                assert(spec.output_shape()[ix] == patch.output_spatial_shape@[ix]);
            }
        }
    }
}

} // verus!
