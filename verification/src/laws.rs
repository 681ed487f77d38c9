//! What can be relied on, over several functions at once.
use crate::arith::{ceil_div, dot, lemma_ceil_div, lemma_ceil_div_monotone};
use crate::geometry::{
    lemma_axis, lemma_center, lemma_extreme_taps, lemma_pixel, lemma_point_in_image, lemma_tap,
    lemma_taps_positive, lemma_valid_is_inside, lemma_valid_zone_bounds,
};
use crate::grid::{
    in_grid, ints, is_shape, lemma_product_nonnegative, lemma_ravel, lemma_unravel, nonzero_product,
    product, ravel, unravel,
};
use crate::padding::{kernel_field, PaddingSpec};
use crate::patch::{is_padded, Patch};
use crate::patch_spec::{Bounds, PatchSpec};
use crate::visit::{
    all_visits, all_walkable, extents, lemma_all_axes, lemma_invalid_zone_axes, places, walkable,
    zone_walk, zone_walks,
};
use crate::visitor::{pixels, taken_as_valid, unasked};
use vstd::prelude::*;
use vstd::seq_lib::lemma_multiset_commutative;

verus! {

/// Whether a place lies in a zone.
pub open spec fn in_zone(zone: Bounds, place: Seq<int>) -> bool {
    &&& place.len() == zone.len()
    &&& forall|ix: int| 0 <= ix < zone.len() ==> zone[ix].0 <= #[trigger] place[ix] < zone[ix].1
}

/// In how many of the zones a place lies.
pub open spec fn zone_count(zones: Seq<Bounds>, place: Seq<int>) -> int
    decreases zones.len(),
{
    if zones.len() == 0 {
        0
    } else {
        zone_count(zones.drop_last(), place) + (if in_zone(zones.last(), place) {
            1int
        } else {
            0
        })
    }
}

/// Whether a place is valid along the axes before `ix`, and lies in the output along those after
/// it.
pub open spec fn leads_to(spec: &PatchSpec, place: Seq<int>, ix: int) -> bool {
    &&& forall|j: int|
        0 <= j < ix ==> spec.valid_start(j) <= #[trigger] place[j] < spec.valid_end(j)
    &&& forall|j: int| ix < j < spec.rank() ==> 0 <= #[trigger] place[j] < spec.output(j)
}

/// Whether the first axis that leaves the valid places does so on both sides at once. There is such
/// a place only where a kernel is so long that it lies before the input and after it.
pub open spec fn straddles(spec: &PatchSpec, place: Seq<int>) -> bool {
    exists|ix: int|
        0 <= ix < spec.rank() && #[trigger] leads_to(spec, place, ix) && spec.valid_end(ix)
            <= place[ix] < spec.valid_start(ix)
}

/// Whether a place of the output leaves the valid places along axis `ix` first.
spec fn leaves_at(spec: &PatchSpec, place: Seq<int>, ix: int) -> bool {
    &&& leads_to(spec, place, ix)
    &&& 0 <= place[ix] < spec.output(ix)
    &&& !(spec.valid_start(ix) <= place[ix] < spec.valid_end(ix))
}

/// Along one axis the valid places are those between the first one and the last one.
pub proof fn lemma_valid_along(spec: &PatchSpec, ix: int, c: int)
    requires
        spec.accepts_axis(ix),
    ensures
        spec.valid_along(ix, c) <==> spec.valid_start(ix) <= c < spec.valid_end(ix),
{
    let s = spec.strides@[ix] as int;
    lemma_ceil_div(spec.before(ix), s, c);
    lemma_ceil_div(spec.dim(ix) - spec.last_tap(ix), s, c);
}

/// The valid zone holds exactly the places at which every tap lies inside of the input.
pub proof fn valid_zone_holds_the_valid_places(spec: &PatchSpec, place: Seq<int>)
    requires
        spec.wf(),
        place.len() == spec.rank(),
    ensures
        in_zone(spec.valid_zone(), place) <==> spec.valid_at(place),
{
    assert forall|ix: int| 0 <= ix < spec.rank() implies (spec.valid_along(
        ix,
        #[trigger] place[ix],
    ) <==> spec.valid_zone()[ix].0 <= place[ix] < spec.valid_zone()[ix].1) by {
        assert(spec.accepts_axis(ix));
        lemma_valid_along(spec, ix, place[ix]);
    }
}

/// A valid place is a place of the output.
pub proof fn valid_places_lie_in_the_output(spec: &PatchSpec, place: Seq<int>)
    requires
        spec.wf(),
        place.len() == spec.rank(),
        spec.valid_at(place),
    ensures
        in_grid(spec.output_shape(), place),
{
    assert forall|ix: int| 0 <= ix < spec.rank() implies 0 <= #[trigger] place[ix]
        < spec.output_shape()[ix] by {
        assert(spec.accepts_axis(ix));
        assert(spec.valid_along(ix, place[ix]));
        lemma_valid_along(spec, ix, place[ix]);
        lemma_valid_zone_bounds(spec, ix);
    }
}

proof fn lemma_zone_count_concat(a: Seq<Bounds>, b: Seq<Bounds>, place: Seq<int>)
    ensures
        zone_count(a + b, place) == zone_count(a, place) + zone_count(b, place),
    decreases b.len(),
{
    if b.len() == 0 {
        assert(a + b =~= a);
    } else {
        assert((a + b).drop_last() =~= a + b.drop_last());
        lemma_zone_count_concat(a, b.drop_last(), place);
    }
}

/// A place lies in a zone of axis `ix` as its places along the axes say.
pub proof fn lemma_in_zone_from(spec: &PatchSpec, place: Seq<int>, ix: int, start: int, end: int)
    requires
        0 <= ix < spec.rank(),
        place.len() == spec.rank(),
    ensures
        in_zone(spec.zone_from(ix, start, end), place) <==> leads_to(spec, place, ix) && start
            <= place[ix] < end,
{
    let zone = spec.zone_from(ix, start, end);
    if in_zone(zone, place) {
        assert(zone[ix].0 <= place[ix] < zone[ix].1);
        assert forall|j: int| 0 <= j < ix implies spec.valid_start(j) <= #[trigger] place[j]
            < spec.valid_end(j) by {
            assert(zone[j].0 <= place[j] < zone[j].1);
        }
        assert forall|j: int| ix < j < spec.rank() implies 0 <= #[trigger] place[j] < spec.output(
            j,
        ) by {
            assert(zone[j].0 <= place[j] < zone[j].1);
        }
    }
}

/// A place that does not straddle lies in one zone of the axis along which it leaves the valid
/// places first, and in no zone of any other axis.
proof fn lemma_zone_count_at(spec: &PatchSpec, place: Seq<int>, ix: int)
    requires
        spec.wf(),
        0 <= ix < spec.rank(),
        place.len() == spec.rank(),
        !straddles(spec, place),
    ensures
        zone_count(spec.invalid_zones_at(ix), place) == (if leaves_at(spec, place, ix) {
            1int
        } else {
            0
        }),
{
    assert(spec.accepts_axis(ix));
    lemma_valid_zone_bounds(spec, ix);
    let (start, end, out) = (spec.valid_start(ix), spec.valid_end(ix), spec.output(ix));
    lemma_in_zone_from(spec, place, ix, 0, start);
    lemma_in_zone_from(spec, place, ix, end, out);
    let low = if start != 0 {
        seq![spec.zone_from(ix, 0, start)]
    } else {
        Seq::empty()
    };
    let high = if end < out {
        seq![spec.zone_from(ix, end, out)]
    } else {
        Seq::empty()
    };
    assert(spec.invalid_zones_at(ix) =~= low + high);
    lemma_zone_count_concat(low, high, place);
    reveal_with_fuel(zone_count, 2);
    assert(low.len() > 0 ==> low.drop_last() =~= Seq::<Bounds>::empty());
    assert(high.len() > 0 ==> high.drop_last() =~= Seq::<Bounds>::empty());
    if leads_to(spec, place, ix) {
        assert(!(end <= place[ix] < start));
    }
}

/// Only one axis can be the first that leaves the valid places.
proof fn lemma_leaves_once(spec: &PatchSpec, place: Seq<int>, i: int, j: int)
    requires
        0 <= i < j < spec.rank(),
        leaves_at(spec, place, i),
    ensures
        !leaves_at(spec, place, j),
{
    if leads_to(spec, place, j) {
        assert(spec.valid_start(i) <= place[i] < spec.valid_end(i));
    }
}

/// In how many of the zones of the first `m` axes a place lies that does not straddle.
proof fn lemma_zone_count(spec: &PatchSpec, place: Seq<int>, m: int)
    requires
        spec.wf(),
        0 <= m <= spec.rank(),
        place.len() == spec.rank(),
        !straddles(spec, place),
    ensures
        zone_count(spec.invalid_zones(m), place) == (if exists|ix: int|
            0 <= ix < m && #[trigger] leaves_at(spec, place, ix) {
            1int
        } else {
            0
        }),
    decreases m,
{
    if m > 0 {
        lemma_zone_count(spec, place, m - 1);
        lemma_zone_count_at(spec, place, m - 1);
        lemma_zone_count_concat(spec.invalid_zones(m - 1), spec.invalid_zones_at(m - 1), place);
        if leaves_at(spec, place, m - 1) {
            assert forall|ix: int| 0 <= ix < m - 1 implies !#[trigger] leaves_at(
                spec,
                place,
                ix,
            ) by {
                if leaves_at(spec, place, ix) {
                    lemma_leaves_once(spec, place, ix, m - 1);
                }
            }
        } else if exists|ix: int| 0 <= ix < m && #[trigger] leaves_at(spec, place, ix) {
            let ix = choose|ix: int| 0 <= ix < m && #[trigger] leaves_at(spec, place, ix);
            assert(0 <= ix < m - 1);
        }
    }
}

/// A place of the output that is not valid leaves the valid places along some axis first.
proof fn lemma_leaves_somewhere(spec: &PatchSpec, place: Seq<int>, m: int) -> (ix: int)
    requires
        spec.wf(),
        in_grid(spec.output_shape(), place),
        0 <= m < spec.rank(),
        !(spec.valid_start(m) <= place[m] < spec.valid_end(m)),
    ensures
        0 <= ix < spec.rank(),
        leaves_at(spec, place, ix),
    decreases m,
{
    assert forall|j: int| 0 <= j < spec.rank() implies 0 <= #[trigger] place[j] < spec.output(
        j,
    ) by {
        assert(place[j] < spec.output_shape()[j]);
    }
    if forall|j: int|
        0 <= j < m ==> spec.valid_start(j) <= #[trigger] place[j] < spec.valid_end(j) {
        m
    } else {
        let j = choose|j: int|
            0 <= j < m && !(spec.valid_start(j) <= #[trigger] place[j] < spec.valid_end(j));
        lemma_leaves_somewhere(spec, place, j)
    }
}

/// Every place of the output is either valid or lies in exactly one of the other zones, and no zone
/// reaches out of the output. A place that straddles is the only exception.
pub proof fn zones_part_the_output(spec: &PatchSpec, place: Seq<int>)
    requires
        spec.wf(),
        place.len() == spec.rank(),
        !straddles(spec, place),
    ensures
        zone_count(spec.invalid_zones(spec.rank()), place) == (if in_grid(
            spec.output_shape(),
            place,
        ) && !spec.valid_at(place) {
            1int
        } else {
            0
        }),
{
    let n = spec.rank();
    lemma_zone_count(spec, place, n);
    valid_zone_holds_the_valid_places(spec, place);
    if exists|ix: int| 0 <= ix < n && #[trigger] leaves_at(spec, place, ix) {
        let ix = choose|ix: int| 0 <= ix < n && #[trigger] leaves_at(spec, place, ix);
        assert forall|j: int| 0 <= j < n implies 0 <= #[trigger] place[j] < spec.output_shape()[j] by {
            assert(spec.accepts_axis(j));
            lemma_valid_zone_bounds(spec, j);
        }
        assert(!(spec.valid_zone()[ix].0 <= place[ix] < spec.valid_zone()[ix].1));
    } else if in_grid(spec.output_shape(), place) && !spec.valid_at(place) {
        let m = choose|m: int|
            0 <= m < n && !(spec.valid_zone()[m].0 <= #[trigger] place[m]
                < spec.valid_zone()[m].1);
        let ix = lemma_leaves_somewhere(spec, place, m);
        assert(leaves_at(spec, place, ix));
    }
}

/// Where the valid places end after they start, nothing straddles.
pub proof fn ordered_zones_do_not_straddle(spec: &PatchSpec, place: Seq<int>)
    requires
        spec.wf(),
        forall|ix: int|
            0 <= ix < spec.rank() ==> #[trigger] spec.valid_start(ix) <= spec.valid_end(ix),
    ensures
        !straddles(spec, place),
{
    if straddles(spec, place) {
        let ix = choose|ix: int|
            0 <= ix < spec.rank() && #[trigger] leads_to(spec, place, ix) && spec.valid_end(ix)
                <= place[ix] < spec.valid_start(ix);
        assert(spec.valid_start(ix) <= spec.valid_end(ix));
    }
}

/// The kernel need not span more than the input and one more for the valid places to end after they
/// start.
pub proof fn short_kernels_have_ordered_zones(spec: &PatchSpec, ix: int)
    requires
        spec.wf(),
        0 <= ix < spec.rank(),
        kernel_field(spec.kernel_shape@[ix] as int, spec.dilations@[ix] as int) <= spec.dim(ix) + 1,
    ensures
        spec.valid_start(ix) <= spec.valid_end(ix),
{
    assert(spec.accepts_axis(ix));
    lemma_ceil_div_monotone(
        spec.before(ix),
        spec.dim(ix) - spec.last_tap(ix),
        spec.strides@[ix] as int,
    );
}

/// The walk over a zone comes to each of its places once, and to nothing else.
pub proof fn zone_walk_reaches_each_place_once(zone: Bounds)
    requires
        forall|ix: int| 0 <= ix < zone.len() ==> (#[trigger] zone[ix]).0 <= zone[ix].1,
    ensures
        zone_walk(zone).no_duplicates(),
        forall|place: Seq<int>| zone_walk(zone).contains(place) <==> #[trigger] in_zone(zone, place),
{
    let shape = extents(zone);
    let walk = zone_walk(zone);
    assert(is_shape(shape));
    lemma_product_nonnegative(shape);
    assert forall|i: int, j: int| 0 <= i < walk.len() && 0 <= j < walk.len() && i != j implies walk[i]
        != walk[j] by {
        lemma_unravel(shape, i);
        lemma_unravel(shape, j);
        if walk[i] == walk[j] {
            let (u, v) = (unravel(shape, i), unravel(shape, j));
            assert forall|ix: int| 0 <= ix < zone.len() implies #[trigger] u[ix] == v[ix] by {
                assert(walk[i][ix] == walk[j][ix]);
            }
            assert(u =~= v);
        }
    }
    assert forall|place: Seq<int>| walk.contains(place) <==> #[trigger] in_zone(zone, place) by {
        if walk.contains(place) {
            let i = choose|i: int| 0 <= i < walk.len() && walk[i] == place;
            lemma_unravel(shape, i);
            assert forall|ix: int| 0 <= ix < zone.len() implies zone[ix].0 <= #[trigger] place[ix]
                < zone[ix].1 by {
                assert(0 <= unravel(shape, i)[ix] < shape[ix]);
            }
        }
        if in_zone(zone, place) {
            let point = Seq::new(zone.len(), |ix: int| place[ix] - zone[ix].0);
            assert forall|ix: int| 0 <= ix < shape.len() implies 0 <= #[trigger] point[ix]
                < shape[ix] by {
                assert(zone[ix].0 <= place[ix] < zone[ix].1);
            }
            lemma_ravel(shape, point);
            assert(walk[ravel(shape, point)] =~= place);
        }
    }
}

/// How often a walk over zones comes to a place: as often as there are zones in which it lies.
proof fn lemma_walks_count(zones: Seq<Bounds>, place: Seq<int>)
    requires
        forall|z: int, ix: int|
            0 <= z < zones.len() && 0 <= ix < zones[z].len() ==> (#[trigger] zones[z][ix]).0
                <= zones[z][ix].1,
    ensures
        zone_walks(zones).to_multiset().count(place) == zone_count(zones, place),
    decreases zones.len(),
{
    broadcast use vstd::multiset::group_multiset_axioms;

    if zones.len() == 0 {
        zone_walks(zones).to_multiset_ensures();
        assert(!zone_walks(zones).contains(place));
    } else {
        lemma_walks_count(zones.drop_last(), place);
        lemma_walk_count(zones.last(), place);
        lemma_multiset_commutative(zone_walks(zones.drop_last()), zone_walk(zones.last()));
    }
}

/// How often the walk over one zone comes to a place: once where it lies in the zone.
proof fn lemma_walk_count(zone: Bounds, place: Seq<int>)
    requires
        forall|ix: int| 0 <= ix < zone.len() ==> (#[trigger] zone[ix]).0 <= zone[ix].1,
    ensures
        zone_walk(zone).to_multiset().count(place) == (if in_zone(zone, place) {
            1int
        } else {
            0
        }),
{
    zone_walk_reaches_each_place_once(zone);
    zone_walk(zone).to_multiset_ensures();
    zone_walk(zone).lemma_multiset_has_no_duplicates();
    assert(zone_walk(zone).contains(place) <==> in_zone(zone, place));
}

/// The zones other than the valid one do not end before they start, where the valid one does not.
proof fn lemma_invalid_zones_ordered(spec: &PatchSpec, m: int, z: int, ix: int)
    requires
        spec.wf(),
        forall|ix: int|
            0 <= ix < spec.rank() ==> #[trigger] spec.valid_start(ix) <= spec.valid_end(ix),
        0 <= m <= spec.rank(),
        0 <= z < spec.invalid_zones(m).len(),
        0 <= ix < spec.rank(),
    ensures
        spec.invalid_zones(m)[z].len() == spec.rank(),
        0 <= spec.invalid_zones(m)[z][ix].0 <= spec.invalid_zones(m)[z][ix].1 <= spec.output(ix),
    decreases m,
{
    lemma_invalid_zone_axes(spec, m, z);
    if z < spec.invalid_zones(m - 1).len() {
        lemma_invalid_zones_ordered(spec, m - 1, z, ix);
    } else {
        assert(spec.accepts_axis(ix));
        lemma_valid_zone_bounds(spec, ix);
        assert(spec.valid_start(ix) <= spec.valid_end(ix));
    }
}

/// A place in one of the zones other than the valid one is not valid.
proof fn lemma_invalid_zones_are_invalid(spec: &PatchSpec, m: int, z: int, place: Seq<int>)
    requires
        spec.wf(),
        0 <= m <= spec.rank(),
        0 <= z < spec.invalid_zones(m).len(),
        in_zone(spec.invalid_zones(m)[z], place),
    ensures
        !spec.valid_at(place),
    decreases m,
{
    if z < spec.invalid_zones(m - 1).len() {
        lemma_invalid_zones_are_invalid(spec, m - 1, z, place);
    } else {
        let ix = m - 1;
        let zone = spec.invalid_zones(m)[z];
        assert(zone == spec.invalid_zones_at(ix)[z - spec.invalid_zones(ix).len()]);
        assert(zone[ix].0 <= place[ix] < zone[ix].1);
        assert(spec.accepts_axis(ix));
        lemma_valid_along(spec, ix, place[ix]);
        assert(!spec.valid_along(ix, place[ix]));
    }
}

/// What a walk over zones comes to lies in one of the zones.
proof fn lemma_walks_stay_in_zones(zones: Seq<Bounds>, i: int) -> (z: int)
    requires
        0 <= i < zone_walks(zones).len(),
        forall|z: int, ix: int|
            0 <= z < zones.len() && 0 <= ix < zones[z].len() ==> (#[trigger] zones[z][ix]).0
                <= zones[z][ix].1,
    ensures
        0 <= z < zones.len(),
        in_zone(zones[z], zone_walks(zones)[i]),
    decreases zones.len(),
{
    let head = zone_walks(zones.drop_last());
    if i < head.len() {
        lemma_walks_stay_in_zones(zones.drop_last(), i)
    } else {
        let last = zones.last();
        assert(forall|ix: int|
            0 <= ix < last.len() ==> (#[trigger] last[ix]).0 <= last[ix].1) by {
            assert forall|ix: int| 0 <= ix < last.len() implies (#[trigger] last[ix]).0
                <= last[ix].1 by {
                assert(zones[zones.len() - 1][ix].0 <= zones[zones.len() - 1][ix].1);
            }
        }
        zone_walk_reaches_each_place_once(last);
        let place = zone_walk(last)[i - head.len()];
        assert(zone_walk(last).contains(place));
        assert(in_zone(last, place));
        zones.len() - 1
    }
}

/// Visiting all places comes to every place of the output once, and to nothing else, and the hint
/// that comes with a place says whether it is valid. This holds wherever the valid places can be
/// visited at all: along no axis do they end before they start.
pub proof fn visiting_all_reaches_each_place_once(spec: &PatchSpec)
    requires
        spec.wf(),
        forall|ix: int|
            0 <= ix < spec.rank() ==> #[trigger] spec.valid_start(ix) <= spec.valid_end(ix),
    ensures
        places(all_visits(spec, spec.rank())).no_duplicates(),
        forall|place: Seq<int>|
            places(all_visits(spec, spec.rank())).contains(place) <==> #[trigger] in_grid(
                spec.output_shape(),
                place,
            ),
        forall|i: int|
            0 <= i < all_visits(spec, spec.rank()).len() ==> (#[trigger] all_visits(
                spec,
                spec.rank(),
            )[i]).1 == Some(spec.valid_at(all_visits(spec, spec.rank())[i].0)),
{
    broadcast use vstd::multiset::group_multiset_axioms;

    let n = spec.rank();
    lemma_all_axes(spec);
    let valid = spec.valid_zone();
    let invalid = spec.invalid_zones(n);
    let (walk, rest) = (zone_walk(valid), zone_walks(invalid));
    let visits = all_visits(spec, n);
    let all = places(visits);
    assert(all =~= walk + rest);
    assert forall|ix: int| 0 <= ix < valid.len() implies (#[trigger] valid[ix]).0
        <= valid[ix].1 by {
        assert(spec.valid_start(ix) <= spec.valid_end(ix));
    }
    assert forall|z: int, ix: int|
        0 <= z < invalid.len() && 0 <= ix < invalid[z].len() implies (#[trigger] invalid[z][ix]).0
        <= invalid[z][ix].1 by {
        lemma_invalid_zone_axes(spec, n, z);
        lemma_invalid_zones_ordered(spec, n, z, ix);
    }
    lemma_multiset_commutative(walk, rest);
    assert forall|place: Seq<int>| #[trigger] all.to_multiset().count(place) == (if in_grid(
        spec.output_shape(),
        place,
    ) {
        1int
    } else {
        0
    }) by {
        lemma_walk_count(valid, place);
        lemma_walks_count(invalid, place);
        if place.len() == n {
            ordered_zones_do_not_straddle(spec, place);
            zones_part_the_output(spec, place);
            valid_zone_holds_the_valid_places(spec, place);
            if spec.valid_at(place) {
                valid_places_lie_in_the_output(spec, place);
            }
        } else {
            lemma_no_zone_of_other_rank(spec, n, place);
        }
    }
    all.to_multiset_ensures();
    all.lemma_multiset_has_no_duplicates_conv();
    assert forall|place: Seq<int>| all.contains(place) <==> #[trigger] in_grid(
        spec.output_shape(),
        place,
    ) by {
        assert(all.contains(place) <==> all.to_multiset().count(place) > 0);
    }
    assert forall|i: int| 0 <= i < visits.len() implies (#[trigger] visits[i]).1 == Some(
        spec.valid_at(visits[i].0),
    ) by {
        let place = visits[i].0;
        if i < walk.len() {
            zone_walk_reaches_each_place_once(valid);
            assert(walk[i] == place && walk.contains(place));
            assert(in_zone(valid, place));
            valid_zone_holds_the_valid_places(spec, place);
        } else {
            let z = lemma_walks_stay_in_zones(invalid, i - walk.len());
            lemma_invalid_zones_are_invalid(spec, n, z, place);
        }
    }
}

/// No zone holds a place of another rank.
proof fn lemma_no_zone_of_other_rank(spec: &PatchSpec, m: int, place: Seq<int>)
    requires
        0 <= spec.rank(),
        place.len() != spec.rank(),
    ensures
        zone_count(spec.invalid_zones(m), place) == 0,
    decreases m,
{
    if m > 0 {
        lemma_no_zone_of_other_rank(spec, m - 1, place);
        let at = spec.invalid_zones_at(m - 1);
        lemma_zone_count_concat(spec.invalid_zones(m - 1), at, place);
        reveal_with_fuel(zone_count, 3);
        assert(forall|z: int| 0 <= z < at.len() ==> (#[trigger] at[z]).len() == spec.rank());
    }
}

/// Zones inside of a zone that can be counted can be counted.
proof fn lemma_smaller_zones_count(a: Seq<int>, b: Seq<int>)
    requires
        a.len() == b.len(),
        forall|ix: int| 0 <= ix < a.len() ==> 0 <= #[trigger] a[ix] <= b[ix],
    ensures
        1 <= nonzero_product(a) <= nonzero_product(b),
    decreases a.len(),
{
    if a.len() > 0 {
        let (a1, b1) = (a.skip(1), b.skip(1));
        assert forall|ix: int| 0 <= ix < a1.len() implies 0 <= #[trigger] a1[ix] <= b1[ix] by {
            assert(a1[ix] == a[ix + 1] && b1[ix] == b[ix + 1]);
        }
        lemma_smaller_zones_count(a1, b1);
        let (p, q) = (nonzero_product(a1), nonzero_product(b1));
        assert(0 <= a[0] <= b[0]);
        if b[0] != 0 {
            assert(p <= b[0] * q) by (nonlinear_arith)
                requires
                    p <= q,
                    1 <= b[0],
                    1 <= q,
            ;
            if a[0] != 0 {
                assert(1 <= a[0] * p <= b[0] * q) by (nonlinear_arith)
                    requires
                        1 <= a[0] <= b[0],
                        1 <= p <= q,
                ;
            }
        }
    }
}

/// A patch whose places can be counted can be visited, wherever along no axis the valid places end
/// before they start.
pub proof fn countable_patches_can_be_visited(spec: &PatchSpec)
    requires
        spec.wf(),
        forall|ix: int|
            0 <= ix < spec.rank() ==> #[trigger] spec.valid_start(ix) <= spec.valid_end(ix),
        nonzero_product(spec.output_shape()) <= usize::MAX,
    ensures
        walkable(spec.valid_zone(), spec.rank()),
        all_walkable(spec.invalid_zones(spec.rank()), spec.rank()),
{
    let n = spec.rank();
    let (valid, invalid) = (spec.valid_zone(), spec.invalid_zones(n));
    lemma_all_axes(spec);
    assert forall|ix: int| 0 <= ix < n implies (#[trigger] valid[ix]).0 <= valid[ix].1 && 0
        <= extents(valid)[ix] <= spec.output_shape()[ix] by {
        assert(spec.accepts_axis(ix));
        assert(spec.valid_start(ix) <= spec.valid_end(ix));
        lemma_valid_zone_bounds(spec, ix);
    }
    assert forall|ix: int| 0 <= ix < n implies 0 <= #[trigger] extents(valid)[ix]
        <= spec.output_shape()[ix] by {
        assert(valid[ix].0 <= valid[ix].1);
    }
    lemma_smaller_zones_count(extents(valid), spec.output_shape());
    assert forall|z: int| 0 <= z < invalid.len() implies walkable(#[trigger] invalid[z], n) by {
        let zone = invalid[z];
        lemma_invalid_zone_axes(spec, n, z);
        assert forall|ix: int| 0 <= ix < n implies (#[trigger] zone[ix]).0 <= zone[ix].1 by {
            lemma_invalid_zones_ordered(spec, n, z, ix);
        }
        assert forall|ix: int| 0 <= ix < n implies 0 <= #[trigger] extents(zone)[ix]
            <= spec.output_shape()[ix] by {
            lemma_invalid_zones_ordered(spec, n, z, ix);
        }
        lemma_smaller_zones_count(extents(zone), spec.output_shape());
        assert(zone.take(n) =~= zone);
    }
}

/// At every place of the output the taps lie inside of the padded input.
pub proof fn taps_stay_inside_of_the_padding(spec: &PatchSpec, ix: int, c: int)
    requires
        spec.wf(),
        0 <= ix < spec.rank(),
        0 <= c < spec.output(ix),
    ensures
        -spec.before(ix) <= c * spec.strides@[ix] + spec.first_tap(ix),
        c * spec.strides@[ix] + spec.last_tap(ix) < spec.dim(ix) + spec.after(ix),
{
    assert(spec.accepts_axis(ix));
    let s = spec.strides@[ix] as int;
    let (i, k, d) = (spec.dim(ix), spec.kernel_shape@[ix] as int, spec.dilations@[ix] as int);
    assert(0 <= c * s) by (nonlinear_arith)
        requires
            0 <= c,
            0 <= s,
    ;
    match spec.padding {
        PaddingSpec::Explicit(_, _) | PaddingSpec::Valid => {
            lemma_ceil_div(
                i + spec.before(ix) + spec.after(ix) - kernel_field(k, d) + 1,
                s,
                c,
            );
        },
        _ => {
            let out = ceil_div(i, s);
            assert(c * s <= (out - 1) * s) by (nonlinear_arith)
                requires
                    c <= out - 1,
                    0 <= s,
            ;
        },
    }
}

/// Without padding every place of the output is valid.
pub proof fn places_without_padding_are_valid(spec: &PatchSpec, place: Seq<int>)
    requires
        spec.wf(),
        !is_padded(spec),
        in_grid(spec.output_shape(), place),
    ensures
        spec.valid_at(place),
{
    assert forall|ix: int| 0 <= ix < spec.rank() implies spec.valid_along(
        ix,
        #[trigger] place[ix],
    ) by {
        assert(place[ix] < spec.output_shape()[ix]);
        assert(spec.before(ix) == 0 && spec.after(ix) == 0);
        taps_stay_inside_of_the_padding(spec, ix, place[ix]);
    }
}

/// At a valid place it makes no difference whether the taps are asked where they lie.
pub proof fn valid_places_read_the_same_unasked(spec: &PatchSpec, place: Seq<int>)
    requires
        spec.wf(),
        place.len() == spec.rank(),
        spec.valid_at(place),
    ensures
        pixels(spec, place, true) == pixels(spec, place, false),
{
    lemma_taps_positive(spec);
    assert forall|t: int| 0 <= t < spec.taps() implies #[trigger] spec.inside(
        spec.position(place),
        t,
    ) by {
        lemma_valid_is_inside(spec, place, t);
    }
    assert(pixels(spec, place, true) =~= pixels(spec, place, false));
}

/// At a place of the output, a hint that is right changes nothing that is read, and neither does
/// reading without one.
pub proof fn right_hints_change_nothing(patch: &Patch, place: Seq<int>, hint: Option<bool>)
    requires
        patch.wf(),
        in_grid(patch.spec.output_shape(), place),
        hint is None || hint == Some(patch.spec.valid_at(place)),
    ensures
        pixels(&patch.spec, place, taken_as_valid(patch, place, hint)) == pixels(
            &patch.spec,
            place,
            false,
        ),
{
    if taken_as_valid(patch, place, hint) {
        if !patch.padded {
            places_without_padding_are_valid(&patch.spec, place);
        }
        valid_places_read_the_same_unasked(&patch.spec, place);
    }
}

/// What is read of a tap that lies inside of the input is where its point of the input lies, where
/// the input is stored in row-major order. This is among the elements of the image, and the same as
/// the global offset.
pub proof fn pixels_lie_in_the_image(spec: &PatchSpec, place: Seq<int>, t: int)
    requires
        spec.wf(),
        place.len() == spec.rank(),
        0 <= t < spec.taps(),
        spec.inside(spec.position(place), t),
    ensures
        ({
            let point = Seq::new(
                spec.rank() as nat,
                |ix: int| spec.position(place)[ix] + spec.tap(t)[ix],
            );
            let shape = ints(spec.input_full_shape@);
            let h = spec.data_format.first_spatial_axis();
            let offset = spec.center(place) + spec.tap_offset(t);
            &&& pixels(spec, place, false)[t] == Some(offset)
            &&& offset == dot(point, spec.layout())
            &&& 0 <= offset
            &&& offset + product(shape.skip(h + spec.rank())) <= product(shape.skip(h))
                <= isize::MAX
        }),
{
    let position = spec.position(place);
    let point = Seq::new(spec.rank() as nat, |ix: int| position[ix] + spec.tap(t)[ix]);
    lemma_center(spec, place);
    lemma_pixel(spec, position, t);
    assert forall|ix: int| 0 <= ix < spec.rank() implies 0 <= #[trigger] point[ix] < spec.dim(
        ix,
    ) by {
        assert(0 <= position[ix] + spec.tap(t)[ix] < spec.dim(ix));
    }
    lemma_point_in_image(spec, point);
}

/// Where an `isize` counts the padded input along each axis, the taps can be counted at every place of
/// the output, and those that are not asked where they lie are inside, be the hint right or not given.
pub proof fn output_places_can_be_read(patch: &Patch, place: Seq<int>, hint: Option<bool>)
    requires
        patch.wf(),
        in_grid(patch.spec.output_shape(), place),
        hint is None || hint == Some(patch.spec.valid_at(place)),
        forall|ix: int|
            0 <= ix < patch.spec.rank() ==> #[trigger] patch.spec.dim(ix) + patch.spec.before(ix)
                + patch.spec.after(ix) <= isize::MAX,
    ensures
        unasked(patch, hint) ==> patch.spec.valid_at(place),
        forall|ix: int|
            0 <= ix < patch.spec.rank() ==> patch.spec.place_fits(ix, #[trigger] place[ix]),
{
    let spec = &patch.spec;
    if !patch.padded {
        places_without_padding_are_valid(spec, place);
    }
    assert forall|ix: int| 0 <= ix < spec.rank() implies spec.place_fits(
        ix,
        #[trigger] place[ix],
    ) by {
        assert(spec.accepts_axis(ix));
        assert(place[ix] < spec.output_shape()[ix]);
        assert(spec.dim(ix) + spec.before(ix) + spec.after(ix) <= isize::MAX);
        taps_stay_inside_of_the_padding(spec, ix, place[ix]);
        lemma_axis(spec, ix);
    }
}

/// The least and the greatest offset along an axis bound the offsets of all taps, and are offsets of
/// taps.
pub proof fn extremes_bound_the_taps(patch: &Patch, ix: int)
    requires
        patch.wf(),
        0 <= ix < patch.spec.rank(),
    ensures
        forall|t: int|
            0 <= t < patch.spec.taps() ==> patch.data_field_min_max@[ix].0
                <= #[trigger] patch.data_field.cell(t, ix) <= patch.data_field_min_max@[ix].1,
        exists|t: int|
            0 <= t < patch.spec.taps() && #[trigger] patch.data_field.cell(t, ix)
                == patch.data_field_min_max@[ix].0,
        exists|t: int|
            0 <= t < patch.spec.taps() && #[trigger] patch.data_field.cell(t, ix)
                == patch.data_field_min_max@[ix].1,
{
    let spec = &patch.spec;
    assert forall|t: int| 0 <= t < spec.taps() implies patch.data_field_min_max@[ix].0
        <= #[trigger] patch.data_field.cell(t, ix) <= patch.data_field_min_max@[ix].1 by {
        lemma_tap(spec, t, ix);
    }
    let (first, last) = lemma_extreme_taps(spec, ix);
    assert(patch.data_field.cell(first, ix) == spec.tap(first)[ix]);
    assert(patch.data_field.cell(last, ix) == spec.tap(last)[ix]);
}

/// A kernel of one tap, moved one by one without padding, has the places of the input, and reads at
/// each of them the input itself.
pub proof fn single_taps_read_the_input_itself(spec: &PatchSpec, place: Seq<int>)
    requires
        spec.wf(),
        forall|ix: int|
            0 <= ix < spec.rank() ==> #[trigger] spec.kernel_shape@[ix] == 1 && spec.strides@[ix]
                == 1,
        spec.padding == PaddingSpec::Valid,
        in_grid(spec.output_shape(), place),
    ensures
        spec.output_shape() == Seq::new(spec.rank() as nat, |ix: int| spec.dim(ix)),
        !is_padded(spec),
        pixels(spec, place, false) == seq![Some(dot(place, spec.layout()))],
{
    let kernel = ints(spec.kernel_shape@);
    assert(kernel =~= Seq::new(spec.rank() as nat, |ix: int| 1int));
    lemma_product_of_ones(kernel);
    assert forall|ix: int| 0 <= ix < spec.rank() implies #[trigger] spec.output_shape()[ix]
        == spec.dim(ix) by {
        assert(spec.kernel_shape@[ix] == 1);
        assert(0 * spec.dilations@[ix] == 0);
    }
    assert(spec.output_shape() =~= Seq::new(spec.rank() as nat, |ix: int| spec.dim(ix)));
    assert forall|ix: int| 0 <= ix < spec.rank() implies #[trigger] spec.tap(0)[ix] == 0 by {
        lemma_tap(spec, 0, ix);
        assert(spec.kernel_shape@[ix] == 1);
        assert(0 * spec.dilations@[ix] == 0);
    }
    let position = spec.position(place);
    assert(position =~= place) by {
        assert forall|ix: int| 0 <= ix < spec.rank() implies #[trigger] position[ix] == place[ix] by {
            assert(spec.kernel_shape@[ix] == 1);
        }
    }
    assert forall|ix: int| 0 <= ix < spec.rank() implies 0 <= #[trigger] position[ix] + spec.tap(
        0,
    )[ix] < spec.dim(ix) by {
        assert(place[ix] < spec.output_shape()[ix]);
    }
    pixels_lie_in_the_image(spec, place, 0);
    assert(Seq::new(spec.rank() as nat, |ix: int| position[ix] + spec.tap(0)[ix]) =~= place);
    assert(pixels(spec, place, false) =~= seq![Some(dot(place, spec.layout()))]);
}

proof fn lemma_product_of_ones(shape: Seq<int>)
    requires
        forall|j: int| 0 <= j < shape.len() ==> #[trigger] shape[j] == 1,
    ensures
        product(shape) == 1,
    decreases shape.len(),
{
    if shape.len() > 0 {
        lemma_product_of_ones(shape.skip(1));
    }
}

} // verus!
