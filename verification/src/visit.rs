//! Walking over the places of a kernel, zone by zone.
use crate::arrays::indices;
use crate::grid::{
    in_grid, ints, is_shape, lemma_product_nonnegative, lemma_unravel, nonzero_product, product,
    unravel,
};
use crate::grid_laws::points_of_grids_are_multiplied;
use crate::laws::visiting_all_reaches_each_place_once;
use crate::patch::{all_bounds, bounds, Patch};
use crate::patch_spec::{Bounds, PatchSpec};
use crate::zone_laws::walks_over_zones_count_round;
use core::ops::Range;
use vstd::arithmetic::div_mod::{
    lemma_div_pos_is_pos, lemma_fundamental_div_mod, lemma_mod_bound, lemma_small_mod,
};
use vstd::prelude::*;

verus! {

/// How many places a zone has along each axis.
pub open spec fn extents(zone: Bounds) -> Seq<int> {
    Seq::new(zone.len(), |ix: int| zone[ix].1 - zone[ix].0)
}

/// The places of a zone, in row-major order.
pub open spec fn zone_walk(zone: Bounds) -> Seq<Seq<int>> {
    Seq::new(
        product(extents(zone)) as nat,
        |i: int|
            Seq::new(zone.len(), |ix: int| zone[ix].0 + unravel(extents(zone), i)[ix]),
    )
}

/// The places of each zone, zone after zone.
pub open spec fn zone_walks(zones: Seq<Bounds>) -> Seq<Seq<int>>
    decreases zones.len(),
{
    if zones.len() == 0 {
        Seq::empty()
    } else {
        zone_walks(zones.drop_last()) + zone_walk(zones.last())
    }
}

/// What is left of each zone with the first `k` axes alone.
pub open spec fn first_axes(zones: Seq<Bounds>, k: int) -> Seq<Bounds> {
    Seq::new(zones.len(), |z: int| zones[z].take(k))
}

/// Whether the first `k` axes of a zone can be walked: no axis ends before it starts, and the
/// places can be counted.
pub open spec fn walkable(zone: Bounds, k: int) -> bool {
    &&& k <= zone.len()
    &&& forall|ix: int| 0 <= ix < k ==> (#[trigger] zone[ix]).0 <= zone[ix].1
    &&& nonzero_product(extents(zone.take(k))) <= usize::MAX
}

/// Whether the first `k` axes of each zone can be walked.
pub open spec fn all_walkable(zones: Seq<Bounds>, k: int) -> bool {
    forall|z: int| 0 <= z < zones.len() ==> walkable(#[trigger] zones[z], k)
}

/// Places, each with the same hint.
pub open spec fn with_hint(walk: Seq<Seq<int>>, hint: Option<bool>) -> Seq<
    (Seq<int>, Option<bool>),
> {
    Seq::new(walk.len(), |i: int| (walk[i], hint))
}

/// All places along the first `k` axes, with the hint that tells the valid ones from the others: the
/// valid ones, and then the others, zone after zone.
pub open spec fn all_visits(spec: &PatchSpec, k: int) -> Seq<(Seq<int>, Option<bool>)> {
    with_hint(zone_walk(spec.valid_zone().take(k)), Some(true)) + with_hint(
        zone_walks(first_axes(spec.invalid_zones(spec.rank()), k)),
        Some(false),
    )
}

/// The places of the visits, without the hints.
pub open spec fn places(visits: Seq<(Seq<int>, Option<bool>)>) -> Seq<Seq<int>> {
    Seq::new(visits.len(), |i: int| visits[i].0)
}

/// The places that were visited along one axis.
pub open spec fn visits_1(visited: Seq<(usize, Option<bool>)>) -> Seq<(Seq<int>, Option<bool>)> {
    Seq::new(visited.len(), |i: int| (seq![visited[i].0 as int], visited[i].1))
}

/// The places that were visited along two axes.
pub open spec fn visits_2(visited: Seq<((usize, usize), Option<bool>)>) -> Seq<
    (Seq<int>, Option<bool>),
> {
    Seq::new(
        visited.len(),
        |i: int| (seq![visited[i].0.0 as int, visited[i].0.1 as int], visited[i].1),
    )
}

/// The places that were visited along any number of axes.
pub open spec fn visits_d(visited: Seq<(Vec<usize>, Option<bool>)>) -> Seq<
    (Seq<int>, Option<bool>),
> {
    Seq::new(visited.len(), |i: int| (ints(visited[i].0@), visited[i].1))
}

/// Visits the places of the first `k` axes of a zone, each with the hint.
fn visit_axes(zone: &[Range<usize>], k: usize, hint: Option<bool>) -> (visited: Vec<
    (Vec<usize>, Option<bool>),
>)
    requires
        walkable(bounds(zone@), k as int),
    ensures
        visits_d(visited@) == with_hint(zone_walk(bounds(zone@).take(k as int)), hint),
{
    let ghost cut = bounds(zone@).take(k as int);
    assert(bounds(zone@).len() == zone@.len());
    let mut shape: Vec<usize> = Vec::new();
    for ix in 0..k
        invariant
            walkable(bounds(zone@), k as int),
            k <= zone@.len(),
            cut == bounds(zone@).take(k as int),
            shape@.len() == ix,
            forall|j: int| 0 <= j < ix ==> #[trigger] shape@[j] == extents(cut)[j],
    {
        assert(bounds(zone@)[ix as int].0 <= bounds(zone@)[ix as int].1);
        let range = &zone[ix];
        shape.push(range.end - range.start);
    }
    assert(ints(shape@) =~= extents(cut));
    assert(is_shape(extents(cut)));
    let points = indices(shape.as_slice());
    let mut visited: Vec<(Vec<usize>, Option<bool>)> = Vec::new();
    for i in 0..points.len()
        invariant
            k <= zone@.len(),
            cut == bounds(zone@).take(k as int),
            is_shape(extents(cut)),
            points@.len() == product(extents(cut)),
            forall|i: int|
                0 <= i < points@.len() ==> ints((#[trigger] points@[i])@) == unravel(
                    extents(cut),
                    i,
                ),
            visited@.len() == i,
            forall|j: int|
                0 <= j < i ==> ints((#[trigger] visited@[j]).0@) == zone_walk(cut)[j]
                    && visited@[j].1 == hint,
    {
        let ghost u = unravel(extents(cut), i as int);
        proof {
            lemma_unravel(extents(cut), i as int);
        }
        let point = &points[i];
        assert(ints(point@) == u && ints(point@).len() == point@.len());
        let mut place: Vec<usize> = Vec::new();
        for ix in 0..k
            invariant
                k <= zone@.len(),
                cut == bounds(zone@).take(k as int),
                in_grid(extents(cut), u),
                ints(point@) == u,
                point@.len() == k,
                place@.len() == ix,
                forall|j: int| 0 <= j < ix ==> #[trigger] place@[j] == cut[j].0 + u[j],
        {
            proof {
                assert(ints(point@)[ix as int] == point@[ix as int]);
                assert(u[ix as int] < extents(cut)[ix as int]);
                assert(bounds(zone@)[ix as int] == cut[ix as int]);
            }
            place.push(point[ix] + zone[ix].start);
        }
        assert(ints(place@) =~= zone_walk(cut)[i as int]);
        visited.push((place, hint));
    }
    assert(visits_d(visited@) =~= with_hint(zone_walk(cut), hint));
    visited
}

/// The same visits, along the one axis that each place has.
fn along_1(visited: &Vec<(Vec<usize>, Option<bool>)>) -> (res: Vec<(usize, Option<bool>)>)
    requires
        forall|i: int| 0 <= i < visited@.len() ==> (#[trigger] visited@[i]).0@.len() == 1,
    ensures
        visits_1(res@) == visits_d(visited@),
{
    let mut res: Vec<(usize, Option<bool>)> = Vec::new();
    for i in 0..visited.len()
        invariant
            forall|i: int| 0 <= i < visited@.len() ==> (#[trigger] visited@[i]).0@.len() == 1,
            visits_1(res@) == visits_d(visited@).take(i as int),
    {
        let ghost earlier = res@;
        let (place, hint) = &visited[i];
        assert(visited@[i as int].0@.len() == 1);
        res.push((place[0], *hint));
        assert(seq![place@[0] as int] =~= ints(place@));
        assert(visits_1(res@) =~= visits_1(earlier).push((ints(place@), *hint)));
        assert(visits_1(res@) =~= visits_d(visited@).take(i + 1));
    }
    assert(visits_d(visited@).take(visited@.len() as int) =~= visits_d(visited@));
    res
}

/// The same visits, along the two axes that each place has.
fn along_2(visited: &Vec<(Vec<usize>, Option<bool>)>) -> (res: Vec<((usize, usize), Option<bool>)>)
    requires
        forall|i: int| 0 <= i < visited@.len() ==> (#[trigger] visited@[i]).0@.len() == 2,
    ensures
        visits_2(res@) == visits_d(visited@),
{
    let mut res: Vec<((usize, usize), Option<bool>)> = Vec::new();
    for i in 0..visited.len()
        invariant
            forall|i: int| 0 <= i < visited@.len() ==> (#[trigger] visited@[i]).0@.len() == 2,
            visits_2(res@) == visits_d(visited@).take(i as int),
    {
        let ghost earlier = res@;
        let (place, hint) = &visited[i];
        assert(visited@[i as int].0@.len() == 2);
        res.push(((place[0], place[1]), *hint));
        assert(seq![place@[0] as int, place@[1] as int] =~= ints(place@));
        assert(visits_2(res@) =~= visits_2(earlier).push((ints(place@), *hint)));
        assert(visits_2(res@) =~= visits_d(visited@).take(i + 1));
    }
    assert(visits_d(visited@).take(visited@.len() as int) =~= visits_d(visited@));
    res
}

/// The places of a zone have as many axes as the zone.
proof fn lemma_visited_axes(visited: Seq<(Vec<usize>, Option<bool>)>, zone: Bounds, hint: Option<bool>)
    requires
        visits_d(visited) == with_hint(zone_walk(zone), hint),
    ensures
        forall|i: int| 0 <= i < visited.len() ==> (#[trigger] visited[i]).0@.len() == zone.len(),
{
    assert forall|i: int| 0 <= i < visited.len() implies (#[trigger] visited[i]).0@.len()
        == zone.len() by {
        assert(visits_d(visited).len() == visited.len());
        assert(visits_d(visited)[i].0 == ints(visited[i].0@));
        assert(with_hint(zone_walk(zone), hint)[i].0 == zone_walk(zone)[i]);
        assert(zone_walk(zone)[i].len() == zone.len());
        assert(ints(visited[i].0@).len() == visited[i].0@.len());
    }
}

/// One axis can be walked as soon as it does not end before it starts.
proof fn lemma_walkable_1(zone: Bounds)
    requires
        zone.len() >= 1,
        zone[0].0 <= zone[0].1 <= zone[0].0 + usize::MAX,
    ensures
        walkable(zone, 1),
{
    let shape = extents(zone.take(1));
    assert(shape.skip(1) =~= Seq::<int>::empty());
    reveal_with_fuel(nonzero_product, 2);
    assert(shape[0] * 1 == shape[0]);
}

/// The places of one axis come one by one.
proof fn lemma_visited_1(visited: Seq<(usize, Option<bool>)>, zone: Bounds, hint: Option<bool>)
    requires
        walkable(zone, 1),
        visits_1(visited) == with_hint(zone_walk(zone.take(1)), hint),
    ensures
        visited.len() == zone[0].1 - zone[0].0,
        forall|i: int|
            0 <= i < visited.len() ==> #[trigger] visited[i].0 == zone[0].0 + i && visited[i].1
                == hint,
{
    let cut = zone.take(1);
    let counts = extents(cut);
    assert(zone[0].0 <= zone[0].1);
    assert(counts.skip(1) =~= Seq::<int>::empty());
    assert(counts =~= seq![zone[0].1 - zone[0].0]);
    points_of_grids_are_multiplied(Seq::empty(), Seq::empty(), zone[0].1 - zone[0].0);
    assert(visits_1(visited).len() == visited.len());
    assert forall|i: int| 0 <= i < visited.len() implies #[trigger] visited[i].0 == zone[0].0 + i
        && visited[i].1 == hint by {
        walks_over_zones_count_round(cut, i, 0);
        assert(Seq::new(cut.len(), |j: int| cut[j].1 - cut[j].0) =~= counts);
        lemma_small_mod(i as nat, (zone[0].1 - zone[0].0) as nat);
        assert(visits_1(visited)[i].0[0] == visited[i].0);
        assert(visits_1(visited)[i] == (zone_walk(cut)[i], hint));
    }
}

/// The places of two axes come row by row.
proof fn lemma_visited_2(
    visited: Seq<((usize, usize), Option<bool>)>,
    zone: Bounds,
    hint: Option<bool>,
)
    requires
        walkable(zone, 2),
        visits_2(visited) == with_hint(zone_walk(zone.take(2)), hint),
    ensures
        visited.len() == (zone[0].1 - zone[0].0) * (zone[1].1 - zone[1].0),
        forall|i: int|
            0 <= i < visited.len() ==> {
                let width = zone[1].1 - zone[1].0;
                &&& (#[trigger] visited[i]).0.0 == zone[0].0 + i / width
                &&& visited[i].0.1 == zone[1].0 + i % width
                &&& visited[i].1 == hint
            },
{
    let cut = zone.take(2);
    let counts = extents(cut);
    let (height, width) = (zone[0].1 - zone[0].0, zone[1].1 - zone[1].0);
    assert(zone[0].0 <= zone[0].1 && zone[1].0 <= zone[1].1);
    assert(counts.skip(2) =~= Seq::<int>::empty());
    assert(counts.skip(1) =~= seq![width]);
    assert(counts =~= seq![height] + seq![width]);
    points_of_grids_are_multiplied(seq![height], seq![width], width);
    points_of_grids_are_multiplied(Seq::empty(), Seq::empty(), height);
    assert(0 <= height * width) by (nonlinear_arith)
        requires
            0 <= height,
            0 <= width,
    ;
    assert(visits_2(visited).len() == visited.len());
    assert forall|i: int| 0 <= i < visited.len() implies {
        &&& (#[trigger] visited[i]).0.0 == zone[0].0 + i / width
        &&& visited[i].0.1 == zone[1].0 + i % width
        &&& visited[i].1 == hint
    } by {
        walks_over_zones_count_round(cut, i, 0);
        walks_over_zones_count_round(cut, i, 1);
        assert(Seq::new(cut.len(), |j: int| cut[j].1 - cut[j].0) =~= counts);
        lemma_fundamental_div_mod(i, width);
        lemma_mod_bound(i, width);
        lemma_div_pos_is_pos(i, width);
        assert(i / width < height) by (nonlinear_arith)
            requires
                i < height * width,
                i == width * (i / width) + i % width,
                0 <= i % width,
                0 < width,
        ;
        lemma_small_mod((i / width) as nat, height as nat);
        assert(visits_2(visited)[i].0[0] == visited[i].0.0);
        assert(visits_2(visited)[i].0[1] == visited[i].0.1);
        assert(visits_2(visited)[i] == (zone_walk(cut)[i], hint));
    }
}

/// The places of a zone count its axes round.
proof fn lemma_visited_d(
    visited: Seq<(Vec<usize>, Option<bool>)>,
    zone: Seq<Range<usize>>,
    hint: Option<bool>,
)
    requires
        walkable(bounds(zone), zone.len() as int),
        visits_d(visited) == with_hint(zone_walk(bounds(zone)), hint),
    ensures
        ({
            let counts = Seq::new(zone.len(), |ix: int| zone[ix].end - zone[ix].start);
            &&& visited.len() == product(counts)
            &&& forall|i: int|
                0 <= i < visited.len() ==> (#[trigger] visited[i]).0@.len() == zone.len()
                    && visited[i].1 == hint
            &&& forall|i: int, ix: int|
                0 <= i < visited.len() && 0 <= ix < zone.len() ==> #[trigger] visited[i].0@[ix]
                    == zone[ix].start + i / product(counts.skip(ix + 1)) % counts[ix]
        }),
{
    let counts = Seq::new(zone.len(), |ix: int| zone[ix].end - zone[ix].start);
    let b = bounds(zone);
    assert(extents(b) =~= counts);
    assert(Seq::new(b.len(), |j: int| b[j].1 - b[j].0) =~= counts);
    assert(is_shape(counts)) by {
        assert forall|j: int| 0 <= j < counts.len() implies 0 <= #[trigger] counts[j] by {
            assert(b[j].0 <= b[j].1);
        }
    }
    lemma_product_nonnegative(counts);
    assert(visits_d(visited).len() == visited.len());
    lemma_visited_axes(visited, b, hint);
    assert forall|i: int| 0 <= i < visited.len() implies (#[trigger] visited[i]).0@.len()
        == zone.len() && visited[i].1 == hint by {
        assert(visits_d(visited)[i] == (zone_walk(b)[i], hint));
    }
    assert forall|i: int, ix: int|
        0 <= i < visited.len() && 0 <= ix < zone.len() implies #[trigger] visited[i].0@[ix]
        == zone[ix].start + i / product(counts.skip(ix + 1)) % counts[ix] by {
        assert(visited[i].0@.len() == zone.len());
        walks_over_zones_count_round(b, i, ix);
        assert(visits_d(visited)[i] == (zone_walk(b)[i], hint));
        assert(ints(visited[i].0@)[ix] == visited[i].0@[ix]);
    }
}

/// Visiting all places comes to each place of the output once, with the right hint.
proof fn lemma_all_places(patch: &Patch, visits: Seq<(Seq<int>, Option<bool>)>)
    requires
        patch.wf(),
        walkable(patch.spec.valid_zone(), patch.spec.rank()),
        visits == all_visits(&patch.spec, patch.spec.rank()),
    ensures
        forall|i: int|
            0 <= i < visits.len() ==> in_grid(
                ints(patch.output_spatial_shape@),
                (#[trigger] visits[i]).0,
            ) && visits[i].1 == Some(patch.spec.valid_at(visits[i].0)),
        forall|i: int, j: int|
            0 <= i < j < visits.len() ==> (#[trigger] visits[i]).0 != (#[trigger] visits[j]).0,
        forall|place: Seq<int>| #[trigger]
            in_grid(ints(patch.output_spatial_shape@), place) ==> exists|i: int|
                0 <= i < visits.len() && (#[trigger] visits[i]).0 == place,
{
    let spec = &patch.spec;
    assert forall|ix: int| 0 <= ix < spec.rank() implies #[trigger] spec.valid_start(ix)
        <= spec.valid_end(ix) by {
        assert(spec.valid_zone()[ix].0 <= spec.valid_zone()[ix].1);
    }
    visiting_all_reaches_each_place_once(spec);
    let all = places(visits);
    assert forall|i: int| 0 <= i < visits.len() implies in_grid(
        ints(patch.output_spatial_shape@),
        (#[trigger] visits[i]).0,
    ) && visits[i].1 == Some(spec.valid_at(visits[i].0)) by {
        assert(all[i] == visits[i].0);
        assert(all.contains(visits[i].0));
        assert(in_grid(spec.output_shape(), visits[i].0));
    }
    assert forall|i: int, j: int| 0 <= i < j < visits.len() implies (#[trigger] visits[i]).0 != (
    #[trigger] visits[j]).0 by {
        assert(all[i] == visits[i].0 && all[j] == visits[j].0);
    }
    assert forall|place: Seq<int>| #[trigger]
        in_grid(ints(patch.output_spatial_shape@), place) implies exists|i: int|
        0 <= i < visits.len() && (#[trigger] visits[i]).0 == place by {
        assert(in_grid(spec.output_shape(), place));
        assert(all.contains(place));
        let i = choose|i: int| 0 <= i < all.len() && all[i] == place;
        assert(visits[i].0 == place);
    }
}

impl Patch {
    /// Visits the places of the first axis of a zone, each with the hint.
    pub fn visit_zone_1(&self, zone: &[Range<usize>], valid_hint: Option<bool>) -> (visited: Vec<
        (usize, Option<bool>),
    >)
        requires
            zone@.len() >= 1,
            zone@[0].start <= zone@[0].end,
        ensures
            visits_1(visited@) == with_hint(zone_walk(bounds(zone@).take(1)), valid_hint),
            visited@.len() == zone@[0].end - zone@[0].start,
            forall|i: int|
                0 <= i < visited@.len() ==> #[trigger] visited@[i].0 == zone@[0].start + i
                    && visited@[i].1 == valid_hint,
    {
        proof {
            lemma_walkable_1(bounds(zone@));
        }
        let visited = visit_axes(zone, 1, valid_hint);
        proof {
            lemma_visited_axes(visited@, bounds(zone@).take(1), valid_hint);
        }
        let res = along_1(&visited);
        proof {
            lemma_visited_1(res@, bounds(zone@), valid_hint);
        }
        res
    }

    /// Visits the places of the first two axes of a zone, each with the hint.
    pub fn visit_zone_2(&self, zone: &[Range<usize>], valid_hint: Option<bool>) -> (visited: Vec<
        ((usize, usize), Option<bool>),
    >)
        requires
            walkable(bounds(zone@), 2),
        ensures
            visits_2(visited@) == with_hint(zone_walk(bounds(zone@).take(2)), valid_hint),
            visited@.len() == (zone@[0].end - zone@[0].start) * (zone@[1].end - zone@[1].start),
            forall|i: int|
                0 <= i < visited@.len() ==> {
                    let width = zone@[1].end - zone@[1].start;
                    &&& (#[trigger] visited@[i]).0.0 == zone@[0].start + i / width
                    &&& visited@[i].0.1 == zone@[1].start + i % width
                    &&& visited@[i].1 == valid_hint
                },
    {
        let visited = visit_axes(zone, 2, valid_hint);
        proof {
            lemma_visited_axes(visited@, bounds(zone@).take(2), valid_hint);
        }
        let res = along_2(&visited);
        proof {
            lemma_visited_2(res@, bounds(zone@), valid_hint);
        }
        res
    }

    /// Visits the places of a zone, each with the hint.
    pub fn visit_zone_d(&self, zone: &[Range<usize>], valid_hint: Option<bool>) -> (visited: Vec<
        (Vec<usize>, Option<bool>),
    >)
        requires
            walkable(bounds(zone@), zone@.len() as int),
        ensures
            visits_d(visited@) == with_hint(zone_walk(bounds(zone@)), valid_hint),
            ({
                let counts = Seq::new(zone@.len(), |ix: int| zone@[ix].end - zone@[ix].start);
                &&& visited@.len() == product(counts)
                &&& forall|i: int|
                    0 <= i < visited@.len() ==> (#[trigger] visited@[i]).0@.len() == zone@.len()
                        && visited@[i].1 == valid_hint
                &&& forall|i: int, ix: int|
                    0 <= i < visited@.len() && 0 <= ix < zone@.len() ==> #[trigger] visited@[i].0@[ix]
                        == zone@[ix].start + i / product(counts.skip(ix + 1)) % counts[ix]
            }),
    {
        assert(bounds(zone@).take(zone@.len() as int) =~= bounds(zone@));
        let visited = visit_axes(zone, zone.len(), valid_hint);
        proof {
            lemma_visited_d(visited@, zone@, valid_hint);
        }
        visited
    }

    /// Visits the places along one axis: the valid ones, and then the others.
    pub fn visit_all_1(&self) -> (visited: Vec<(usize, Option<bool>)>)
        requires
            self.wf(),
            walkable(self.spec.valid_zone(), 1),
            all_walkable(self.spec.invalid_zones(self.spec.rank()), 1),
        ensures
            visits_1(visited@) == all_visits(&self.spec, 1),
            self.spec.rank() == 1 ==> {
                &&& forall|i: int|
                    0 <= i < visited@.len() ==> in_grid(
                        ints(self.output_spatial_shape@),
                        seq![(#[trigger] visited@[i]).0 as int],
                    ) && visited@[i].1 == Some(self.spec.valid_at(seq![visited@[i].0 as int]))
                &&& forall|i: int, j: int|
                    0 <= i < j < visited@.len() ==> (#[trigger] visited@[i]).0 != (
                    #[trigger] visited@[j]).0
                &&& forall|place: Seq<int>| #[trigger]
                    in_grid(ints(self.output_spatial_shape@), place) ==> exists|i: int|
                        0 <= i < visited@.len() && seq![(#[trigger] visited@[i]).0 as int] == place
            },
    {
        let mut visited = self.visit_valid_1();
        let mut invalid = self.visit_invalid_1();
        let ghost (first, second) = (visited@, invalid@);
        visited.append(&mut invalid);
        assert(visits_1(visited@) =~= visits_1(first) + visits_1(second));
        proof {
            if self.spec.rank() == 1 {
                lemma_all_places(self, visits_1(visited@));
                assert forall|i: int| 0 <= i < visited@.len() implies in_grid(
                    ints(self.output_spatial_shape@),
                    seq![(#[trigger] visited@[i]).0 as int],
                ) && visited@[i].1 == Some(self.spec.valid_at(seq![visited@[i].0 as int])) by {
                    assert(visits_1(visited@)[i] == (seq![visited@[i].0 as int], visited@[i].1));
                }
                assert forall|i: int, j: int| 0 <= i < j < visited@.len() implies (
                #[trigger] visited@[i]).0 != (#[trigger] visited@[j]).0 by {
                    assert(visits_1(visited@)[i].0 != visits_1(visited@)[j].0);
                }
                assert forall|place: Seq<int>| #[trigger]
                    in_grid(ints(self.output_spatial_shape@), place) implies exists|i: int|
                    0 <= i < visited@.len() && seq![(#[trigger] visited@[i]).0 as int] == place by {
                    let i = choose|i: int|
                        0 <= i < visits_1(visited@).len() && (#[trigger] visits_1(visited@)[i]).0
                            == place;
                    assert(seq![visited@[i].0 as int] == place);
                }
            }
        }
        visited
    }

    /// Visits the valid places along one axis.
    pub fn visit_valid_1(&self) -> (visited: Vec<(usize, Option<bool>)>)
        requires
            self.wf(),
            walkable(self.spec.valid_zone(), 1),
        ensures
            visits_1(visited@) == with_hint(zone_walk(self.spec.valid_zone().take(1)), Some(true)),
            visited@.len() == self.valid_output_zone@[0].end - self.valid_output_zone@[0].start,
            forall|i: int|
                0 <= i < visited@.len() ==> #[trigger] visited@[i].0
                    == self.valid_output_zone@[0].start + i && visited@[i].1 == Some(true),
    {
        let zone = self.valid_output_zone.as_slice();
        assert(bounds(zone@)[0].0 <= bounds(zone@)[0].1);
        self.visit_zone_1(zone, Some(true))
    }

    /// Visits the places along one axis at which some tap lies outside of the input.
    pub fn visit_invalid_1(&self) -> (visited: Vec<(usize, Option<bool>)>)
        requires
            self.wf(),
            all_walkable(self.spec.invalid_zones(self.spec.rank()), 1),
        ensures
            visits_1(visited@) == with_hint(
                zone_walks(first_axes(self.spec.invalid_zones(self.spec.rank()), 1)),
                Some(false),
            ),
            forall|i: int| 0 <= i < visited@.len() ==> (#[trigger] visited@[i]).1 == Some(false),
    {
        let ghost zones = self.spec.invalid_zones(self.spec.rank());
        let ghost cut = first_axes(zones, 1);
        let mut visited: Vec<(usize, Option<bool>)> = Vec::new();
        assert(all_bounds(self.invalid_output_zones@).len() == self.invalid_output_zones@.len());
        assert(visits_1(visited@) =~= with_hint(zone_walks(cut.take(0)), Some(false)));
        for z in 0..self.invalid_output_zones.len()
            invariant
                zones == self.spec.invalid_zones(self.spec.rank()),
                all_bounds(self.invalid_output_zones@) == zones,
                zones.len() == self.invalid_output_zones@.len(),
                all_walkable(zones, 1),
                cut == first_axes(zones, 1),
                visits_1(visited@) == with_hint(zone_walks(cut.take(z as int)), Some(false)),
        {
            let zone = self.invalid_output_zones[z].as_slice();
            proof {
                assert(bounds(zone@) == all_bounds(self.invalid_output_zones@)[z as int]);
                assert(walkable(zones[z as int], 1));
                assert(bounds(zone@)[0].0 <= bounds(zone@)[0].1);
            }
            let mut places = self.visit_zone_1(zone, Some(false));
            let ghost (first, second) = (visited@, places@);
            visited.append(&mut places);
            proof {
                assert(visits_1(visited@) =~= visits_1(first) + visits_1(second));
                lemma_walk_one_more(cut, z as int);
                assert(cut[z as int] == bounds(zone@).take(1));
                assert(visits_1(visited@) =~= with_hint(
                    zone_walks(cut.take(z + 1)),
                    Some(false),
                ));
            }
        }
        assert(cut.take(cut.len() as int) =~= cut);
        proof {
            assert forall|i: int| 0 <= i < visited@.len() implies (#[trigger] visited@[i]).1 == Some(
                false,
            ) by {
                assert(visits_1(visited@).len() == visited@.len());
                assert(visits_1(visited@)[i].1 == Some(false));
            }
        }
        visited
    }

    /// Visits the places along two axes: the valid ones, and then the others.
    pub fn visit_all_2(&self) -> (visited: Vec<((usize, usize), Option<bool>)>)
        requires
            self.wf(),
            walkable(self.spec.valid_zone(), 2),
            all_walkable(self.spec.invalid_zones(self.spec.rank()), 2),
        ensures
            visits_2(visited@) == all_visits(&self.spec, 2),
            self.spec.rank() == 2 ==> {
                &&& forall|i: int|
                    0 <= i < visited@.len() ==> in_grid(
                        ints(self.output_spatial_shape@),
                        seq![(#[trigger] visited@[i]).0.0 as int, visited@[i].0.1 as int],
                    ) && visited@[i].1 == Some(self.spec.valid_at(seq![visited@[i].0.0 as int, visited@[i].0.1 as int]))
                &&& forall|i: int, j: int|
                    0 <= i < j < visited@.len() ==> (#[trigger] visited@[i]).0 != (
                    #[trigger] visited@[j]).0
                &&& forall|place: Seq<int>| #[trigger]
                    in_grid(ints(self.output_spatial_shape@), place) ==> exists|i: int|
                        0 <= i < visited@.len() && seq![(#[trigger] visited@[i]).0.0 as int, visited@[i].0.1 as int] == place
            },
    {
        let mut visited = self.visit_valid_2();
        let mut invalid = self.visit_invalid_2();
        let ghost (first, second) = (visited@, invalid@);
        visited.append(&mut invalid);
        assert(visits_2(visited@) =~= visits_2(first) + visits_2(second));
        proof {
            if self.spec.rank() == 2 {
                lemma_all_places(self, visits_2(visited@));
                assert forall|i: int| 0 <= i < visited@.len() implies in_grid(
                    ints(self.output_spatial_shape@),
                    seq![(#[trigger] visited@[i]).0.0 as int, visited@[i].0.1 as int],
                ) && visited@[i].1 == Some(self.spec.valid_at(seq![visited@[i].0.0 as int, visited@[i].0.1 as int])) by {
                    assert(visits_2(visited@)[i] == (seq![visited@[i].0.0 as int, visited@[i].0.1 as int], visited@[i].1));
                }
                assert forall|i: int, j: int| 0 <= i < j < visited@.len() implies (
                #[trigger] visited@[i]).0 != (#[trigger] visited@[j]).0 by {
                    assert(visits_2(visited@)[i].0 != visits_2(visited@)[j].0);
                }
                assert forall|place: Seq<int>| #[trigger]
                    in_grid(ints(self.output_spatial_shape@), place) implies exists|i: int|
                    0 <= i < visited@.len() && seq![(#[trigger] visited@[i]).0.0 as int, visited@[i].0.1 as int] == place by {
                    let i = choose|i: int|
                        0 <= i < visits_2(visited@).len() && (#[trigger] visits_2(visited@)[i]).0
                            == place;
                    assert(seq![visited@[i].0.0 as int, visited@[i].0.1 as int] == place);
                }
            }
        }
        visited
    }

    /// Visits the valid places along two axes.
    pub fn visit_valid_2(&self) -> (visited: Vec<((usize, usize), Option<bool>)>)
        requires
            self.wf(),
            walkable(self.spec.valid_zone(), 2),
        ensures
            visits_2(visited@) == with_hint(zone_walk(self.spec.valid_zone().take(2)), Some(true)),
            visited@.len() == (self.valid_output_zone@[0].end - self.valid_output_zone@[0].start) * (
            self.valid_output_zone@[1].end - self.valid_output_zone@[1].start),
            forall|i: int|
                0 <= i < visited@.len() ==> {
                    let width = self.valid_output_zone@[1].end - self.valid_output_zone@[1].start;
                    &&& (#[trigger] visited@[i]).0.0 == self.valid_output_zone@[0].start + i / width
                    &&& visited@[i].0.1 == self.valid_output_zone@[1].start + i % width
                    &&& visited@[i].1 == Some(true)
                },
    {
        let zone = self.valid_output_zone.as_slice();
        self.visit_zone_2(zone, Some(true))
    }

    /// Visits the places along two axes at which some tap lies outside of the input.
    pub fn visit_invalid_2(&self) -> (visited: Vec<((usize, usize), Option<bool>)>)
        requires
            self.wf(),
            all_walkable(self.spec.invalid_zones(self.spec.rank()), 2),
        ensures
            visits_2(visited@) == with_hint(
                zone_walks(first_axes(self.spec.invalid_zones(self.spec.rank()), 2)),
                Some(false),
            ),
            forall|i: int| 0 <= i < visited@.len() ==> (#[trigger] visited@[i]).1 == Some(false),
    {
        let ghost zones = self.spec.invalid_zones(self.spec.rank());
        let ghost cut = first_axes(zones, 2);
        let mut visited: Vec<((usize, usize), Option<bool>)> = Vec::new();
        assert(all_bounds(self.invalid_output_zones@).len() == self.invalid_output_zones@.len());
        assert(visits_2(visited@) =~= with_hint(zone_walks(cut.take(0)), Some(false)));
        for z in 0..self.invalid_output_zones.len()
            invariant
                zones == self.spec.invalid_zones(self.spec.rank()),
                all_bounds(self.invalid_output_zones@) == zones,
                zones.len() == self.invalid_output_zones@.len(),
                all_walkable(zones, 2),
                cut == first_axes(zones, 2),
                visits_2(visited@) == with_hint(zone_walks(cut.take(z as int)), Some(false)),
        {
            let zone = self.invalid_output_zones[z].as_slice();
            proof {
                assert(bounds(zone@) == all_bounds(self.invalid_output_zones@)[z as int]);
                assert(walkable(zones[z as int], 2));
            }
            let mut places = self.visit_zone_2(zone, Some(false));
            let ghost (first, second) = (visited@, places@);
            visited.append(&mut places);
            proof {
                assert(visits_2(visited@) =~= visits_2(first) + visits_2(second));
                lemma_walk_one_more(cut, z as int);
                assert(cut[z as int] == bounds(zone@).take(2));
                assert(visits_2(visited@) =~= with_hint(
                    zone_walks(cut.take(z + 1)),
                    Some(false),
                ));
            }
        }
        assert(cut.take(cut.len() as int) =~= cut);
        proof {
            assert forall|i: int| 0 <= i < visited@.len() implies (#[trigger] visited@[i]).1 == Some(
                false,
            ) by {
                assert(visits_2(visited@).len() == visited@.len());
                assert(visits_2(visited@)[i].1 == Some(false));
            }
        }
        visited
    }

    /// Visits the places along all axes: the valid ones, and then the others.
    pub fn visit_all_d(&self) -> (visited: Vec<(Vec<usize>, Option<bool>)>)
        requires
            self.wf(),
            walkable(self.spec.valid_zone(), self.spec.rank()),
            all_walkable(self.spec.invalid_zones(self.spec.rank()), self.spec.rank()),
        ensures
            visits_d(visited@) == all_visits(&self.spec, self.spec.rank()),
            forall|i: int|
                0 <= i < visited@.len() ==> in_grid(
                    ints(self.output_spatial_shape@),
                    ints((#[trigger] visited@[i]).0@),
                ) && visited@[i].1 == Some(self.spec.valid_at(ints(visited@[i].0@))),
            forall|i: int, j: int|
                0 <= i < j < visited@.len() ==> ints((#[trigger] visited@[i]).0@) != ints(
                    (#[trigger] visited@[j]).0@,
                ),
            forall|place: Seq<int>| #[trigger]
                in_grid(ints(self.output_spatial_shape@), place) ==> exists|i: int|
                    0 <= i < visited@.len() && ints((#[trigger] visited@[i]).0@) == place,
    {
        let mut visited = self.visit_valid_d();
        let mut invalid = self.visit_invalid_d();
        let ghost (first, second) = (visited@, invalid@);
        visited.append(&mut invalid);
        proof {
            assert(visits_d(visited@) =~= visits_d(first) + visits_d(second));
            lemma_all_axes(&self.spec);
            lemma_all_places(self, visits_d(visited@));
            assert forall|i: int| 0 <= i < visited@.len() implies in_grid(
                ints(self.output_spatial_shape@),
                ints((#[trigger] visited@[i]).0@),
            ) && visited@[i].1 == Some(self.spec.valid_at(ints(visited@[i].0@))) by {
                assert(visits_d(visited@)[i] == (ints(visited@[i].0@), visited@[i].1));
            }
            assert forall|i: int, j: int| 0 <= i < j < visited@.len() implies ints(
                (#[trigger] visited@[i]).0@,
            ) != ints((#[trigger] visited@[j]).0@) by {
                assert(visits_d(visited@)[i].0 != visits_d(visited@)[j].0);
            }
            assert forall|place: Seq<int>| #[trigger]
                in_grid(ints(self.output_spatial_shape@), place) implies exists|i: int|
                0 <= i < visited@.len() && ints((#[trigger] visited@[i]).0@) == place by {
                let i = choose|i: int|
                    0 <= i < visits_d(visited@).len() && (#[trigger] visits_d(visited@)[i]).0 == place;
                assert(ints(visited@[i].0@) == place);
            }
        }
        visited
    }

    /// Visits the valid places along all axes.
    pub fn visit_valid_d(&self) -> (visited: Vec<(Vec<usize>, Option<bool>)>)
        requires
            self.wf(),
            walkable(self.spec.valid_zone(), self.spec.rank()),
        ensures
            visits_d(visited@) == with_hint(zone_walk(self.spec.valid_zone()), Some(true)),
            ({
                let counts = Seq::new(self.valid_output_zone@.len(), |ix: int| self.valid_output_zone@[ix].end - self.valid_output_zone@[ix].start);
                &&& visited@.len() == product(counts)
                &&& forall|i: int|
                    0 <= i < visited@.len() ==> (#[trigger] visited@[i]).0@.len() == self.valid_output_zone@.len()
                        && visited@[i].1 == Some(true)
                &&& forall|i: int, ix: int|
                    0 <= i < visited@.len() && 0 <= ix < self.valid_output_zone@.len() ==> #[trigger] visited@[i].0@[ix]
                        == self.valid_output_zone@[ix].start + i / product(counts.skip(ix + 1)) % counts[ix]
            }),
    {
        let zone = self.valid_output_zone.as_slice();
        assert(bounds(zone@).len() == zone@.len());
        self.visit_zone_d(zone, Some(true))
    }

    /// Visits the places along all axes at which some tap lies outside of the input.
    pub fn visit_invalid_d(&self) -> (visited: Vec<(Vec<usize>, Option<bool>)>)
        requires
            self.wf(),
            all_walkable(self.spec.invalid_zones(self.spec.rank()), self.spec.rank()),
        ensures
            visits_d(visited@) == with_hint(
                zone_walks(self.spec.invalid_zones(self.spec.rank())),
                Some(false),
            ),
            forall|i: int| 0 <= i < visited@.len() ==> (#[trigger] visited@[i]).1 == Some(false),
    {
        let ghost zones = self.spec.invalid_zones(self.spec.rank());
        let ghost cut = zones;
        let mut visited: Vec<(Vec<usize>, Option<bool>)> = Vec::new();
        assert(all_bounds(self.invalid_output_zones@).len() == self.invalid_output_zones@.len());
        assert(visits_d(visited@) =~= with_hint(zone_walks(cut.take(0)), Some(false)));
        for z in 0..self.invalid_output_zones.len()
            invariant
                zones == self.spec.invalid_zones(self.spec.rank()),
                all_bounds(self.invalid_output_zones@) == zones,
                zones.len() == self.invalid_output_zones@.len(),
                all_walkable(zones, self.spec.rank()),
                0 <= self.spec.rank(),
                cut == zones,
                visits_d(visited@) == with_hint(zone_walks(cut.take(z as int)), Some(false)),
        {
            let zone = self.invalid_output_zones[z].as_slice();
            proof {
                assert(bounds(zone@) == all_bounds(self.invalid_output_zones@)[z as int]);
                assert(walkable(zones[z as int], self.spec.rank()));
                lemma_invalid_zone_axes(&self.spec, self.spec.rank(), z as int);
                assert(bounds(zone@).len() == zone@.len());
            }
            let mut places = self.visit_zone_d(zone, Some(false));
            let ghost (first, second) = (visited@, places@);
            visited.append(&mut places);
            proof {
                assert(visits_d(visited@) =~= visits_d(first) + visits_d(second));
                lemma_walk_one_more(cut, z as int);
                assert(cut[z as int] == bounds(zone@));
                assert(visits_d(visited@) =~= with_hint(
                    zone_walks(cut.take(z + 1)),
                    Some(false),
                ));
            }
        }
        assert(cut.take(cut.len() as int) =~= cut);
        proof {
            assert forall|i: int| 0 <= i < visited@.len() implies (#[trigger] visited@[i]).1 == Some(
                false,
            ) by {
                assert(visits_d(visited@).len() == visited@.len());
                assert(visits_d(visited@)[i].1 == Some(false));
            }
        }
        visited
    }
}

/// All axes of the zones are the zones.
pub proof fn lemma_all_axes(spec: &PatchSpec)
    requires
        0 <= spec.rank(),
    ensures
        spec.valid_zone().take(spec.rank()) == spec.valid_zone(),
        first_axes(spec.invalid_zones(spec.rank()), spec.rank()) == spec.invalid_zones(spec.rank()),
{
    let zones = spec.invalid_zones(spec.rank());
    assert(spec.valid_zone().take(spec.rank()) =~= spec.valid_zone());
    assert forall|z: int| 0 <= z < zones.len() implies #[trigger] first_axes(zones, spec.rank())[z]
        == zones[z] by {
        lemma_invalid_zone_axes(spec, spec.rank(), z);
        assert(zones[z].take(spec.rank()) =~= zones[z]);
    }
    assert(first_axes(zones, spec.rank()) =~= zones);
}

/// Every zone has all the axes.
pub proof fn lemma_invalid_zone_axes(spec: &PatchSpec, n: int, z: int)
    requires
        0 <= spec.rank(),
        0 <= z < spec.invalid_zones(n).len(),
    ensures
        spec.invalid_zones(n)[z].len() == spec.rank(),
    decreases n,
{
    if z < spec.invalid_zones(n - 1).len() {
        lemma_invalid_zone_axes(spec, n - 1, z);
    }
}

/// One more zone adds its places.
proof fn lemma_walk_one_more(zones: Seq<Bounds>, z: int)
    requires
        0 <= z < zones.len(),
    ensures
        zone_walks(zones.take(z + 1)) == zone_walks(zones.take(z)) + zone_walk(zones[z]),
{
    assert(zones.take(z + 1).drop_last() =~= zones.take(z));
}

} // verus!
