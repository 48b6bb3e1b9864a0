//! What a biome lookup promises, parameter by parameter.

use crate::climate::nearest;
use crate::climate::parameter_list;
use crate::climate::parameter_list::{Entry, Space};
use crate::climate::types::{Parameter, ParameterPoint, TargetPoint};
use vstd::prelude::*;

verus! {

/// The range holds the value.
pub open spec fn within(range: Parameter, at: i64) -> bool {
    range.min <= at <= range.max
}

/// The greatest of zero and two numbers.
pub open spec fn at_least_zero(a: int, b: int) -> int {
    if a > 0 && a >= b {
        a
    } else if b > 0 {
        b
    } else {
        0
    }
}

/// The square of how far a value lies above or below a range.
pub open spec fn strayed(range: Parameter, at: i64) -> int {
    at_least_zero(at - range.max, range.min - at) * at_least_zero(at - range.max, range.min - at)
}

/// The squared distance of a climate from a biome's ranges, each parameter held
/// against the biome's range of the same parameter.
pub open spec fn climate_distance(biome: ParameterPoint, climate: TargetPoint) -> int {
    strayed(biome.temperature, climate.temperature) + strayed(biome.humidity, climate.humidity)
        + strayed(biome.continentalness, climate.continentalness) + strayed(
        biome.erosion,
        climate.erosion,
    ) + strayed(biome.depth, climate.depth) + strayed(biome.weirdness, climate.weirdness)
        + biome.offset * biome.offset
}

/// No biome is so far away that its squared distance leaves the 64-bit numbers.
pub open spec fn all_in_reach<T>(
    values: Seq<(ParameterPoint, T)>,
    climate: TargetPoint,
) -> bool {
    forall|i: int|
        0 <= i < values.len() ==> climate_distance((#[trigger] values[i]).0, climate) < i64::MAX
}

proof fn lemma_small_root(g: int)
    requires
        0 <= g,
        g * g < i64::MAX,
    ensures
        g < 0x1_0000_0000,
{
    assert(g < 0x1_0000_0000) by (nonlinear_arith)
        requires
            0 <= g,
            g * g < 0x7fff_ffff_ffff_ffff,
    ;
}

proof fn lemma_side(range: Parameter, at: i64)
    requires
        parameter_list::parameter_fits(range),
        strayed(range, at) < i64::MAX,
    ensures
        nearest::side_in_reach(range, at),
        nearest::true_gap(range, at) * nearest::true_gap(range, at) == strayed(range, at),
        0 <= strayed(range, at),
{
    let g = at_least_zero(at - range.max, range.min - at);
    assert(g == nearest::true_gap(range, at));
    assert(0 <= g * g) by (nonlinear_arith);
    lemma_small_root(g);
}

/// The box of a biome and the coordinates of a climate give the distance by
/// parameter.
proof fn lemma_distance(biome: ParameterPoint, climate: TargetPoint)
    requires
        parameter_list::space_fits(biome.space()),
        climate_distance(biome, climate) < i64::MAX,
    ensures
        nearest::in_reach(biome.space(), climate.coordinates()),
        nearest::true_distance(biome.space(), climate.coordinates()) == climate_distance(
            biome,
            climate,
        ),
{
    let space = biome.space();
    let target = climate.coordinates();
    assert forall|d: int| 0 <= d < 7 implies parameter_list::parameter_fits(
        #[trigger] space[d],
    ) by {}
    lemma_nonnegative(biome.temperature, climate.temperature);
    lemma_nonnegative(biome.humidity, climate.humidity);
    lemma_nonnegative(biome.continentalness, climate.continentalness);
    lemma_nonnegative(biome.erosion, climate.erosion);
    lemma_nonnegative(biome.depth, climate.depth);
    lemma_nonnegative(biome.weirdness, climate.weirdness);
    let own = Parameter { min: biome.offset, max: biome.offset };
    let far = at_least_zero(0 - own.max, own.min - 0);
    assert(far * far == biome.offset * biome.offset && 0 <= biome.offset * biome.offset)
        by (nonlinear_arith)
        requires
            far == biome.offset || far == -biome.offset,
    ;
    assert(space[0] == biome.temperature && target[0] == climate.temperature);
    assert(space[1] == biome.humidity && target[1] == climate.humidity);
    assert(space[2] == biome.continentalness && target[2] == climate.continentalness);
    assert(space[3] == biome.erosion && target[3] == climate.erosion);
    assert(space[4] == biome.depth && target[4] == climate.depth);
    assert(space[5] == biome.weirdness && target[5] == climate.weirdness);
    assert(space[6] == own && target[6] == 0);
    assert forall|d: int| 0 <= d < 7 implies nearest::side_in_reach(
        #[trigger] space[d],
        target[d],
    ) by {
        lemma_side(space[d], target[d]);
    }
    lemma_side(space[0], target[0]);
    lemma_side(space[1], target[1]);
    lemma_side(space[2], target[2]);
    lemma_side(space[3], target[3]);
    lemma_side(space[4], target[4]);
    lemma_side(space[5], target[5]);
    lemma_side(space[6], target[6]);
    reveal_with_fuel(nearest::true_squares, 8);
}

proof fn lemma_nonnegative(range: Parameter, at: i64)
    ensures
        0 <= strayed(range, at),
{
    let g = at_least_zero(at - range.max, range.min - at);
    assert(0 <= g * g) by (nonlinear_arith);
}

proof fn lemma_listed<T>(values: Seq<(ParameterPoint, T)>, climate: TargetPoint)
    requires
        parameter_list::values_fit(values),
        all_in_reach(values, climate),
    ensures
        nearest::listed(parameter_list::list_entries(values)),
        nearest::entries_in_reach(parameter_list::list_entries(values), climate.coordinates()),
        forall|i: int|
            0 <= i < values.len() ==> nearest::true_distance(
                (#[trigger] parameter_list::list_entries(values)[i]).space,
                climate.coordinates(),
            ) == climate_distance(values[i].0, climate),
{
    let entries = parameter_list::list_entries(values);
    assert forall|i: int| 0 <= i < entries.len() implies parameter_list::space_fits(
        (#[trigger] entries[i]).space,
    ) && nearest::in_reach(entries[i].space, climate.coordinates()) && nearest::true_distance(
        entries[i].space,
        climate.coordinates(),
    ) == climate_distance(values[i].0, climate) by {
        assert(parameter_list::space_fits(values[i].0.space()));
        lemma_distance(values[i].0, climate);
    }
}

/// A lookup finds a biome that none is nearer than, where the distance is the
/// sum of the squares by which each parameter of the climate lies outside the
/// biome's range of that parameter, and of the squared offset.
pub proof fn the_found_biome_is_nearest_by_parameter<T>(
    values: Seq<(ParameterPoint, T)>,
    climate: TargetPoint,
    i: int,
)
    requires
        parameter_list::values_fit(values),
        all_in_reach(values, climate),
        0 <= i < values.len(),
    ensures
        ({
            let found = parameter_list::looked_up(
                parameter_list::list_entries(values),
                climate.coordinates(),
                parameter_list::no_candidate(),
            );
            &&& found is Some
            &&& found->0 < values.len()
            &&& climate_distance(values[found->0 as int].0, climate) <= climate_distance(
                values[i].0,
                climate,
            )
        }),
{
    let entries = parameter_list::list_entries(values);
    lemma_listed(values, climate);
    nearest::a_lookup_finds_the_nearest(entries, climate.coordinates());
    let found = parameter_list::looked_up(
        entries,
        climate.coordinates(),
        parameter_list::no_candidate(),
    )->0;
    assert(entries[found as int].space == values[found as int].0.space());
    assert(entries[i].space == values[i].0.space());
}

/// The same of a lookup that starts from a remembered biome, which it keeps
/// where none is nearer.
pub proof fn a_remembered_biome_is_left_only_for_a_nearer_one<T>(
    values: Seq<(ParameterPoint, T)>,
    climate: TargetPoint,
    remembered: usize,
    i: int,
)
    requires
        parameter_list::values_fit(values),
        all_in_reach(values, climate),
        values.len() > 1,
        remembered < values.len(),
        0 <= i < values.len(),
    ensures
        ({
            let entries = parameter_list::list_entries(values);
            let found = parameter_list::looked_up(
                entries,
                climate.coordinates(),
                parameter_list::cached_candidate(entries, climate.coordinates(), Some(remembered)),
            );
            &&& found is Some
            &&& found->0 < values.len()
            &&& climate_distance(values[found->0 as int].0, climate) <= climate_distance(
                values[i].0,
                climate,
            )
            &&& found->0 == remembered || climate_distance(values[found->0 as int].0, climate)
                < climate_distance(values[remembered as int].0, climate)
        }),
{
    let entries = parameter_list::list_entries(values);
    let target = climate.coordinates();
    lemma_listed(values, climate);
    nearest::a_cached_lookup_finds_the_nearest_and_keeps_ties(entries, target, remembered);
    let start = parameter_list::cached_candidate(entries, target, Some(remembered));
    let found = parameter_list::looked_up(entries, target, start)->0;
    assert(entries[found as int].space == values[found as int].0.space());
    assert(entries[i].space == values[i].0.space());
    assert(entries[remembered as int].space == values[remembered as int].0.space());
    if climate_distance(values[found as int].0, climate) >= climate_distance(
        values[remembered as int].0,
        climate,
    ) {
        assert forall|j: int| 0 <= j < entries.len() implies nearest::true_distance(
            entries[remembered as int].space,
            target,
        ) <= nearest::true_distance((#[trigger] entries[j]).space, target) by {
            assert(nearest::true_distance(entries[found as int].space, target)
                <= nearest::true_distance(entries[j].space, target));
        }
    }
}

/// Each parameter of the climate lies in the biome's range of that parameter, and
/// the biome has no offset.
pub open spec fn suits(biome: ParameterPoint, climate: TargetPoint) -> bool {
    &&& within(biome.temperature, climate.temperature)
    &&& within(biome.humidity, climate.humidity)
    &&& within(biome.continentalness, climate.continentalness)
    &&& within(biome.erosion, climate.erosion)
    &&& within(biome.depth, climate.depth)
    &&& within(biome.weirdness, climate.weirdness)
    &&& biome.offset == 0
}

/// Where a biome's ranges hold the climate, parameter by parameter, and it has no
/// offset, so do those of the found biome.
pub proof fn a_climate_inside_a_biome_finds_one_around_it<T>(
    values: Seq<(ParameterPoint, T)>,
    climate: TargetPoint,
    i: int,
)
    requires
        parameter_list::values_fit(values),
        all_in_reach(values, climate),
        0 <= i < values.len(),
        suits(values[i].0, climate),
    ensures
        suits(
            values[parameter_list::looked_up(
                parameter_list::list_entries(values),
                climate.coordinates(),
                parameter_list::no_candidate(),
            )->0 as int].0,
            climate,
        ),
{
    the_found_biome_is_nearest_by_parameter(values, climate, i);
    let found = values[parameter_list::looked_up(
        parameter_list::list_entries(values),
        climate.coordinates(),
        parameter_list::no_candidate(),
    )->0 as int].0;
    assert(climate_distance(values[i].0, climate) == 0);
    lemma_nonnegative(found.temperature, climate.temperature);
    lemma_nonnegative(found.humidity, climate.humidity);
    lemma_nonnegative(found.continentalness, climate.continentalness);
    lemma_nonnegative(found.erosion, climate.erosion);
    lemma_nonnegative(found.depth, climate.depth);
    lemma_nonnegative(found.weirdness, climate.weirdness);
    assert(0 <= found.offset * found.offset) by (nonlinear_arith);
    lemma_zero_square(found.offset as int);
    lemma_none(found.temperature, climate.temperature);
    lemma_none(found.humidity, climate.humidity);
    lemma_none(found.continentalness, climate.continentalness);
    lemma_none(found.erosion, climate.erosion);
    lemma_none(found.depth, climate.depth);
    lemma_none(found.weirdness, climate.weirdness);
}

proof fn lemma_zero_square(x: int)
    ensures
        x * x == 0 ==> x == 0,
{
    assert(x * x == 0 ==> x == 0) by (nonlinear_arith);
}

proof fn lemma_none(range: Parameter, at: i64)
    ensures
        strayed(range, at) == 0 ==> within(range, at),
{
    lemma_zero_square(at_least_zero(at - range.max, range.min - at));
}

/// How far two numbers are apart.
pub open spec fn apart(a: int, b: int) -> int {
    if a >= b {
        a - b
    } else {
        b - a
    }
}

/// The gap between a coordinate and a range is the distance to the range's
/// nearest value: no value of the range is nearer, and one is that near.
pub proof fn the_gap_is_to_the_nearest_value(range: Parameter, at: i64, value: i64)
    requires
        range.min <= value <= range.max,
        i64::MIN <= at - range.max <= i64::MAX,
        i64::MIN <= range.min - at <= i64::MAX,
    ensures
        parameter_list::gap(range, at) <= apart(at as int, value as int),
        exists|v: int|
            range.min <= v <= range.max && #[trigger] apart(at as int, v) == parameter_list::gap(
                range,
                at,
            ),
{
    let v = if at > range.max {
        range.max as int
    } else if at < range.min {
        range.min as int
    } else {
        at as int
    };
    assert(apart(at as int, v) == parameter_list::gap(range, at));
}

/// The cost of a box is the sum of the widths of its seven ranges.
pub proof fn the_cost_is_the_sum_of_the_widths(space: Space)
    requires
        space.len() == 7,
        forall|d: int| 0 <= d < 7 ==> (#[trigger] space[d]).min <= space[d].max,
    ensures
        parameter_list::width_sum(space, 7) == space[0].max + space[1].max + space[2].max
            + space[3].max + space[4].max + space[5].max + space[6].max - (space[0].min
            + space[1].min + space[2].min + space[3].min + space[4].min + space[5].min
            + space[6].min),
{
    reveal_with_fuel(parameter_list::width_sum, 8);
}

/// The center of a range is half the sum of its ends, without the half that may
/// be left over: never farther from zero than the middle itself.
pub proof fn the_center_is_the_middle(p: Parameter)
    ensures
        apart(2 * parameter_list::center(p), p.min + p.max) <= 1,
        apart(2 * parameter_list::center(p), 0) <= apart(p.min + p.max, 0),
        p.min <= p.max ==> p.min <= parameter_list::center(p) <= p.max,
{
}

/// The hull of several boxes holds each of them, and each of its ends is an end
/// of one of them.
pub proof fn the_hull_is_the_smallest_box_around(spaces: Seq<Space>, d: int)
    requires
        spaces.len() > 0,
        0 <= d < 7,
    ensures
        forall|k: int|
            0 <= k < spaces.len() ==> parameter_list::hull(spaces)[d].min <= (
            #[trigger] spaces[k])[d].min && spaces[k][d].max <= parameter_list::hull(spaces)[d].max,
        exists|k: int|
            0 <= k < spaces.len() && parameter_list::hull(spaces)[d].min == (
            #[trigger] spaces[k])[d].min,
        exists|k: int|
            0 <= k < spaces.len() && parameter_list::hull(spaces)[d].max == (
            #[trigger] spaces[k])[d].max,
    decreases spaces.len(),
{
    if spaces.len() == 1 {
        assert(spaces[0][d] == parameter_list::hull(spaces)[d]);
    } else {
        let rest = spaces.drop_last();
        the_hull_is_the_smallest_box_around(rest, d);
        let low = choose|k: int|
            0 <= k < rest.len() && parameter_list::hull(rest)[d].min == (#[trigger] rest[k])[d].min;
        let high = choose|k: int|
            0 <= k < rest.len() && parameter_list::hull(rest)[d].max == (#[trigger] rest[k])[d].max;
        let last = spaces.len() - 1;
        assert(spaces[low] == rest[low] && spaces[high] == rest[high]);
        assert(spaces[last] == spaces.last());
        assert forall|k: int| 0 <= k < spaces.len() implies parameter_list::hull(spaces)[d].min <= (
        #[trigger] spaces[k])[d].min && spaces[k][d].max <= parameter_list::hull(
            spaces,
        )[d].max by {
            if k < last {
                assert(rest[k] == spaces[k]);
            }
        }
    }
}

/// A leaf's entry keeps the place of its value in the list.
pub proof fn the_entries_are_the_values_in_order<T>(values: Seq<(ParameterPoint, T)>, i: int)
    requires
        0 <= i < values.len(),
    ensures
        ({
            let entry: Entry = parameter_list::list_entries(values)[i];
            &&& entry.index == i
            &&& entry.space.len() == 7
            &&& entry.space[0] == values[i].0.temperature
            &&& entry.space[1] == values[i].0.humidity
            &&& entry.space[2] == values[i].0.continentalness
            &&& entry.space[3] == values[i].0.erosion
            &&& entry.space[4] == values[i].0.depth
            &&& entry.space[5] == values[i].0.weirdness
            &&& entry.space[6].min == values[i].0.offset == entry.space[6].max
        }),
{
}

} // verus!
