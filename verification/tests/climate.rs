//! Nearest-biome lookups.

use rand::rngs::StdRng;
use rand::{RngExt, SeedableRng};
use steel::climate::parameter_list::{
    build_tree, cost, expected_children_count, flatten_tree, narrow_bound, pack_target, BuildEntry,
    FlatNode, ParameterList,
};
use steel::climate::types::{Parameter, ParameterPoint, TargetPoint};

const PARAMETER_COUNT: usize = 7;

/// A plain loop over the dimensions, written independently of the kernel.
fn distance_scalar(n: &FlatNode, target: &[i64; PARAMETER_COUNT]) -> i64 {
    let mut d = 0i64;
    for i in 0..PARAMETER_COUNT {
        let di = (target[i] - i64::from(n.maxs[i])).max(i64::from(n.mins[i]) - target[i]).max(0);
        d += di * di;
    }
    d
}

/// The scalar loop with explicit wrapping operations.
fn wrapping_reference(n: &FlatNode, target: &[i64; PARAMETER_COUNT]) -> i64 {
    let mut d = 0i64;
    for i in 0..PARAMETER_COUNT {
        let di = (target[i].wrapping_sub(i64::from(n.maxs[i])))
            .max(i64::from(n.mins[i]).wrapping_sub(target[i]))
            .max(0);
        d = d.wrapping_add(di.wrapping_mul(di));
    }
    d
}

/// Build a leaf whose box is `[mins[d], maxs[d]]` per dimension.
fn node(mins: [i32; PARAMETER_COUNT], maxs: [i32; PARAMETER_COUNT]) -> FlatNode {
    FlatNode {
        mins,
        maxs,
        payload: 0,
        children_count: 0,
    }
}

fn assert_same(n: &FlatNode, target: [i64; PARAMETER_COUNT]) {
    let scalar = distance_scalar(n, &target);
    let vector = n.distance(pack_target(&target));
    assert_eq!(
        vector, scalar,
        "vector kernel disagreed with the scalar reference\n  mins   = {:?}\n  maxs   = {:?}\n  target = {target:?}",
        n.mins, n.maxs,
    );
}

/// The kernel must return *exactly* the scalar result, not a close
/// one: `search_nearest` prunes with a strict `>`, so a distance that ties
/// differently picks a different biome.
#[test]
fn distance_matches_scalar_reference_over_random_sweep() {
    let mut rng = StdRng::seed_from_u64(0x0DDB_A11C_0FFE_E5EE);

    // Three tiers, widening from the range worldgen actually produces out
    // to the widest range that cannot overflow the reference itself.
    //
    // `quantize_coord` is `((c as f32) * 10000.0) as i64` over a climate
    // parameter in roughly [-2, 2], so real bounds and targets live inside
    // +/-20,000; tier 0 is that, plus slack to land outside every box.
    //
    // The reference squares and sums seven differences in `i64`, so it
    // overflows once a difference passes ~1.1x10^9 (7 * d^2 <= i64::MAX).
    // Tier 2 stays under that: beyond it the reference is not a reference
    // any more, it is UB in debug and a wrap in release.
    for (tier, span) in [25_000i64, 1_000_000, 500_000_000].into_iter().enumerate() {
        for _ in 0..40_000 {
            let mut mins = [0i32; PARAMETER_COUNT];
            let mut maxs = [0i32; PARAMETER_COUNT];
            let mut target = [0i64; PARAMETER_COUNT];
            for d in 0..PARAMETER_COUNT {
                let a = rng.random_range(-span..=span);
                let b = rng.random_range(-span..=span);
                mins[d] = i32::try_from(a.min(b)).expect("tier span fits i32");
                maxs[d] = i32::try_from(a.max(b)).expect("tier span fits i32");
                target[d] = rng.random_range(-span..=span);
            }
            assert_same(&node(mins, maxs), target);
        }
        assert!(tier < 3);
    }
}

/// Largest per-dimension difference the `i64` reference can square and sum
/// seven of without overflowing: `sqrt(i64::MAX / 7)`.
const REFERENCE_LIMIT: i64 = 1_147_878_293;

/// Values that sit exactly on, just inside and just outside a box edge,
/// plus the quantisation extremes. Capped so that the *reference* stays
/// well-defined -- see `distance_matches_scalar_reference_when_it_wraps`
/// for the range past this.
const INTERESTING: [i64; 11] = [
    -500_000_000,
    -46_341,
    -46_340, // -floor(sqrt(i32::MAX)): the i32-lane cutoff, if we ever narrow
    -20_001,
    -20_000, // the quantisation range: ((c as f32) * 10000.0) over c in [-2, 2]
    -1,
    0,
    1,
    20_000,
    46_340,
    500_000_000,
];

/// The interesting inputs are the ones on the boundary, where a one-off in
/// the `max` chain flips a `>` and picks a different biome.
#[test]
fn distance_matches_scalar_reference_on_boundaries() {
    for &lo in &INTERESTING {
        for &hi in &INTERESTING {
            if lo > hi {
                continue;
            }
            let mins = [i32::try_from(lo).expect("INTERESTING fits i32"); PARAMETER_COUNT];
            let maxs = [i32::try_from(hi).expect("INTERESTING fits i32"); PARAMETER_COUNT];
            let n = node(mins, maxs);
            for &t in &INTERESTING {
                // Straddle each edge in both directions as well.
                for delta in [-1i64, 0, 1] {
                    let t = t + delta;
                    assert!(
                        (t - lo).abs().max((t - hi).abs()) <= REFERENCE_LIMIT,
                        "test input would overflow the reference, not the kernel",
                    );
                    assert_same(&n, [t; PARAMETER_COUNT]);
                }
            }
        }
    }
}

/// Past `REFERENCE_LIMIT` the plain loop overflows `i64`: `i32::MIN` against
/// `i32::MAX` is a difference of 4.3x10^9, whose square is 1.8x10^19. Sums and
/// products wrap there, in whichever order they are taken, so the kernel has to
/// agree with a loop written with explicit wrapping operations.
#[test]
fn distance_matches_scalar_reference_when_it_wraps() {
    let extremes = [
        i64::from(i32::MIN),
        i64::from(i32::MIN) + 1,
        -1,
        0,
        1,
        i64::from(i32::MAX) - 1,
        i64::from(i32::MAX),
    ];

    let mut rng = StdRng::seed_from_u64(0xC0FF_EE15_600D);
    for _ in 0..20_000 {
        let mut mins = [0i32; PARAMETER_COUNT];
        let mut maxs = [0i32; PARAMETER_COUNT];
        let mut target = [0i64; PARAMETER_COUNT];
        for d in 0..PARAMETER_COUNT {
            let a: i32 = rng.random();
            let b: i32 = rng.random();
            mins[d] = a.min(b);
            maxs[d] = a.max(b);
            // Full i64 targets: nothing bounds `TargetPoint`'s fields.
            target[d] = if rng.random_bool(0.5) {
                extremes[rng.random_range(0..extremes.len())]
            } else {
                rng.random()
            };
        }
        let n = node(mins, maxs);
        assert_eq!(
            n.distance(pack_target(&target)),
            wrapping_reference(&n, &target),
            "vector kernel and scalar loop wrapped differently\n  mins   = {mins:?}\n  maxs   = {maxs:?}\n  target = {target:?}",
        );
    }
}

/// A degenerate box (min == max) and a target inside it must both give
/// exactly zero, and a zero must survive the padding lane.
#[test]
fn distance_inside_the_box_is_zero() {
    let n = node([-100; PARAMETER_COUNT], [100; PARAMETER_COUNT]);
    for t in [-100i64, -50, 0, 50, 100] {
        assert_eq!(n.distance(pack_target(&[t; PARAMETER_COUNT])), 0);
    }

    // Only one dimension escapes the box: the other six, and the padding
    // lane, must contribute nothing.
    let mut target = [0i64; PARAMETER_COUNT];
    target[3] = 130;
    assert_eq!(n.distance(pack_target(&target)), 30 * 30);
    assert_same(&n, target);
}

/// Mixed per-dimension boxes, so a bug that broadcasts one lane's bound
/// across the vector cannot pass.
#[test]
fn distance_uses_each_dimension_independently() {
    let mins = [-10, -20, -30, -40, -50, -60, -70];
    let maxs = [10, 20, 30, 40, 50, 60, 70];
    let n = node(mins, maxs);
    let target = [100i64, -200, 300, -400, 500, -600, 700];
    // 90^2 + 180^2 + 270^2 + 360^2 + 450^2 + 540^2 + 630^2
    let expected: i64 = [90i64, 180, 270, 360, 450, 540, 630]
        .iter()
        .map(|d| d * d)
        .sum();
    assert_eq!(n.distance(pack_target(&target)), expected);
    assert_same(&n, target);
}

#[test]
fn test_parameter_list_find_value() {
    let values = vec![
        (
            ParameterPoint::new(
                Parameter::new(-10000, 0),
                Parameter::new(0, 0),
                Parameter::new(0, 0),
                Parameter::new(0, 0),
                Parameter::new(0, 0),
                Parameter::new(0, 0),
                0,
            ),
            "cold",
        ),
        (
            ParameterPoint::new(
                Parameter::new(0, 10000),
                Parameter::new(0, 0),
                Parameter::new(0, 0),
                Parameter::new(0, 0),
                Parameter::new(0, 0),
                Parameter::new(0, 0),
                0,
            ),
            "hot",
        ),
    ];

    let list = ParameterList::new(values);

    // Cold biome should match negative temperature
    let cold_target = TargetPoint::new(-5000, 0, 0, 0, 0, 0);
    assert_eq!(*list.find_value(&cold_target), "cold");

    // Hot biome should match positive temperature
    let hot_target = TargetPoint::new(5000, 0, 0, 0, 0, 0);
    assert_eq!(*list.find_value(&hot_target), "hot");
}


fn point(rng: &mut StdRng) -> ParameterPoint {
    let mut parameters = Vec::new();
    for _ in 0..6 {
        let a = rng.random_range(-20_000i64..=20_000);
        let b = rng.random_range(-20_000i64..=20_000);
        parameters.push(Parameter::new(a.min(b), a.max(b)));
    }
    ParameterPoint::new(
        parameters[0],
        parameters[1],
        parameters[2],
        parameters[3],
        parameters[4],
        parameters[5],
        rng.random_range(0i64..=10_000),
    )
}

fn nearest(list: &[(ParameterPoint, usize)], target: &TargetPoint) -> i64 {
    let coordinates = target.to_parameter_array();
    list.iter()
        .map(|(point, _)| {
            point
                .parameter_space()
                .iter()
                .zip(coordinates)
                .map(|(range, at)| {
                    let d = (at - range.max).max(range.min - at).max(0);
                    d * d
                })
                .sum()
        })
        .min()
        .expect("the list is not empty")
}

#[test]
fn a_lookup_finds_a_nearest_entry() {
    let mut rng = StdRng::seed_from_u64(7);
    for size in [1usize, 2, 6, 7, 37, 300] {
        let values: Vec<(ParameterPoint, usize)> =
            (0..size).map(|index| (point(&mut rng), index)).collect();
        let copy = values.clone();
        let list = ParameterList::new(values);
        assert_eq!(list.values().len(), size);
        let mut cache: Option<usize> = None;
        for _ in 0..200 {
            let at: Vec<i64> = (0..6).map(|_| rng.random_range(-25_000i64..=25_000)).collect();
            let target = TargetPoint::new(at[0], at[1], at[2], at[3], at[4], at[5]);
            let best = nearest(&copy, &target);
            let found = *list.find_value(&target);
            assert_eq!(nearest(&copy[found..=found], &target), best);
            let cached = *list.find_value_cached(&target, &mut cache);
            assert_eq!(nearest(&copy[cached..=cached], &target), best);
            assert_eq!(cache, Some(cached));
        }
    }
}

#[test]
fn a_cached_lookup_keeps_the_entry_of_a_tie() {
    let same = ParameterPoint::new(
        Parameter::new(0, 0),
        Parameter::new(0, 0),
        Parameter::new(0, 0),
        Parameter::new(0, 0),
        Parameter::new(0, 0),
        Parameter::new(0, 0),
        0,
    );
    let list = ParameterList::new(vec![(same, "first"), (same, "second")]);
    let target = TargetPoint::new(1, 0, 0, 0, 0, 0);
    for kept in [0usize, 1] {
        let mut cache = Some(kept);
        let _ = list.find_value_cached(&target, &mut cache);
        assert_eq!(cache, Some(kept));
    }
}

#[test]
fn the_only_entry_needs_no_memory() {
    let anywhere = ParameterPoint::new(
        Parameter::new(0, 0),
        Parameter::new(0, 0),
        Parameter::new(0, 0),
        Parameter::new(0, 0),
        Parameter::new(0, 0),
        Parameter::new(0, 0),
        0,
    );
    let list = ParameterList::new(vec![(anywhere, "only")]);
    for mut cache in [None, Some(0usize), Some(99)] {
        let target = TargetPoint::new(1, 2, 3, 4, 5, 6);
        assert_eq!(*list.find_value_cached(&target, &mut cache), "only");
        assert_eq!(cache, Some(0));
    }
}

#[test]
fn a_tree_is_flattened_breadth_first() {
    let entries: Vec<BuildEntry> = (0..8)
        .map(|index| BuildEntry {
            parameter_space: [Parameter::new(index as i64 * 10, index as i64 * 10 + 5); 7],
            index,
        })
        .collect();
    let nodes = flatten_tree(&build_tree(entries));
    assert!(!nodes[0].is_leaf());
    assert_eq!(nodes[0].children_start(), 1);
    assert_eq!(nodes[0].mins, [0; 7]);
    assert_eq!(nodes[0].maxs, [75; 7]);
    let mut leaves: Vec<u32> =
        nodes.iter().filter(|node| node.is_leaf()).map(|node| node.value_index()).collect();
    leaves.sort_unstable();
    assert_eq!(leaves, [0, 1, 2, 3, 4, 5, 6, 7]);
}

#[test]
fn bucket_sizes_are_powers_of_the_branching() {
    assert_eq!(expected_children_count(7), 6);
    assert_eq!(expected_children_count(36), 6);
    assert_eq!(expected_children_count(37), 36);
    assert_eq!(expected_children_count(217), 216);
}

#[test]
fn a_space_costs_the_sum_of_its_widths() {
    assert_eq!(cost(&[Parameter::new(-2, 3); 7]), 35);
    assert_eq!(narrow_bound(-20_000), -20_000);
    let wide = Parameter::new(1, 5).span_with(Some(&Parameter::new(-3, 2)));
    assert_eq!((wide.min, wide.max), (-3, 5));
    assert_eq!(Parameter::new(1, 5).span_with(None).max, 5);
}

#[test]
fn a_tree_keeps_its_entries_and_its_branching() {
    let entries: Vec<BuildEntry> = (0..250usize)
        .map(|index| BuildEntry {
            parameter_space: [0, 1, 2, 3, 4, 5, 6].map(|axis: i64| {
                let low = (index as i64 * (7 * axis + 3)) % 91;
                Parameter::new(low, low + axis)
            }),
            index,
        })
        .collect();
    let nodes = flatten_tree(&build_tree(entries));
    let mut leaves: Vec<u32> =
        nodes.iter().filter(|node| node.is_leaf()).map(|node| node.value_index()).collect();
    leaves.sort_unstable();
    assert_eq!(leaves, (0..250).collect::<Vec<u32>>());
    // Breadth first: the children of each node follow those of the one before.
    let mut next = 1;
    for node in nodes.iter().filter(|node| !node.is_leaf()) {
        assert!((1..=6).contains(&node.children_count), "{}", node.children_count);
        assert_eq!(node.children_start(), next);
        next += u32::from(node.children_count);
    }
    assert_eq!(next as usize, nodes.len());
}
