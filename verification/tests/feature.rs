//! Ores, trees and the position sets they are built from.

use steel::feature::ore::{
    accepted_positions, collect_ore_candidates, do_place_ore, ore_box, ore_span, pending_sections,
    place_ore_feature, push_pending_ore_position, OreNode, OreNodeZScan, OreOverlaps,
    OrePlan, OreReach, OreReplacementMemo, OreRule, OreSearchVolume, OreSpan,
    OreTestedPositions, PendingOreSection, PendingOreSectionKey, ResolvedOreTargets, ZStep,
};
use steel::feature::ore_application::apply_plan;
use steel::feature::ore_draws::{end_height, next_ore_draw, OreDraw};
use steel::feature::ore_exposure::{
    is_adjacent_to_air, ore_block_step, place_scattered_ore_feature, scattered_ore_position,
    scattered_ore_reach, try_place_resolved_ore_block, AirCheck, OreStep,
};
use steel::feature::tree::{
    abs_i32, do_place_tree, max_free_tree_height, tree_lies_in_world, FeatureSize, StateBox,
    TreeBounds, TreeConfiguration, TreeDecision, TreeDraw, TreePlacement, TreeTagStates, TreeTags,
    TrunkPlacer,
};
use steel::feature::vanilla_collections::JavaBlockPosSet;
use steel::pos::BlockPos;

#[test]
fn ore_tested_position_index_matches_vanilla_layout() {
    let volume = OreSearchVolume::new(4, 6);
    assert_eq!(
        volume.and_then(|volume| volume.index_from_offsets(2, 3, 1)),
        Some(38)
    );
}

#[test]
fn ore_tested_position_index_keeps_vanilla_inclusive_edge_layout() {
    let volume = OreSearchVolume::new(4, 6);
    assert_eq!(
        volume.and_then(|volume| volume.index_from_offsets(4, 0, 0)),
        Some(4)
    );
    assert_eq!(
        volume.and_then(|volume| volume.index_from_offsets(0, 1, 0)),
        Some(4)
    );
}

#[test]
fn ore_tested_positions_deduplicate_and_grow() {
    let mut tested = OreTestedPositions::with_capacity(1);
    assert!(tested.insert(0));
    assert!(!tested.insert(0));
    assert!(tested.insert(130));
    assert!(!tested.insert(130));
}

#[test]
fn duplicate_positions_keep_first_insertion() {
    let mut set = JavaBlockPosSet::new();
    assert!(set.insert(BlockPos::new(1, 2, 3)));
    assert!(!set.insert(BlockPos::new(1, 2, 3)));
    assert_eq!(set.java_ordered_positions(), [BlockPos::new(1, 2, 3)]);
}

#[test]
fn removed_positions_do_not_iterate() {
    let mut set = JavaBlockPosSet::new();
    for x in 0..4 {
        assert!(set.insert(BlockPos::new(x, 0, 0)));
    }

    assert!(set.remove(BlockPos::new(1, 0, 0)));

    assert_eq!(
        set.java_ordered_positions(),
        [
            BlockPos::new(0, 0, 0),
            BlockPos::new(2, 0, 0),
            BlockPos::new(3, 0, 0)
        ]
    );
}

#[test]
fn reinserted_position_uses_new_insertion_position() {
    let mut set = JavaBlockPosSet::new();
    let first = BlockPos::new(1, 0, 0);
    let second = BlockPos::new(17, 0, 0);

    assert!(set.insert(first));
    assert!(set.insert(second));
    assert!(set.remove(first));
    assert!(set.insert(first));

    assert_eq!(set.java_ordered_positions(), [second, first]);
}

#[test]
fn pop_uses_insertion_order() {
    let mut set = JavaBlockPosSet::new();
    let first = BlockPos::new(1, 0, 0);
    let second = BlockPos::new(2, 0, 0);
    assert!(set.insert(first));
    assert!(set.insert(second));

    assert_eq!(set.pop_java_ordered_position(), Some(first));
    assert_eq!(set.pop_java_ordered_position(), Some(second));
    assert_eq!(set.pop_java_ordered_position(), None);
}

#[test]
fn a_set_knows_what_it_holds() {
    let mut set = JavaBlockPosSet::new();
    assert!(set.is_empty());
    assert!(set.insert(BlockPos::new(-1, 2, -3)));
    assert!(set.contains(BlockPos::new(-1, 2, -3)));
    assert!(!set.contains(BlockPos::new(1, 2, 3)));
    assert!(!set.remove(BlockPos::new(1, 2, 3)));
    assert_eq!(set.pop_java_ordered_position(), Some(BlockPos::new(-1, 2, -3)));
    assert!(!set.contains(BlockPos::new(-1, 2, -3)));
}

#[test]
fn an_empty_box_has_no_volume() {
    assert!(OreSearchVolume::new(0, 6).is_none());
    assert!(OreSearchVolume::new(4, -1).is_none());
    let volume = OreSearchVolume::new(4, 6).expect("a box");
    assert_eq!(volume.index_from_offsets(-1, 0, 0), None);
}

#[test]
fn a_row_gives_its_accepted_positions() {
    // Ten positions from -3 on; the second block of lanes covers only two.
    assert_eq!(accepted_positions(-3, 6, &vec![0b0000_0110, 0b01]), [-3, 0, 1, 2, 3, 4, 6]);
    assert_eq!(accepted_positions(0, 0, &vec![0]), [0]);
    assert!(accepted_positions(0, 7, &vec![0xff]).is_empty());

    let mut scan = OreNodeZScan::new(5, 6);
    assert_eq!(scan.next(), ZStep::Evaluate(5));
    scan.evaluate_next_lanes(0b01);
    assert_eq!(scan.next(), ZStep::Position(6));
    assert_eq!(scan.next(), ZStep::Done);
}

/// One sphere over two rows: along x at 0 and 1, at one height.
fn sphere() -> OreNode {
    OreNode {
        span: OreSpan { x_min: 0, x_max: 1, y_min: 5, y_max: 5, z_min: 0, z_max: 2 },
        rows: vec![Some(vec![0b010]), None],
    }
}

#[test]
fn each_candidate_is_tried_once() {
    let volume = OreSearchVolume::new(16, 16).expect("a box");
    let start = BlockPos::new(0, 0, 0);
    let twice = vec![sphere(), sphere()];
    assert_eq!(
        collect_ore_candidates(volume, start, &twice),
        [BlockPos::new(0, 5, 0), BlockPos::new(0, 5, 2)]
    );
    match do_place_ore(16, 16, start, &twice, -64, false) {
        OrePlan::Positions(positions) => assert_eq!(positions.len(), 2),
        _ => panic!("positions are tried one by one where exposure matters"),
    }
    match do_place_ore(16, 16, start, &twice, -64, true) {
        OrePlan::Sections(sections) => {
            assert_eq!(sections.len(), 1);
            assert_eq!(sections[0].key.section_index, 4);
            assert_eq!(sections[0].places(), [0x500, 0x520]);
        }
        _ => panic!("sections are filled where exposure does not matter"),
    }
    assert!(matches!(do_place_ore(0, 16, start, &vec![], -64, true), OrePlan::Nothing));
}

#[test]
fn pending_positions_are_grouped_by_section() {
    let sections = pending_sections(
        0,
        &vec![BlockPos::new(-1, 0, 0), BlockPos::new(0, 0, 0), BlockPos::new(-16, 1, 15)],
    );
    assert_eq!(sections.len(), 2);
    assert_eq!((sections[0].key.chunk_x, sections[0].key.chunk_z), (-1, 0));
    assert_eq!(sections[0].places(), [0x00f, 0x1f0]);
    assert_eq!(sections[1].places(), [0]);

    let mut sections: Vec<PendingOreSection> = Vec::new();
    let key = PendingOreSectionKey::from_in_height_coords(-64, 17, -33, -1);
    assert_eq!((key.chunk_x, key.chunk_z, key.section_index), (1, -1, 1));
    push_pending_ore_position(&mut sections, key, 7);
    push_pending_ore_position(&mut sections, key, 9);
    assert_eq!(sections.len(), 1);
    assert_eq!(sections[0].places(), [7, 9]);
}

fn targets() -> ResolvedOreTargets {
    ResolvedOreTargets::from_config(&vec![
        (OreRule::BlockMatch(3), 100),
        (OreRule::TagMatch(vec![1, 2, 3]), 200),
    ])
}

#[test]
fn a_target_matches_its_block_or_tag() {
    let targets = targets();
    let blocks = vec![0, 1, 2, 3];
    assert_eq!(targets.matching_replacement(&blocks, 0), None);
    assert_eq!(targets.matching_replacement(&blocks, 1), Some(200));
    assert_eq!(targets.matching_replacement(&blocks, 3), Some(100));
    assert_eq!(targets.next_match(3, 1), Some(1));
    assert_eq!(targets.next_match(3, 2), None);
}

#[test]
fn the_memo_gives_the_targets_answers() {
    let targets = targets();
    let blocks: Vec<usize> = (0..64).map(|state| state % 5).collect();
    let mut memo = OreReplacementMemo::new();
    for _ in 0..2 {
        for state in [0u16, 1, 16, 17, 33, 3, 19, 1] {
            assert_eq!(
                memo.replacement(&targets, &blocks, state),
                targets.matching_replacement(&blocks, state),
                "{state}"
            );
        }
    }
}

#[test]
fn tested_positions_spill_past_their_capacity() {
    let mut tested = OreTestedPositions::with_capacity(64);
    assert!(tested.insert(63));
    assert!(tested.insert(64));
    assert!(tested.insert(6400));
    assert!(!tested.insert(64));
    assert!(!tested.insert(6400));
}

#[test]
fn exposure_decides_between_targets() {
    let targets = targets();
    let none: Vec<bool> = Vec::new();
    assert_eq!(
        try_place_resolved_ore_block(&targets, 3, AirCheck::Never, true, &none),
        (Some(100), 0)
    );
    assert_eq!(try_place_resolved_ore_block(&targets, 3, AirCheck::Always, true, &none), (None, 0));
    assert_eq!(
        try_place_resolved_ore_block(&targets, 3, AirCheck::Always, false, &none),
        (Some(100), 0)
    );
    // The first draw discards the first target; the second one keeps the next.
    assert_eq!(
        try_place_resolved_ore_block(&targets, 3, AirCheck::ByChance, true, &vec![false, true]),
        (Some(200), 2)
    );
    assert_eq!(
        try_place_resolved_ore_block(&targets, 0, AirCheck::ByChance, true, &vec![true, true]),
        (None, 0)
    );
    assert!(is_adjacent_to_air(&vec![1, 0], &vec![true, false]));
    assert!(!is_adjacent_to_air(&vec![1, 1], &vec![true, false]));
}

#[test]
fn scattered_ores_stay_within_reach() {
    assert_eq!(scattered_ore_reach(0), 0);
    assert_eq!(scattered_ore_reach(6), 6);
    assert_eq!(scattered_ore_reach(40), 7);
    assert_eq!(
        place_scattered_ore_feature(BlockPos::new(10, 20, 30), &vec![(0, 0, 0), (1, -1, 0)]),
        [BlockPos::new(10, 20, 30), BlockPos::new(11, 19, 30)]
    );
    assert_eq!(
        scattered_ore_position(BlockPos::new(10, 20, 30), 9, (7, -7, 2)),
        BlockPos::new(17, 13, 32)
    );
}

#[test]
fn swallowed_spheres_are_dropped() {
    // The second lies within the first, and the third within neither.
    let overlaps = OreOverlaps {
        count: 3,
        swallowed: vec![false, true, false, true, false, false, false, false, false],
        larger: vec![false, true, false, false, false, false, false, false, false],
    };
    assert_eq!(overlaps.thin(vec![true; 3]), [true, false, true]);
    assert_eq!(overlaps.thin(vec![false, true, true]), [false, true, true]);
}

#[test]
fn a_vein_is_probed_chunk_by_chunk() {
    assert!(ore_box(0, BlockPos::new(0, 0, 0), 1, 1).is_none());
    let vein = ore_box(17, BlockPos::new(16, 40, 0), 3, 2).expect("a vein");
    assert_eq!(vein.start, BlockPos::new(11, 36, -5));
    assert_eq!((vein.size_xz, vein.size_y), (10, 8));
    let all = vein.probe_chunks(&vec![None; 4]);
    let columns: i32 =
        all.iter().map(|p| (p.x_high - p.x_low + 1) * (p.z_high - p.z_low + 1)).sum();
    assert_eq!(columns, 11 * 11);
    let some = vein.probe_chunks(&vec![Some(35), Some(36), None, Some(-64)]);
    assert_eq!(some.len(), 2);
    assert_eq!((some[0].chunk_x, some[0].chunk_z), (0, 0));
}

#[test]
fn a_sphere_is_clipped_to_the_world() {
    let reach =
        OreReach { x_low: -5, x_high: 5, y_low: -70, y_high: 10, z_low: 2, z_high: 1 };
    let start = BlockPos::new(-2, -80, 0);
    let span = ore_span(&reach, start, -64, 384).expect("it meets the world");
    assert_eq!((span.x_min, span.x_max), (-2, 5));
    assert_eq!((span.y_min, span.y_max), (-64, 10));
    assert_eq!((span.z_min, span.z_max), (2, 2));
    let below =
        OreReach { x_low: 0, x_high: 1, y_low: -90, y_high: -80, z_low: 0, z_high: 1 };
    assert!(ore_span(&below, start, -64, 384).is_none());
}

/// States: 0 air, 1 stone, 2 log, 3 vine, 4 leaves.
fn tags() -> TreeTags {
    let only = |state: usize| {
        let blocks: Vec<usize> = (0..5).collect();
        let members: Vec<bool> = (0..5).map(|block| block == state).collect();
        TreeTagStates::build(&blocks, &members)
    };
    TreeTags {
        air: only(0),
        replaceable_by_trees: only(3),
        logs: only(2),
        leaves: only(4),
        prevents_nearby_leaf_decay: only(2),
        vine: only(3),
    }
}

fn configuration(placer: TrunkPlacer) -> TreeConfiguration {
    TreeConfiguration {
        trunk_placer: placer,
        minimum_size: FeatureSize::TwoLayers {
            limit: 1,
            lower_size: 0,
            upper_size: 1,
            min_clipped_height: Some(2),
        },
        ignore_vines: true,
        has_roots: false,
    }
}

/// A region of air, three wide and eight tall, with one other state at a height.
fn region(blocked: Option<(i32, u16)>) -> StateBox {
    let mut states = vec![0u16; 3 * 3 * 8];
    if let Some((y, state)) = blocked {
        states[y as usize * 9 + 4] = state;
    }
    StateBox { low: BlockPos::new(-1, 0, -1), size_x: 3, size_z: 3, states }
}

#[test]
fn a_tree_is_clipped_below_what_blocks_it() {
    let at = BlockPos::new(0, 0, 0);
    let straight = configuration(TrunkPlacer::Straight);
    assert_eq!(max_free_tree_height(&region(None), &tags(), 5, at, &straight), 5);
    assert_eq!(max_free_tree_height(&region(Some((4, 1))), &tags(), 5, at, &straight), 2);
    assert_eq!(max_free_tree_height(&region(Some((4, 2))), &tags(), 5, at, &straight), 5);
    let stone: Vec<bool> = vec![false, true, false, false, false];
    let through = configuration(TrunkPlacer::UpwardsBranching(TreeTagStates { states: stone }));
    assert_eq!(max_free_tree_height(&region(Some((4, 1))), &tags(), 5, at, &through), 5);
    let mut vines = configuration(TrunkPlacer::Straight);
    vines.ignore_vines = false;
    assert_eq!(max_free_tree_height(&region(Some((3, 3))), &tags(), 5, at, &vines), 1);
}

#[test]
fn a_tree_without_room_is_refused() {
    let draw = TreeDraw {
        tree_height: 5,
        foliage_height: 2,
        leaf_radius: 2,
        trunk_origin: BlockPos::new(0, 0, 0),
    };
    let at = BlockPos::new(0, 0, 0);
    let config = configuration(TrunkPlacer::Straight);
    let place = |blocked, min_y, max_y| {
        do_place_tree(&region(blocked), &tags(), &config, &draw, at, min_y, max_y)
    };
    assert_eq!(
        place(None, -64, 320),
        TreeDecision::Grow { clipped_tree_height: 5, roots_first: false }
    );
    assert_eq!(
        place(Some((4, 1)), -64, 320),
        TreeDecision::Grow { clipped_tree_height: 2, roots_first: false }
    );
    assert_eq!(place(Some((3, 1)), -64, 320), TreeDecision::Refused);
    assert_eq!(place(None, 0, 320), TreeDecision::Refused);
    assert_eq!(place(None, -64, 5), TreeDecision::Refused);
    assert!(tree_lies_in_world(&draw, at, -1, 6));
    assert!(!tree_lies_in_world(&draw, at, -1, 5));
}

#[test]
fn sizes_go_by_layer() {
    let size = FeatureSize::ThreeLayers {
        limit: 1,
        upper_limit: 2,
        lower_size: 0,
        middle_size: 1,
        upper_size: 3,
        min_clipped_height: None,
    };
    let sizes: Vec<i32> = (0..7).map(|y| size.tree_size_at_height(6, y)).collect();
    assert_eq!(sizes, [0, 1, 1, 1, 3, 3, 3]);
    assert_eq!(size.tree_min_clipped_height(), None);
    assert_eq!(abs_i32(-4), 4);
    assert!(tags().tree_is_air_or_leaves(4));
    assert!(!tags().tree_state_valid_pos(4));
}

#[test]
fn a_placement_is_bounded_by_its_parts() {
    let mut placement = TreePlacement::new();
    assert!(TreeBounds::from_placement(&placement).is_none());
    assert!(!placement.place_tree_feature(true));
    placement.set_trunk(BlockPos::new(0, 0, 0));
    placement.set_foliage(BlockPos::new(-2, 4, 1));
    placement.set_root(BlockPos::new(1, -1, 0));
    placement.set_decoration(BlockPos::new(0, 2, 3));
    assert!(placement.place_tree_feature(true));
    assert!(!placement.place_tree_feature(false));
    let bounds = TreeBounds::from_placement(&placement).expect("there are parts");
    assert_eq!(
        (bounds.min_x, bounds.min_y, bounds.min_z, bounds.max_x, bounds.max_y, bounds.max_z),
        (-2, -1, 0, 1, 4, 3)
    );
    assert!(bounds.contains(BlockPos::new(0, 0, 2)));
    assert!(!bounds.contains(BlockPos::new(2, 0, 2)));
    let mut one = TreeBounds::new(BlockPos::new(1, 1, 1));
    one.include_position(BlockPos::new(0, 3, 1));
    assert!(one.contains(BlockPos::new(1, 2, 1)));
}

#[test]
fn a_vein_needs_a_column_as_high_as_its_box() {
    let origin = BlockPos::new(16, 40, 0);
    assert!(place_ore_feature(0, origin, 3, 2, &vec![]).is_none());
    // The box starts at a height of 36 and is eleven columns wide.
    let mut heights = vec![35; 11 * 11];
    assert!(place_ore_feature(17, origin, 3, 2, &heights).is_none());
    heights[120] = 36;
    let vein = place_ore_feature(17, origin, 3, 2, &heights).expect("the last column is high");
    assert_eq!(vein.start, BlockPos::new(11, 36, -5));
    assert!(vein.reaches_floor(&heights));
}

#[test]
fn a_vein_draws_for_its_ends_and_its_spheres() {
    let all = |size, reaches| -> Vec<OreDraw> {
        (0..).map_while(|drawn| next_ore_draw(size, reaches, drawn)).collect()
    };
    assert!(all(0, true).is_empty());
    assert!(all(-4, true).is_empty());
    let before = [OreDraw::Direction, OreDraw::EndHeight, OreDraw::EndHeight];
    assert_eq!(all(17, false), before);
    let drawn = all(17, true);
    assert_eq!(drawn[..3], before);
    assert_eq!(drawn[3..], [OreDraw::SphereSize; 17]);
    let origin = BlockPos::new(0, 40, 0);
    assert_eq!([0, 1, 2].map(|drawn| end_height(origin, drawn)), [38, 39, 40]);
}

#[test]
fn a_plan_replaces_what_its_targets_match() {
    let start = BlockPos::new(0, 0, 0);
    let plan = do_place_ore(16, 16, start, &vec![sphere(), sphere()], -64, true);
    // Blocks equal states; the vein tries (0, 5, 0) and (0, 5, 2).
    let blocks: Vec<usize> = (0..256).collect();
    let mut states = StateBox {
        low: BlockPos::new(0, 4, 0),
        size_x: 2,
        size_z: 3,
        states: vec![3; 2 * 3 * 3],
    };
    states.states[6 + 4] = 0;
    assert!(apply_plan(&plan, &targets(), &blocks, -64, &mut states));
    let mut expected = vec![3u16; 18];
    expected[6] = 100;
    expected[10] = 0;
    assert_eq!(states.states, expected);
    // What was replaced matches no more.
    assert!(!apply_plan(&plan, &targets(), &blocks, -64, &mut states));
    assert_eq!(states.states, expected);
    assert!(!apply_plan(&OrePlan::Nothing, &targets(), &blocks, -64, &mut states));
}

#[test]
fn a_block_is_tried_target_by_target() {
    let targets = targets();
    let step = |block, from, drawn, near_air| {
        ore_block_step(&targets, block, from, AirCheck::ByChance, drawn, near_air)
    };
    assert_eq!(step(3, 0, true, true), OreStep::Place(100));
    assert_eq!(step(3, 0, false, true), OreStep::TryNext(1));
    assert_eq!(step(3, 1, false, false), OreStep::Place(200));
    assert_eq!(step(1, 0, false, true), OreStep::TryNext(2));
    assert_eq!(step(1, 2, true, false), OreStep::Leave);
    assert_eq!(step(0, 0, true, false), OreStep::Leave);
}
