//! Structure pieces, tags and the biomes around a chunk.

use steel::pos::{block_to_section_coord, floor_div, BlockPos};
use steel::registry::tags::RegistryTags;
use steel::stages::surface::BiomeNeighborhood;
use steel::structure::piece_placer::{
    after_place_structure, create_loot_chest, loot_table_data, needs_structure_shape_postprocessing,
    orientation_transform, piece_needs_exclusive_placement, place_piece, pool_element_places_feature,
    reorient_chest, shared_placer, spawner_data, BoundingBox, Direction, ExclusivePlacer, Facing,
    MineshaftPieceKind, NbtValue, PieceStep, PoolElement, ProceduralPieceData, Rotation,
    PlacerReport, SharedPlacer, StructureMirror, StructurePiece, StructurePiecePayload, Surroundings,
    try_place_piece_shared,
};

#[test]
fn a_feature_anywhere_in_a_pool_element_counts() {
    assert!(pool_element_places_feature(&PoolElement::Feature));
    assert!(!pool_element_places_feature(&PoolElement::Single));
    let nested = PoolElement::List(vec![
        PoolElement::LegacySingle,
        PoolElement::List(vec![PoolElement::Empty, PoolElement::Feature]),
    ]);
    assert!(pool_element_places_feature(&nested));
    assert!(!pool_element_places_feature(&PoolElement::List(vec![])));
}

fn procedural(data: ProceduralPieceData) -> StructurePiecePayload {
    StructurePiecePayload::Procedural(data)
}

#[test]
fn every_piece_goes_to_a_placer() {
    let spiders = procedural(ProceduralPieceData::Mineshaft(MineshaftPieceKind::Corridor {
        spider_corridor: true,
    }));
    assert!(piece_needs_exclusive_placement(&spiders));
    assert_eq!(shared_placer(&spiders), Some(SharedPlacer::Mineshaft));
    // The shared placer declines a corridor of spiders.
    assert_eq!(
        place_piece(&spiders, None),
        PieceStep::Exclusive(ExclusivePlacer::MineshaftSpiderCorridor)
    );

    let room = procedural(ProceduralPieceData::Mineshaft(MineshaftPieceKind::Room));
    assert!(!piece_needs_exclusive_placement(&room));
    assert_eq!(place_piece(&room, Some(true)), PieceStep::Done(true));

    assert_eq!(shared_placer(&StructurePiecePayload::Template), None);
    assert_eq!(
        place_piece(&StructurePiecePayload::Template, None),
        PieceStep::Exclusive(ExclusivePlacer::Template)
    );
    let pieces = [
        (ProceduralPieceData::BuriedTreasure, ExclusivePlacer::BuriedTreasure),
        (ProceduralPieceData::DesertPyramid, ExclusivePlacer::DesertPyramid),
        (ProceduralPieceData::JungleTemple, ExclusivePlacer::JungleTemple),
        (ProceduralPieceData::NetherFortress, ExclusivePlacer::NetherFortress),
        (ProceduralPieceData::Stronghold, ExclusivePlacer::Stronghold),
        (ProceduralPieceData::SwampHut, ExclusivePlacer::SwampHut),
    ];
    for (data, placer) in pieces {
        assert!(piece_needs_exclusive_placement(&procedural(data)));
        assert_eq!(place_piece(&procedural(data), None), PieceStep::Exclusive(placer));
    }
    assert_eq!(
        shared_placer(&procedural(ProceduralPieceData::OceanMonument)),
        Some(SharedPlacer::OceanMonument)
    );
    assert_eq!(
        shared_placer(&StructurePiecePayload::Jigsaw(PoolElement::Single)),
        Some(SharedPlacer::PoolElement)
    );
    let unknown = procedural(ProceduralPieceData::Unimplemented);
    assert_eq!(place_piece(&unknown, None), PieceStep::Done(false));
    assert_eq!(place_piece(&unknown, Some(true)), PieceStep::Done(false));
    assert_eq!(try_place_piece_shared(&unknown, Some(true)), Some(false));
    assert_eq!(try_place_piece_shared(&StructurePiecePayload::Template, Some(true)), None);
    assert!(after_place_structure("minecraft", "desert_pyramid"));
    assert!(!after_place_structure("other", "desert_pyramid"));
}

fn flat(y: i32) -> BoundingBox {
    BoundingBox { min_x: 0, min_y: y, min_z: 0, max_x: 4, max_y: y, max_z: 4 }
}

#[test]
fn only_placers_that_fit_the_box_move_it() {
    let mut piece = StructurePiece {
        bounding_box: flat(64),
        orientation: Some(Direction::East),
        payload: procedural(ProceduralPieceData::SwampHut),
    };
    let report = PlacerReport { placed: true, bounding_box: flat(70) };
    assert!(!piece.settle(PieceStep::Done(false), report));
    assert_eq!(piece.bounding_box.min_y, 64);
    assert!(piece.settle(PieceStep::Exclusive(ExclusivePlacer::Stronghold), report));
    assert_eq!(piece.bounding_box.min_y, 64);
    assert!(piece.settle(PieceStep::Exclusive(ExclusivePlacer::SwampHut), report));
    assert_eq!(piece.bounding_box.min_y, 70);
}

fn around(chest: [bool; 4], solid: [bool; 4]) -> Surroundings {
    Surroundings { chest, solid }
}

#[test]
fn a_chest_turns_away_from_walls() {
    let none = [false; 4];
    assert_eq!(
        reorient_chest(&around(none, [false, true, false, false]), Facing::North),
        Some(Facing::West)
    );
    assert_eq!(reorient_chest(&around(none, none), Facing::East), Some(Facing::East));
    assert_eq!(
        reorient_chest(&around(none, [true, false, true, false]), Facing::North),
        Some(Facing::West)
    );
    assert_eq!(
        reorient_chest(&around([true, false, false, false], none), Facing::North),
        None
    );
    assert_eq!(Facing::North.opposite(), Facing::South);
    assert_eq!(Facing::West.rotate_y_clockwise(), Facing::North);
}

#[test]
fn a_chest_goes_where_none_is() {
    let clip = BoundingBox { min_x: 0, min_y: 0, min_z: 0, max_x: 15, max_y: 15, max_z: 15 };
    assert!(create_loot_chest(&clip, BlockPos::new(15, 0, 3), false));
    assert!(!create_loot_chest(&clip, BlockPos::new(15, 0, 3), true));
    assert!(!create_loot_chest(&clip, BlockPos::new(16, 0, 3), false));
}

#[test]
fn block_entities_carry_their_data() {
    let loot = loot_table_data("minecraft:chests/buried_treasure", 42);
    assert_eq!(loot.len(), 2);
    assert_eq!(loot[0].0, "LootTable");
    assert!(matches!(&loot[0].1, NbtValue::Text(text) if text == "minecraft:chests/buried_treasure"));
    assert_eq!(loot[1].0, "LootTableSeed");
    assert!(matches!(loot[1].1, NbtValue::Long(42)));
    assert_eq!(loot_table_data("minecraft:empty", 0).len(), 1);

    let spawner = spawner_data("minecraft:cave_spider");
    let names: Vec<&str> = spawner.iter().map(|entry| entry.0.as_str()).collect();
    assert_eq!(
        names[..7],
        [
            "Delay",
            "MinSpawnDelay",
            "MaxSpawnDelay",
            "SpawnCount",
            "MaxNearbyEntities",
            "RequiredPlayerRange",
            "SpawnRange"
        ]
    );
    assert!(matches!(spawner[2].1, NbtValue::Short(800)));
}

#[test]
fn orientations_mirror_and_turn() {
    let cases = [
        (None, StructureMirror::Unmirrored, Rotation::Unturned),
        (Some(Direction::North), StructureMirror::Unmirrored, Rotation::Unturned),
        (Some(Direction::South), StructureMirror::LeftRight, Rotation::Unturned),
        (Some(Direction::West), StructureMirror::LeftRight, Rotation::Clockwise90),
        (Some(Direction::East), StructureMirror::Unmirrored, Rotation::Clockwise90),
    ];
    for (orientation, mirror, rotation) in cases {
        assert_eq!(orientation_transform(orientation), (mirror, rotation));
    }
}

#[test]
fn shaped_blocks_are_known_by_name() {
    assert!(needs_structure_shape_postprocessing("oak_fence"));
    assert!(needs_structure_shape_postprocessing("iron_bars"));
    assert!(!needs_structure_shape_postprocessing("stone"));
}

fn names(list: &[&str]) -> Vec<String> {
    list.iter().map(|name| (*name).to_owned()).collect()
}

#[test]
fn a_tag_keeps_its_members_in_order() {
    let mut tags = RegistryTags::new();
    tags.insert("logs".to_owned(), names(&["oak", "birch"]));
    tags.insert("leaves".to_owned(), names(&["oak_leaves"]));
    assert_eq!(tags.get("logs").map(<[String]>::to_vec), Some(names(&["oak", "birch"])));
    assert!(tags.contains("logs", "birch"));
    assert!(!tags.contains("logs", "oak_leaves"));
    assert!(!tags.contains("wool", "oak"));
    let mut keys = tags.keys();
    keys.sort();
    assert_eq!(keys, ["leaves", "logs"]);
    tags.insert("logs".to_owned(), names(&["spruce"]));
    assert!(!tags.contains("logs", "oak"));
    assert_eq!(tags.remove("logs"), Some(names(&["spruce"])));
    assert_eq!(tags.remove("logs"), None);
    assert_eq!(tags.get("logs"), None);
}

#[test]
fn ids_are_resolved_once_and_only_when_frozen() {
    let mut tags = RegistryTags::new();
    tags.insert("logs".to_owned(), names(&["oak", "missing", "birch"]));
    let id_of = |key: &str| match key {
        "oak" => Some(3),
        "birch" => Some(1),
        _ => None,
    };
    assert_eq!(tags.ids("logs", false, id_of), None);
    assert_eq!(tags.ids("wool", true, id_of), None);
    assert_eq!(tags.ids("logs", true, id_of), Some(&[3, 1][..]));
    // What was resolved stays, and an unfrozen registry still has no answer.
    assert_eq!(tags.ids("logs", true, |_: &str| Some(9)), Some(&[3, 1][..]));
    assert_eq!(tags.ids("logs", false, id_of), None);
    tags.insert("logs".to_owned(), names(&["birch", "oak"]));
    assert_eq!(tags.ids("logs", true, id_of), Some(&[1, 3][..]));
}

/// Nine chunks of one section, each full of its slot's number.
fn neighborhood(missing: Option<usize>) -> BiomeNeighborhood {
    let chunks: Vec<Option<Vec<u16>>> = (0..9)
        .map(|slot| if Some(slot) == missing { None } else { Some(vec![slot as u16; 64]) })
        .collect();
    BiomeNeighborhood::snapshot(&chunks, 1)
}

#[test]
fn a_neighbour_is_found_by_its_offset() {
    assert_eq!(BiomeNeighborhood::slot(-1, -1), Some(0));
    assert_eq!(BiomeNeighborhood::slot(0, 0), Some(4));
    assert_eq!(BiomeNeighborhood::slot(1, 1), Some(8));
    assert_eq!(BiomeNeighborhood::slot(2, 0), None);
    let biomes = neighborhood(Some(8));
    assert_eq!(biomes.get(0, 1, 0, 3, 3, 3), Some(7));
    assert_eq!(biomes.get(1, 1, 0, 0, 0, 0), None);
    assert_eq!(biomes.get(0, 0, 1, 0, 0, 0), None);
}

#[test]
fn a_lookup_clamps_its_height() {
    let biomes = neighborhood(None);
    // Chunk (2, -1): quarts 8..12 along x and -4..0 along z.
    assert_eq!(biomes.neighbor_biomes(2, -1, -16, 8, -16, -4), Some(4));
    assert_eq!(biomes.neighbor_biomes(2, -1, -16, 7, 99, -5), Some(0));
    assert_eq!(biomes.neighbor_biomes(2, -1, -16, 12, -99, -1), Some(5));
    assert_eq!(biomes.neighbor_biomes(2, -1, -16, 16, 0, 0), None);
}

#[test]
fn an_unreadable_neighbour_may_hold_anything() {
    let biomes = neighborhood(None);
    assert!(biomes.ring_contains_any(&[8]));
    assert!(!biomes.ring_contains_any(&[4]), "the chunk itself is not in the ring");
    assert!(!biomes.ring_contains_any(&[100]));
    assert!(!biomes.ring_contains_any(&[]));
    assert!(neighborhood(Some(0)).ring_contains_any(&[100]));
}

#[test]
fn coordinates_round_down() {
    assert_eq!(block_to_section_coord(-1), -1);
    assert_eq!(block_to_section_coord(31), 1);
    assert_eq!(floor_div(-9, 4), -3);
    assert_eq!(floor_div(8, 4), 2);
}
