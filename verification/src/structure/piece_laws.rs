//! What holds of the placement of structure pieces.

use crate::pos::BlockPos;
use crate::structure::piece_placer;
use crate::structure::piece_placer::{
    BoundingBox, ExclusivePlacer, Facing, MineshaftPieceKind, PoolElement, ProceduralPieceData, SharedPlacer,
    StructurePiecePayload, Surroundings,
};
use vstd::prelude::*;

verus! {

proof fn lemma_one_places(elements: Seq<PoolElement>, n: nat)
    requires
        n <= elements.len(),
    ensures
        piece_placer::one_places_feature(elements, n) <==> exists|i: int|
            0 <= i < n && piece_placer::places_feature(#[trigger] elements[i]),
    decreases n,
{
    if n > 0 {
        lemma_one_places(elements, (n - 1) as nat);
    }
}

/// A feature element places a feature, a list does where one of its elements
/// does, and no other element does.
pub proof fn a_list_places_what_its_elements_place(element: PoolElement)
    ensures
        element is Feature ==> piece_placer::places_feature(element),
        element is List ==> (piece_placer::places_feature(element) <==> exists|i: int|
            0 <= i < element->List_0@.len() && piece_placer::places_feature(
                #[trigger] element->List_0@[i],
            )),
        element is Single || element is LegacySingle || element is Empty
            ==> !piece_placer::places_feature(element),
{
    if element is List {
        lemma_one_places(element->List_0@, element->List_0@.len());
    }
}

/// A piece from a pool is placed without changing it unless it places a
/// feature; a template changes; of the pieces built by code only the ocean
/// monument, those that are not implemented and the parts of a mineshaft but
/// its spider corridors do not.
pub proof fn pieces_that_change_are_placed_alone(payload: StructurePiecePayload)
    ensures
        payload is Jigsaw ==> (piece_placer::needs_exclusive(payload)
            <==> piece_placer::places_feature(payload->Jigsaw_0)),
        payload is Template ==> piece_placer::needs_exclusive(payload),
        payload is Procedural ==> (!piece_placer::needs_exclusive(payload) <==> ({
            let data = payload->Procedural_0;
            ||| data is OceanMonument
            ||| data is Unimplemented
            ||| data is Mineshaft && !(data->Mineshaft_0 is Corridor
                && data->Mineshaft_0->spider_corridor)
        })),
{
}

/// Every piece goes to the placer of its own kind.
pub proof fn pieces_go_to_the_placer_of_their_kind(
    element: PoolElement,
    kind: MineshaftPieceKind,
)
    ensures
        piece_placer::shared_placer_of(StructurePiecePayload::Jigsaw(element)) == Some(
            SharedPlacer::PoolElement,
        ),
        ({
            let mineshaft = StructurePiecePayload::Procedural(ProceduralPieceData::Mineshaft(kind));
            &&& piece_placer::shared_placer_of(mineshaft) == Some(SharedPlacer::Mineshaft)
            &&& piece_placer::exclusive_placer_of(mineshaft) == Some(
                ExclusivePlacer::MineshaftSpiderCorridor,
            )
        }),
{
}

/// A procedural piece's own exclusive placer, where it has one.
pub proof fn pieces_built_by_code_go_to_their_builder(data: ProceduralPieceData)
    ensures
        ({
            let alone = piece_placer::exclusive_placer_of(StructurePiecePayload::Procedural(data));
            let shared = piece_placer::shared_placer_of(StructurePiecePayload::Procedural(data));
            &&& alone == Some(ExclusivePlacer::BuriedTreasure) <==> data is BuriedTreasure
            &&& alone == Some(ExclusivePlacer::DesertPyramid) <==> data is DesertPyramid
            &&& alone == Some(ExclusivePlacer::JungleTemple) <==> data is JungleTemple
            &&& alone == Some(ExclusivePlacer::NetherFortress) <==> data is NetherFortress
            &&& alone == Some(ExclusivePlacer::Stronghold) <==> data is Stronghold
            &&& alone == Some(ExclusivePlacer::SwampHut) <==> data is SwampHut
            &&& alone is None <==> data is OceanMonument || data is Unimplemented
            &&& alone != Some(ExclusivePlacer::Template)
            &&& shared == Some(SharedPlacer::OceanMonument) <==> data is OceanMonument
            &&& shared == Some(SharedPlacer::Unimplemented) <==> data is Unimplemented
            &&& shared is Some <==> data is OceanMonument || data is Unimplemented
                || data is Mineshaft
        }),
        piece_placer::exclusive_placer_of(StructurePiecePayload::Template) == Some(
            ExclusivePlacer::Template,
        ),
        piece_placer::shared_placer_of(StructurePiecePayload::Template) is None,
{
}

/// What a shared placer reported is what came of the piece, but a piece that
/// is not implemented always fails and one without such a placer is declined.
pub proof fn a_shared_report_stands(payload: StructurePiecePayload, reported: Option<bool>)
    ensures
        ({
            let outcome = piece_placer::shared_outcome(payload, reported);
            let placer = piece_placer::shared_placer_of(payload);
            &&& placer == Some(SharedPlacer::Unimplemented) ==> outcome == Some(false)
            &&& placer is None ==> outcome is None
            &&& placer is Some && placer != Some(SharedPlacer::Unimplemented) ==> outcome
                == reported
        }),
{
}

/// The pieces that are built in one place are fitted to the ground and so move
/// their box; what is part of a larger structure keeps it.
pub proof fn parts_of_a_larger_structure_keep_their_box(placer: ExclusivePlacer)
    ensures
        !piece_placer::moves_the_box(placer) <==> placer
            == ExclusivePlacer::MineshaftSpiderCorridor || placer
            == ExclusivePlacer::NetherFortress || placer == ExclusivePlacer::Stronghold,
{
}

/// Turning right goes from north to east, south and west and back, and turning
/// right twice turns around.
pub proof fn turns_go_clockwise(facing: Facing)
    ensures
        Facing::North.turned_right() == Facing::East,
        Facing::East.turned_right() == Facing::South,
        Facing::South.turned_right() == Facing::West,
        Facing::West.turned_right() == Facing::North,
        facing.turned_right().turned_right() == facing.turned_around(),
        facing.turned_around().turned_around() == facing,
        facing.turned_around() != facing,
{
}

/// A side of a chest is free.
pub open spec fn free(around: Surroundings, facing: Facing) -> bool {
    !around.solid@[match facing {
        Facing::North => 0,
        Facing::East => 1,
        Facing::South => 2,
        Facing::West => 3,
    }]
}

/// A chest keeps its side where it is free, else turns around, else right from
/// there, else to the one that is left.
pub proof fn a_chest_turns_only_from_solid_sides(around: Surroundings, facing: Facing)
    ensures
        ({
            let turned = piece_placer::searched_facing(around, facing);
            let back = facing.turned_around();
            let side = back.turned_right();
            &&& free(around, facing) ==> turned == facing
            &&& !free(around, facing) && free(around, back) ==> turned == back
            &&& !free(around, facing) && !free(around, back) && free(around, side) ==> turned
                == side
            &&& !free(around, facing) && !free(around, back) && !free(around, side) ==> turned
                == side.turned_around()
        }),
{
}

/// With one solid side a chest faces away from it; with none it keeps its
/// side; and beside another chest it is left alone.
pub proof fn a_chest_faces_away_from_a_lone_wall(
    around: Surroundings,
    facing: Facing,
    wall: Facing,
)
    ensures
        ({
            let facings = piece_placer::chest_facing(around, facing);
            let walled = |side: Facing| !free(around, side);
            let alone = forall|i: int| 0 <= i < 4 ==> !(#[trigger] around.chest@[i]);
            &&& facings is None ==> !alone
            &&& alone && walled(wall) && free(around, wall.turned_right()) && free(
                around,
                wall.turned_around(),
            ) && free(around, wall.turned_around().turned_right()) ==> facings == Some(
                wall.turned_around(),
            )
            &&& alone && free(around, Facing::North) && free(around, Facing::East) && free(
                around,
                Facing::South,
            ) && free(around, Facing::West) ==> facings == Some(facing)
            &&& around.chest@[0] ==> facings is None
            &&& around.chest@[1] ==> facings is None
            &&& around.chest@[2] && (!around.solid@[0] || !around.solid@[1]) ==> facings is None
        }),
{
    reveal_with_fuel(piece_placer::solids, 5);
    assert(piece_placer::solids(around, 0) == 0);
    assert(piece_placer::solids(around, 1) <= 1);
    assert(piece_placer::solids(around, 2) <= 2);
    if around.chest@[0] || around.chest@[1] || (around.chest@[2] && (!around.solid@[0]
        || !around.solid@[1])) {
        assert(piece_placer::sees_chest(around));
    }
    if piece_placer::solids(around, 4) == 1 {
        let i = choose|i: int| 0 <= i < 4 && #[trigger] around.solid@[i];
        let at = piece_placer::facing_index(wall);
        assert(around.solid@[0] || around.solid@[1] || around.solid@[2] || around.solid@[3]);
        assert(0 <= i < 4 && around.solid@[i]);
    }
}

/// The blocks that take their shape from their neighbours are these twelve.
pub proof fn twelve_blocks_take_their_shape_from_neighbours(block: Seq<char>)
    ensures
        piece_placer::is_shaped(block) <==> seq![
            "nether_brick_fence"@,
            "torch"@,
            "wall_torch"@,
            "oak_fence"@,
            "spruce_fence"@,
            "dark_oak_fence"@,
            "pale_oak_fence"@,
            "acacia_fence"@,
            "birch_fence"@,
            "jungle_fence"@,
            "ladder"@,
            "iron_bars"@,
        ].contains(block),
{
    let all = seq![
        "nether_brick_fence"@,
        "torch"@,
        "wall_torch"@,
        "oak_fence"@,
        "spruce_fence"@,
        "dark_oak_fence"@,
        "pale_oak_fence"@,
        "acacia_fence"@,
        "birch_fence"@,
        "jungle_fence"@,
        "ladder"@,
        "iron_bars"@,
    ];
    assert(all[0] == "nether_brick_fence"@ && all[1] == "torch"@ && all[2] == "wall_torch"@
        && all[3] == "oak_fence"@ && all[4] == "spruce_fence"@ && all[5] == "dark_oak_fence"@
        && all[6] == "pale_oak_fence"@ && all[7] == "acacia_fence"@ && all[8] == "birch_fence"@
        && all[9] == "jungle_fence"@ && all[10] == "ladder"@ && all[11] == "iron_bars"@);
}

/// A box holds its corners and whatever lies between them, and nothing beyond.
pub proof fn a_box_holds_what_lies_between_its_corners(bounds: BoundingBox, at: BlockPos)
    requires
        bounds.min_x <= bounds.max_x,
        bounds.min_y <= bounds.max_y,
        bounds.min_z <= bounds.max_z,
    ensures
        bounds.holds(BlockPos { x: bounds.min_x, y: bounds.min_y, z: bounds.min_z }),
        bounds.holds(BlockPos { x: bounds.max_x, y: bounds.max_y, z: bounds.max_z }),
        !bounds.holds(at) <==> at.x < bounds.min_x || at.x > bounds.max_x || at.y < bounds.min_y
            || at.y > bounds.max_y || at.z < bounds.min_z || at.z > bounds.max_z,
{
}

} // verus!
