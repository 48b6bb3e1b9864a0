//! What holds of the biomes around a chunk, place by place.

use crate::stages::surface;
use crate::stages::surface::BiomeNeighborhood;
use vstd::prelude::*;

verus! {

/// The nine chunks of a neighbourhood have slots of their own, row by row from
/// the least corner, with the chunk itself in the middle.
pub proof fn neighbours_have_slots_of_their_own(dx: int, dz: int, other_dx: int, other_dz: int)
    requires
        -1 <= dx <= 1,
        -1 <= dz <= 1,
        -1 <= other_dx <= 1,
        -1 <= other_dz <= 1,
    ensures
        0 <= surface::slot_of(dx, dz) < 9,
        surface::slot_of(dx, dz) == surface::slot_of(other_dx, other_dz) <==> dx == other_dx && dz
            == other_dz,
        dx < 1 ==> surface::slot_of(dx + 1, dz) == surface::slot_of(dx, dz) + 1,
        dz < 1 ==> surface::slot_of(dx, dz + 1) == surface::slot_of(dx, dz) + 3,
        surface::slot_of(-1, -1) == 0,
{
}

/// The quarts of a section stand by height, then by z, then by x.
pub proof fn quarts_stand_by_height_then_depth(qx: int, qy: int, qz: int)
    requires
        0 <= qx < 4,
        0 <= qy < 4,
        0 <= qz < 4,
    ensures
        0 <= surface::quart_of(qx, qy, qz) < 64,
        surface::quart_of(qx, qy, qz) % 4 == qx,
        surface::quart_of(qx, qy, qz) / 4 % 4 == qz,
        surface::quart_of(qx, qy, qz) / 16 == qy,
{
}

/// The ring is what lies one quart outside the chunk, all around it and
/// nowhere else.
pub proof fn the_ring_is_one_quart_wide(x: int, z: int)
    ensures
        surface::in_ring(x / 4, z / 4, x % 4, z % 4) <==> -1 <= x <= 4 && -1 <= z <= 4 && !(0 <= x
            < 4 && 0 <= z < 4),
{
}

/// A quart is looked up in the neighbour that it lies in, in the section and
/// at the place that its height and place within that neighbour say.
pub proof fn a_quart_is_looked_up_where_it_lies(
    around: BiomeNeighborhood,
    chunk_x: int,
    chunk_z: int,
    min_qy: int,
    dx: int,
    dz: int,
    section: int,
    qx: int,
    qy: int,
    qz: int,
)
    requires
        0 <= qx < 4,
        0 <= qy < 4,
        0 <= qz < 4,
        0 <= section < around.sections(),
    ensures
        around.looked_up(
            chunk_x,
            chunk_z,
            min_qy,
            4 * (chunk_x + dx) + qx,
            min_qy + 4 * section + qy,
            4 * (chunk_z + dz) + qz,
        ) == around.biome(dx, dz, section, qx, qy, qz),
        -1 <= dx <= 1 && -1 <= dz <= 1 && around.is_present(surface::slot_of(dx, dz))
            ==> around.biome(dx, dz, section, qx, qy, qz) == Some(
            around.kept(3 * (dz + 1) + (dx + 1), section, 16 * qy + 4 * qz + qx),
        ),
        !(-1 <= dx <= 1 && -1 <= dz <= 1) ==> around.biome(dx, dz, section, qx, qy, qz) is None,
        around.biome(dx, dz, around.sections(), qx, qy, qz) is None,
{
    let x = 4 * (chunk_x + dx) + qx;
    let z = 4 * (chunk_z + dz) + qz;
    assert(x / 4 == chunk_x + dx && x % 4 == qx);
    assert(z / 4 == chunk_z + dz && z % 4 == qz);
    let y = 4 * section + qy;
    assert(y / 4 == section && y % 4 == qy);
}

/// Below the lowest quart the lowest is looked up, and above the highest the
/// highest.
pub proof fn heights_outside_are_taken_at_the_edge(
    around: BiomeNeighborhood,
    chunk_x: int,
    chunk_z: int,
    min_qy: int,
    qx: int,
    qy: int,
    qz: int,
)
    requires
        0 < around.sections(),
    ensures
        qy < min_qy ==> around.looked_up(chunk_x, chunk_z, min_qy, qx, qy, qz) == around.looked_up(
            chunk_x,
            chunk_z,
            min_qy,
            qx,
            min_qy,
            qz,
        ),
        qy >= min_qy + 4 * around.sections() ==> around.looked_up(
            chunk_x,
            chunk_z,
            min_qy,
            qx,
            qy,
            qz,
        ) == around.looked_up(
            chunk_x,
            chunk_z,
            min_qy,
            qx,
            min_qy + 4 * around.sections() - 1,
            qz,
        ),
{
}

/// The ring may hold a biome where some quart of it does, or where one of its
/// neighbours is not known.
pub proof fn a_missing_neighbour_may_hold_anything(
    around: BiomeNeighborhood,
    biomes: Seq<u16>,
    dx: int,
    dz: int,
    section: int,
    qx: int,
    qy: int,
    qz: int,
)
    requires
        surface::in_ring(dx, dz, qx, qz),
        0 <= section < around.sections(),
        0 <= qy < 4,
        !around.is_present(surface::slot_of(dx, dz)) || biomes.contains(
            around.kept(surface::slot_of(dx, dz), section, surface::quart_of(qx, qy, qz)),
        ),
    ensures
        around.ring_may_hold(biomes),
{
    assert(around.may_hold(biomes, dx, dz, section, qx, qy, qz));
}

} // verus!
