//! What the surface step knows of the biomes around a chunk.

use vstd::prelude::*;

use crate::pos::floor_div;

verus! {

/// Quart cells along each axis of a section: sections are 16 blocks, quarts 4.
pub const QUARTS_PER_SECTION_AXIS: usize = 4;

/// Biome quarts in one section.
pub const QUARTS_PER_SECTION: usize = 64;

/// Chunks in the 3x3 neighbourhood a surface build can read.
pub const NEIGHBORHOOD_CHUNKS: usize = 9;

/// The 3x3 neighbourhood's biome quarts, copied out once per surface build:
/// chunk by chunk, section by section, along y, then z, then x.
pub struct BiomeNeighborhood {
    quarts: Vec<u16>,
    present: [bool; 9],
    section_count: usize,
}

/// A neighbour's place in the neighbourhood.
pub open spec fn slot_of(chunk_dx: int, chunk_dz: int) -> int {
    (chunk_dz + 1) * 3 + (chunk_dx + 1)
}

/// The chunk is this one or one next to it.
pub open spec fn is_neighbor(chunk_dx: int, chunk_dz: int) -> bool {
    -1 <= chunk_dx <= 1 && -1 <= chunk_dz <= 1
}

/// A quart's place in its section.
pub open spec fn quart_of(qx: int, qy: int, qz: int) -> int {
    (qy * 4 + qz) * 4 + qx
}

/// The column lies in the one-quart ring around the chunk: at the facing edge
/// of a side neighbour, or in the facing corner of a corner neighbour.
pub open spec fn in_ring(chunk_dx: int, chunk_dz: int, qx: int, qz: int) -> bool {
    &&& is_neighbor(chunk_dx, chunk_dz)
    &&& chunk_dx != 0 || chunk_dz != 0
    &&& 0 <= qx < 4
    &&& 0 <= qz < 4
    &&& chunk_dx == -1 ==> qx == 3
    &&& chunk_dx == 1 ==> qx == 0
    &&& chunk_dz == -1 ==> qz == 3
    &&& chunk_dz == 1 ==> qz == 0
}

impl BiomeNeighborhood {
    /// The biomes of a chunk of the neighbourhood could be read.
    pub closed spec fn is_present(&self, slot: int) -> bool {
        self.present@[slot]
    }

    /// The biome kept for a quart.
    pub closed spec fn kept(&self, slot: int, section: int, quart: int) -> u16 {
        self.quarts@[(slot * self.section_count + section) * 64 + quart]
    }

    /// Sections in a chunk.
    pub closed spec fn sections(&self) -> int {
        self.section_count as int
    }

    /// There is a biome for every quart of every section of every chunk.
    pub closed spec fn well_formed(&self) -> bool {
        self.quarts@.len() == 9 * self.section_count * 64
    }

    /// The biome at a quart, or nothing if that neighbour was not readable.
    pub open spec fn biome(
        &self,
        chunk_dx: int,
        chunk_dz: int,
        section: int,
        qx: int,
        qy: int,
        qz: int,
    ) -> Option<u16> {
        if !is_neighbor(chunk_dx, chunk_dz) || !self.is_present(slot_of(chunk_dx, chunk_dz))
            || section >= self.sections() {
            None
        } else {
            Some(self.kept(slot_of(chunk_dx, chunk_dz), section, quart_of(qx, qy, qz)))
        }
    }

    /// Index of a neighbour offset in `-1..=1` on both axes.
    pub fn slot(chunk_dx: i32, chunk_dz: i32) -> (r: Option<usize>)
        ensures
            match r {
                None => !is_neighbor(chunk_dx as int, chunk_dz as int),
                Some(slot) => is_neighbor(chunk_dx as int, chunk_dz as int) && slot == slot_of(
                    chunk_dx as int,
                    chunk_dz as int,
                ) && slot < NEIGHBORHOOD_CHUNKS,
            },
    {
        if chunk_dx < -1 || chunk_dx > 1 || chunk_dz < -1 || chunk_dz > 1 {
            return None;
        }
        Some(((chunk_dz + 1) * 3 + (chunk_dx + 1)) as usize)
    }

    /// Copies the biomes of the nine chunks, which come in the order of their
    /// slots; one that is not readable is missing, and a section that a chunk
    /// lacks counts as holding biome zero.
    pub fn snapshot(chunks: &Vec<Option<Vec<u16>>>, section_count: usize) -> (r: Self)
        requires
            chunks@.len() == NEIGHBORHOOD_CHUNKS,
            9 * section_count * 64 <= usize::MAX,
        ensures
            r.well_formed(),
            r.sections() == section_count,
            forall|slot: int|
                0 <= slot < 9 ==> #[trigger] r.is_present(slot) == (chunks@[slot] is Some),
            forall|slot: int, section: int, quart: int|
                0 <= slot < 9 && 0 <= section < section_count && 0 <= quart < 64
                    && chunks@[slot] is Some ==> #[trigger] r.kept(slot, section, quart) == if section
                    * 64 + quart < chunks@[slot]->0@.len() {
                    chunks@[slot]->0@[section * 64 + quart]
                } else {
                    0
                },
    {
        let per_chunk: usize = section_count * 64;
        let mut quarts: Vec<u16> = Vec::new();
        let mut present: [bool; 9] = [false;9];
        let mut slot: usize = 0;
        while slot < 9
            invariant
                slot <= 9,
                chunks@.len() == 9,
                per_chunk == section_count * 64,
                9 * per_chunk <= usize::MAX,
                quarts@.len() == slot * per_chunk,
                forall|k: int| 0 <= k < slot ==> #[trigger] present@[k] == (chunks@[k] is Some),
                forall|k: int, o: int|
                    0 <= k < slot && 0 <= o < per_chunk && chunks@[k] is Some
                        ==> #[trigger] quarts@[k * per_chunk + o] == if o < chunks@[k]->0@.len() {
                        chunks@[k]->0@[o]
                    } else {
                        0
                    },
            decreases 9 - slot,
        {
            let ghost before = quarts@;
            let mut o: usize = 0;
            while o < per_chunk
                invariant
                    o <= per_chunk,
                    slot < 9,
                    chunks@.len() == 9,
                    quarts@.len() == slot * per_chunk + o,
                    before.len() == slot * per_chunk,
                    forall|i: int| 0 <= i < before.len() ==> quarts@[i] == before[i],
                    forall|i: int|
                        0 <= i < o && chunks@[slot as int] is Some
                            ==> #[trigger] quarts@[slot * per_chunk + i] == if i
                            < chunks@[slot as int]->0@.len() {
                            chunks@[slot as int]->0@[i]
                        } else {
                            0
                        },
                decreases per_chunk - o,
            {
                let biome: u16 = match &chunks[slot] {
                    Some(biomes) => if o < biomes.len() {
                        biomes[o]
                    } else {
                        0
                    },
                    None => 0,
                };
                quarts.push(biome);
                o += 1;
            }
            present[slot] = chunks[slot].is_some();
            proof {
                assert forall|k: int, o: int|
                    0 <= k < slot + 1 && 0 <= o < per_chunk && chunks@[k] is Some implies (
                    #[trigger] quarts@[k * per_chunk + o]) == if o < chunks@[k]->0@.len() {
                    chunks@[k]->0@[o]
                } else {
                    0
                } by {
                    if k < slot {
                        assert(0 <= k * per_chunk + o < slot * per_chunk) by (nonlinear_arith)
                            requires
                                0 <= k < slot,
                                0 <= o < per_chunk,
                        ;
                        assert(before[k * per_chunk + o] == quarts@[k * per_chunk + o]);
                    }
                }
            }
            slot += 1;
            assert(quarts@.len() == slot * per_chunk) by (nonlinear_arith)
                requires
                    quarts@.len() == (slot - 1) * per_chunk + per_chunk,
            ;
        }
        let r = BiomeNeighborhood { quarts, present, section_count };
        proof {
            assert forall|slot: int, section: int, quart: int|
                0 <= slot < 9 && 0 <= section < section_count && 0 <= quart < 64
                    && chunks@[slot] is Some implies (#[trigger] r.kept(slot, section, quart)) == if section
                * 64 + quart < chunks@[slot]->0@.len() {
                chunks@[slot]->0@[section * 64 + quart]
            } else {
                0
            } by {
                let o = section * 64 + quart;
                assert((slot * section_count + section) * 64 + quart == slot * per_chunk + o)
                    by (nonlinear_arith)
                    requires
                        o == section * 64 + quart,
                        per_chunk == section_count * 64,
                ;
                assert(quarts@[slot * per_chunk + o] == r.kept(slot, section, quart));
            }
        }
        r
    }

    /// The biome at a quart, or `None` if that neighbour was not readable.
    pub fn get(
        &self,
        chunk_dx: i32,
        chunk_dz: i32,
        section_idx: usize,
        local_qx: usize,
        local_qy: usize,
        local_qz: usize,
    ) -> (r: Option<u16>)
        requires
            self.well_formed(),
            local_qx < 4,
            local_qy < 4,
            local_qz < 4,
        ensures
            r == self.biome(
                chunk_dx as int,
                chunk_dz as int,
                section_idx as int,
                local_qx as int,
                local_qy as int,
                local_qz as int,
            ),
    {
        match Self::slot(chunk_dx, chunk_dz) {
            None => None,
            Some(slot) => {
                if !self.present[slot] || section_idx >= self.section_count {
                    return None;
                }
                proof {
                    let (a, b, n) = (slot as int, section_idx as int, self.section_count as int);
                    assert(0 <= a * n && (a * n + b) * 64 + 63 < 9 * n * 64) by (nonlinear_arith)
                        requires
                            0 <= a < 9,
                            0 <= b < n,
                    ;
                    assert(self.quarts.len() == self.quarts@.len());
                }
                let base: usize = (slot * self.section_count + section_idx) * QUARTS_PER_SECTION;
                let offset: usize = (local_qy * QUARTS_PER_SECTION_AXIS + local_qz)
                    * QUARTS_PER_SECTION_AXIS + local_qx;
                Some(self.quarts[base + offset])
            },
        }
    }

    /// The biome that a lookup at a quart of the world finds: the quart's
    /// height is clamped to the chunk's sections.
    pub open spec fn looked_up(
        &self,
        chunk_x: int,
        chunk_z: int,
        min_qy: int,
        qx: int,
        qy: int,
        qz: int,
    ) -> Option<u16> {
        let top = self.sections() * 4 - 1;
        let y = if qy - min_qy < 0 {
            0
        } else if qy - min_qy > top {
            top
        } else {
            qy - min_qy
        };
        self.biome(qx / 4 - chunk_x, qz / 4 - chunk_z, y / 4, qx % 4, y % 4, qz % 4)
    }

    /// The biome at a quart of the world, or `None` if its chunk was not
    /// readable or is none of the nine.
    pub fn neighbor_biomes(
        &self,
        chunk_x: i32,
        chunk_z: i32,
        min_qy: i32,
        qx: i32,
        qy: i32,
        qz: i32,
    ) -> (r: Option<u16>)
        requires
            self.well_formed(),
            0 < self.sections(),
            self.sections() * 4 <= i32::MAX,
            i32::MIN <= qx as int / 4 - chunk_x <= i32::MAX,
            i32::MIN <= qz as int / 4 - chunk_z <= i32::MAX,
        ensures
            r == self.looked_up(
                chunk_x as int,
                chunk_z as int,
                min_qy as int,
                qx as int,
                qy as int,
                qz as int,
            ),
    {
        let at_x: i32 = floor_div(qx, 4);
        let at_z: i32 = floor_div(qz, 4);
        let local_qx: usize = (qx - at_x * 4) as usize;
        let local_qz: usize = (qz - at_z * 4) as usize;
        let above: i64 = qy as i64 - min_qy as i64;
        let top: i64 = self.section_count as i64 * 4 - 1;
        let clamped: usize = if above < 0 {
            0
        } else if above > top {
            top as usize
        } else {
            above as usize
        };
        self.get(
            at_x - chunk_x,
            at_z - chunk_z,
            clamped / 4,
            local_qx,
            clamped % 4,
            local_qz,
        )
    }

    /// A quart of the ring may hold one of the biomes: it does, or it was not
    /// readable.
    pub open spec fn may_hold(
        &self,
        biomes: Seq<u16>,
        chunk_dx: int,
        chunk_dz: int,
        section: int,
        qx: int,
        qy: int,
        qz: int,
    ) -> bool {
        match self.biome(chunk_dx, chunk_dz, section, qx, qy, qz) {
            None => true,
            Some(biome) => biomes.contains(biome),
        }
    }

    /// Some quart of the ring may hold one of the biomes.
    pub open spec fn ring_may_hold(&self, biomes: Seq<u16>) -> bool {
        exists|dx: int, dz: int, section: int, qx: int, qy: int, qz: int|
            {
                &&& in_ring(dx, dz, qx, qz)
                &&& 0 <= section < self.sections()
                &&& 0 <= qy < 4
                &&& #[trigger] self.may_hold(biomes, dx, dz, section, qx, qy, qz)
            }
    }
}

fn list_has(list: &[u16], item: u16) -> (r: bool)
    ensures
        r == list@.contains(item),
{
    let mut i: usize = 0;
    while i < list.len()
        invariant
            i <= list@.len(),
            forall|k: int| 0 <= k < i ==> list@[k] != item,
        decreases list@.len() - i,
    {
        if list[i] == item {
            assert(list@[i as int] == item);
            return true;
        }
        i += 1;
    }
    false
}

impl BiomeNeighborhood {
    /// Looks through one neighbour's columns of the ring.
    fn column_may_hold(
        &self,
        biomes: &[u16],
        chunk_dx: i32,
        chunk_dz: i32,
        qx: usize,
        qz: usize,
    ) -> (r: bool)
        requires
            self.well_formed(),
            qx < 4,
            qz < 4,
        ensures
            r <==> exists|section: int, qy: int|
                0 <= section < self.sections() && 0 <= qy < 4 && #[trigger] self.may_hold(
                    biomes@,
                    chunk_dx as int,
                    chunk_dz as int,
                    section,
                    qx as int,
                    qy,
                    qz as int,
                ),
    {
        let mut section: usize = 0;
        while section < self.section_count
            invariant
                self.well_formed(),
                qx < 4,
                qz < 4,
                section <= self.section_count,
                forall|s: int, y: int|
                    0 <= s < section && 0 <= y < 4 ==> !#[trigger] self.may_hold(
                        biomes@,
                        chunk_dx as int,
                        chunk_dz as int,
                        s,
                        qx as int,
                        y,
                        qz as int,
                    ),
            decreases self.section_count - section,
        {
            let mut qy: usize = 0;
            while qy < 4
                invariant
                    self.well_formed(),
                    qx < 4,
                    qz < 4,
                    section < self.section_count,
                    qy <= 4,
                    forall|s: int, y: int|
                        0 <= s <= section && 0 <= y < 4 && (s < section || y < qy)
                            ==> !#[trigger] self.may_hold(
                            biomes@,
                            chunk_dx as int,
                            chunk_dz as int,
                            s,
                            qx as int,
                            y,
                            qz as int,
                        ),
                decreases 4 - qy,
            {
                let hit: bool = match self.get(chunk_dx, chunk_dz, section, qx, qy, qz) {
                    None => true,
                    Some(biome) => list_has(biomes, biome),
                };
                if hit {
                    assert(self.may_hold(
                        biomes@,
                        chunk_dx as int,
                        chunk_dz as int,
                        section as int,
                        qx as int,
                        qy as int,
                        qz as int,
                    ));
                    return true;
                }
                qy += 1;
            }
            section += 1;
        }
        false
    }

    /// Whether any of `biomes` appears, or might, in the one-quart ring around
    /// the chunk.
    pub fn ring_contains_any(&self, biomes: &[u16]) -> (r: bool)
        requires
            self.well_formed(),
        ensures
            r == (biomes@.len() > 0 && self.ring_may_hold(biomes@)),
    {
        if biomes.len() == 0 {
            return false;
        }
        let mut column: usize = 0;
        while column < 36
            invariant
                self.well_formed(),
                column <= 36,
                biomes@.len() > 0,
                forall|dx: int, dz: int, section: int, qx: int, qy: int, qz: int|
                    in_ring(dx, dz, qx, qz) && 0 <= section < self.sections() && 0 <= qy < 4 && (dz
                        * 4 + qz + 1) * 6 + (dx * 4 + qx + 1) < column ==> !#[trigger] self.may_hold(
                        biomes@,
                        dx,
                        dz,
                        section,
                        qx,
                        qy,
                        qz,
                    ),
            decreases 36 - column,
        {
            let x: i32 = (column % 6) as i32 - 1;
            let z: i32 = (column / 6) as i32 - 1;
            let chunk_dx: i32 = floor_div(x, 4);
            let chunk_dz: i32 = floor_div(z, 4);
            if chunk_dx != 0 || chunk_dz != 0 {
                let qx: usize = (x - chunk_dx * 4) as usize;
                let qz: usize = (z - chunk_dz * 4) as usize;
                assert(in_ring(chunk_dx as int, chunk_dz as int, qx as int, qz as int));
                if self.column_may_hold(biomes, chunk_dx, chunk_dz, qx, qz) {
                    return true;
                }
            }
            proof {
                assert forall|dx: int, dz: int, section: int, qx: int, qy: int, qz: int|
                    in_ring(dx, dz, qx, qz) && 0 <= section < self.sections() && 0 <= qy < 4 && (dz
                        * 4 + qz + 1) * 6 + (dx * 4 + qx + 1) < column
                        + 1 implies !#[trigger] self.may_hold(
                    biomes@,
                    dx,
                    dz,
                    section,
                    qx,
                    qy,
                    qz,
                ) by {
                    if (dz * 4 + qz + 1) * 6 + (dx * 4 + qx + 1) == column {
                        assert(dx * 4 + qx == x && dz * 4 + qz == z);
                        assert(dx == chunk_dx && dz == chunk_dz);
                    }
                }
            }
            column += 1;
        }
        proof {
            assert forall|dx: int, dz: int, section: int, qx: int, qy: int, qz: int|
                in_ring(dx, dz, qx, qz) && 0 <= section < self.sections() && 0 <= qy
                    < 4 implies !#[trigger] self.may_hold(
                biomes@,
                dx,
                dz,
                section,
                qx,
                qy,
                qz,
            ) by {
                assert((dz * 4 + qz + 1) * 6 + (dx * 4 + qx + 1) < 36);
            }
        }
        false
    }

    /// A lookup that reaches at most one quart beyond the chunk finds a biome
    /// of the chunk itself or of the ring; so what is absent from both is found
    /// nowhere.
    pub proof fn a_lookup_stays_in_the_ring(
        &self,
        biomes: Seq<u16>,
        chunk_x: int,
        chunk_z: int,
        min_qy: int,
        qx: int,
        qy: int,
        qz: int,
    )
        requires
            0 < self.sections(),
            chunk_x * 4 - 1 <= qx <= chunk_x * 4 + 4,
            chunk_z * 4 - 1 <= qz <= chunk_z * 4 + 4,
            !(qx / 4 == chunk_x && qz / 4 == chunk_z),
            !self.ring_may_hold(biomes),
        ensures
            self.looked_up(chunk_x, chunk_z, min_qy, qx, qy, qz) matches Some(biome)
                && !biomes.contains(biome),
    {
        let top = self.sections() * 4 - 1;
        let y = if qy - min_qy < 0 {
            0
        } else if qy - min_qy > top {
            top
        } else {
            qy - min_qy
        };
        let (dx, dz) = (qx / 4 - chunk_x, qz / 4 - chunk_z);
        assert(in_ring(dx, dz, qx % 4, qz % 4));
        assert(0 <= y / 4 < self.sections());
        assert(!self.may_hold(biomes, dx, dz, y / 4, qx % 4, y % 4, qz % 4));
    }
}

} // verus!
