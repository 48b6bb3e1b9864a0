//! Block and chunk positions.

use vstd::prelude::*;

verus! {

/// A chunk's place in the world, in chunks.
#[derive(Clone, Copy, Debug, PartialEq, Eq, Structural)]
pub struct ChunkPos {
    pub x: i32,
    pub z: i32,
}

impl ChunkPos {
    pub fn new(x: i32, z: i32) -> (r: Self)
        ensures
            r == (ChunkPos { x, z }),
    {
        ChunkPos { x, z }
    }
}

/// A block's place in the world.
#[derive(Clone, Copy, Debug, PartialEq, Eq, Structural)]
pub struct BlockPos {
    pub x: i32,
    pub y: i32,
    pub z: i32,
}

impl BlockPos {
    pub fn new(x: i32, y: i32, z: i32) -> (r: Self)
        ensures
            r == (BlockPos { x, y, z }),
    {
        BlockPos { x, y, z }
    }
}

/// The section (sixteen blocks wide) that a block coordinate lies in.
pub open spec fn section_of(block: int) -> int {
    block / 16
}

/// The section that a block coordinate lies in.
pub fn block_to_section_coord(block: i32) -> (r: i32)
    ensures
        r == section_of(block as int),
{
    assert(block >> 4 == block as int / 16) by (bit_vector);
    block >> 4
}

/// Quotient rounded down.
pub fn floor_div(a: i32, b: i32) -> (r: i32)
    requires
        b > 0,
    ensures
        r == a as int / b as int,
{
    if a >= 0 {
        a / b
    } else {
        let up: i32 = -(a + 1);
        let q: i32 = up / b;
        proof {
            let (x, y) = (a as int, b as int);
            let n = -x - 1;
            assert(x / y == -(n / y) - 1) by (nonlinear_arith)
                requires
                    n == -x - 1,
                    n >= 0,
                    y > 0,
            ;
            assert(n / y <= n) by (nonlinear_arith)
                requires
                    n >= 0,
                    y > 0,
            ;
        }
        -q - 1
    }
}

} // verus!
