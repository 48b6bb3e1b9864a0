//! Which numbers an ore vein draws, and in which order.

use vstd::prelude::*;

use crate::pos::BlockPos;

verus! {

/// A number that a vein draws.
#[derive(Debug, Clone, Copy, PartialEq, Eq, Structural)]
pub enum OreDraw {
    /// The direction that the vein runs in, as a fraction of a half turn.
    Direction,
    /// How high one end of the vein lies: one of three heights.
    EndHeight,
    /// How large a sphere of the vein is, as a fraction of its largest.
    SphereSize,
}

/// The numbers that are drawn before the columns under a vein are looked at.
pub const DRAWS_BEFORE_SPHERES: usize = 3;

/// The number that is drawn after `drawn` others, if one is. A vein without a
/// size draws nothing; one whose box no column reaches draws nothing for its
/// spheres.
pub open spec fn draw_at(size: int, reaches: bool, drawn: int) -> Option<OreDraw> {
    if size <= 0 {
        None
    } else if drawn == 0 {
        Some(OreDraw::Direction)
    } else if drawn < DRAWS_BEFORE_SPHERES {
        Some(OreDraw::EndHeight)
    } else if reaches && drawn < DRAWS_BEFORE_SPHERES + size {
        Some(OreDraw::SphereSize)
    } else {
        None
    }
}

/// The number that a vein of a size draws after `drawn` others, if one is,
/// given whether a column under its box is as high as the box's bottom.
pub fn next_ore_draw(size: i32, reaches: bool, drawn: usize) -> (r: Option<OreDraw>)
    ensures
        r == draw_at(size as int, reaches, drawn as int),
{
    if size <= 0 {
        None
    } else if drawn == 0 {
        Some(OreDraw::Direction)
    } else if drawn < DRAWS_BEFORE_SPHERES {
        Some(OreDraw::EndHeight)
    } else if reaches && drawn - DRAWS_BEFORE_SPHERES < size as usize {
        Some(OreDraw::SphereSize)
    } else {
        None
    }
}

/// The height of an end of a vein at `origin`, given which of the three it
/// drew.
pub fn end_height(origin: BlockPos, drawn: i32) -> (r: i32)
    requires
        0 <= drawn < 3,
        i32::MIN + 2 <= origin.y,
    ensures
        r == origin.y + drawn - 2,
{
    if drawn == 2 {
        origin.y
    } else {
        origin.y - 2 + drawn
    }
}

/// A vein draws one direction and the heights of its two ends, and then, if a
/// column reaches its box, one number for each unit of its size and nothing
/// else.
pub proof fn a_vein_draws_once_for_each_sphere(size: int, reaches: bool, drawn: int)
    requires
        0 <= drawn,
    ensures
        size <= 0 ==> draw_at(size, reaches, drawn) is None,
        size > 0 ==> {
            &&& draw_at(size, reaches, drawn) == Some(OreDraw::Direction) <==> drawn == 0
            &&& draw_at(size, reaches, drawn) == Some(OreDraw::EndHeight) <==> 1 <= drawn <= 2
            &&& draw_at(size, reaches, drawn) == Some(OreDraw::SphereSize) <==> reaches && 3
                <= drawn < 3 + size
        },
{
}

} // verus!
