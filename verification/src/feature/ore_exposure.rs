//! Ores that may be discarded where they would be exposed to air, and scattered
//! ores.

use vstd::prelude::*;

use crate::feature::ore;
use crate::feature::ore::{ResolvedOreTarget, ResolvedOreTargets};
use crate::pos::BlockPos;

verus! {

/// What is to be done about exposure to air, by the chance of discarding an
/// exposed block.
#[derive(Debug, Clone, Copy, PartialEq, Eq, Structural)]
pub enum AirCheck {
    /// The chance is zero or less: exposure does not matter.
    Never,
    /// The chance is one or more: no exposed block is placed.
    Always,
    /// A number is drawn for each block and each target that matches it.
    ByChance,
}

impl AirCheck {
    /// Exposure does not matter, given whether the number drawn is at or above
    /// the chance.
    pub open spec fn skips(self, drawn: bool) -> bool {
        match self {
            AirCheck::Never => true,
            AirCheck::Always => false,
            AirCheck::ByChance => drawn,
        }
    }

    /// Whether exposure does not matter, given whether the number drawn is at
    /// or above the chance.
    pub fn should_skip_air_check(self, drawn: bool) -> (r: bool)
        ensures
            r == self.skips(drawn),
    {
        match self {
            AirCheck::Never => true,
            AirCheck::Always => false,
            AirCheck::ByChance => drawn,
        }
    }
}

/// Some of the states is air.
pub open spec fn touches_air(states: Seq<u16>, air: Seq<bool>) -> bool {
    exists|i: int| 0 <= i < states.len() && air[(#[trigger] states[i]) as int]
}

/// Whether some of the neighboring states is air, by the table of states.
pub fn is_adjacent_to_air(neighbors: &Vec<u16>, air: &Vec<bool>) -> (r: bool)
    requires
        forall|i: int| 0 <= i < neighbors@.len() ==> (#[trigger] neighbors@[i]) < air@.len(),
    ensures
        r == touches_air(neighbors@, air@),
{
    let mut i: usize = 0;
    while i < neighbors.len()
        invariant
            i <= neighbors@.len(),
            forall|i: int| 0 <= i < neighbors@.len() ==> (#[trigger] neighbors@[i]) < air@.len(),
            forall|k: int| 0 <= k < i ==> !air@[(#[trigger] neighbors@[k]) as int],
        decreases neighbors@.len() - i,
    {
        if air[neighbors[i] as usize] {
            assert(air@[neighbors@[i as int] as int]);
            return true;
        }
        i += 1;
    }
    false
}

/// The target that is placed, looking from `from` on, and how many numbers are
/// drawn by then, of which `used` were drawn before.
pub open spec fn placed_target(
    targets: Seq<ResolvedOreTarget>,
    block_id: usize,
    check: AirCheck,
    near_air: bool,
    draws: Seq<bool>,
    from: int,
    used: int,
) -> (Option<int>, int)
    decreases targets.len() - from,
{
    if from >= targets.len() {
        (None, used)
    } else if !targets[from].matches(block_id) {
        placed_target(targets, block_id, check, near_air, draws, from + 1, used)
    } else {
        let after = if check is ByChance {
            used + 1
        } else {
            used
        };
        if check.skips(draws[used]) || !near_air {
            (Some(from), after)
        } else {
            placed_target(targets, block_id, check, near_air, draws, from + 1, after)
        }
    }
}

/// The state that is placed over a block, and how many of the numbers are
/// drawn. Of each number `draws` says whether it is at or above the chance.
pub fn try_place_resolved_ore_block(
    targets: &ResolvedOreTargets,
    block_id: usize,
    check: AirCheck,
    near_air: bool,
    draws: &Vec<bool>,
) -> (r: (Option<u16>, usize))
    requires
        check is ByChance ==> draws@.len() >= targets.targets@.len(),
    ensures
        ({
            let (placed, used) = placed_target(
                targets.targets@,
                block_id,
                check,
                near_air,
                draws@,
                0,
                0,
            );
            &&& r.1 == used
            &&& r.0 == match placed {
                Some(i) => Some(targets.targets@[i].state),
                None => None,
            }
        }),
{
    let mut from: usize = 0;
    let mut used: usize = 0;
    while from < targets.targets.len()
        invariant
            used <= from <= targets.targets@.len(),
            check is ByChance ==> draws@.len() >= targets.targets@.len(),
            placed_target(targets.targets@, block_id, check, near_air, draws@, 0, 0)
                == placed_target(
                targets.targets@,
                block_id,
                check,
                near_air,
                draws@,
                from as int,
                used as int,
            ),
        decreases targets.targets@.len() - from,
    {
        let target = &targets.targets[from];
        if target.matches_block_id(block_id) {
            let mut drawn: bool = false;
            if let AirCheck::ByChance = check {
                drawn = draws[used];
                assert(drawn == draws@[used as int]);
                used += 1;
            }
            if check.should_skip_air_check(drawn) || !near_air {
                return (Some(target.state), used);
            }
        }
        from += 1;
    }
    (None, used)
}

/// What comes of a block, looking at the targets from one on.
#[derive(Debug, Clone, Copy, PartialEq, Eq, Structural)]
pub enum OreStep {
    /// The block becomes this state.
    Place(u16),
    /// The matching target was discarded; the look goes on at this one.
    TryNext(usize),
    /// No target matches any more: the block stays.
    Leave,
}

/// What comes of a block at the first target from `from` on that matches it.
pub open spec fn step_at(
    targets: Seq<ResolvedOreTarget>,
    block_id: usize,
    from: int,
    check: AirCheck,
    drawn: bool,
    near_air: bool,
) -> OreStep {
    match ore::first_match(targets, block_id, from) {
        None => OreStep::Leave,
        Some(i) => if check.skips(drawn) || !near_air {
            OreStep::Place(targets[i].state)
        } else {
            OreStep::TryNext((i + 1) as usize)
        },
    }
}

/// What comes of a block at the first target from `from` on that matches it,
/// given whether the number drawn for that target is at or above the chance.
/// A number is drawn only where [`ResolvedOreTargets::next_match`] finds a
/// target and the check goes by chance.
pub fn ore_block_step(
    targets: &ResolvedOreTargets,
    block_id: usize,
    from: usize,
    check: AirCheck,
    drawn: bool,
    near_air: bool,
) -> (r: OreStep)
    ensures
        r == step_at(targets.targets@, block_id, from as int, check, drawn, near_air),
        r matches OreStep::TryNext(next) ==> from < next <= targets.targets@.len(),
{
    match targets.next_match(block_id, from) {
        None => OreStep::Leave,
        Some(i) => if check.should_skip_air_check(drawn) || !near_air {
            OreStep::Place(targets.targets[i].state)
        } else {
            assert(targets.targets.len() == targets.targets@.len());
            OreStep::TryNext(i + 1)
        },
    }
}

/// Step by step the targets are walked as they are in one go: a step places
/// what the walk places, leaves what it leaves, and else the walk goes on where
/// the step says, with one number drawn at each matching target where exposure
/// goes by chance.
pub proof fn steps_walk_the_targets(
    targets: Seq<ResolvedOreTarget>,
    block_id: usize,
    check: AirCheck,
    near_air: bool,
    draws: Seq<bool>,
    from: int,
    used: int,
)
    requires
        0 <= from,
        targets.len() <= usize::MAX,
    ensures
        ({
            let after = if check is ByChance {
                used + 1
            } else {
                used
            };
            placed_target(targets, block_id, check, near_air, draws, from, used) == match step_at(
                targets,
                block_id,
                from,
                check,
                draws[used],
                near_air,
            ) {
                OreStep::Leave => (None, used),
                OreStep::Place(_) => (ore::first_match(targets, block_id, from), after),
                OreStep::TryNext(next) => placed_target(
                    targets,
                    block_id,
                    check,
                    near_air,
                    draws,
                    next as int,
                    after,
                ),
            }
        }),
    decreases targets.len() - from,
{
    if from < targets.len() && !targets[from].matches(block_id) {
        steps_walk_the_targets(targets, block_id, check, near_air, draws, from + 1, used);
    }
}

/// Without a check of exposure, the first target that matches is placed, and
/// nothing is drawn.
pub proof fn an_unchecked_block_takes_its_first_match(
    targets: Seq<ResolvedOreTarget>,
    block_id: usize,
    near_air: bool,
    draws: Seq<bool>,
    from: int,
    used: int,
)
    requires
        0 <= from,
    ensures
        placed_target(targets, block_id, AirCheck::Never, near_air, draws, from, used) == (
            ore::first_match(targets, block_id, from),
            used,
        ),
    decreases targets.len() - from,
{
    if from < targets.len() && !targets[from].matches(block_id) {
        an_unchecked_block_takes_its_first_match(
            targets,
            block_id,
            near_air,
            draws,
            from + 1,
            used,
        );
    }
}

/// Where exposed blocks are always discarded, nothing is placed beside air, and
/// elsewhere the first target that matches is.
pub proof fn a_checked_block_keeps_clear_of_air(
    targets: Seq<ResolvedOreTarget>,
    block_id: usize,
    near_air: bool,
    draws: Seq<bool>,
    from: int,
    used: int,
)
    requires
        0 <= from,
    ensures
        placed_target(targets, block_id, AirCheck::Always, near_air, draws, from, used) == (
            if near_air {
                None
            } else {
                ore::first_match(targets, block_id, from)
            },
            used,
        ),
    decreases targets.len() - from,
{
    if from < targets.len() && (near_air || !targets[from].matches(block_id)) {
        a_checked_block_keeps_clear_of_air(targets, block_id, near_air, draws, from + 1, used);
    }
}

// ---------------------------------------------------------------------------
// Scattered ores
// ---------------------------------------------------------------------------
/// How far from the origin the `i`-th try of a scattered ore may lie along each
/// axis.
pub open spec fn scatter_reach(i: int) -> int {
    if i < 7 {
        i
    } else {
        7
    }
}

/// How far from the origin the `i`-th try of a scattered ore may lie along each
/// axis.
pub fn scattered_ore_reach(i: i32) -> (r: i32)
    ensures
        r == scatter_reach(i as int),
{
    if i < 7 {
        i
    } else {
        7
    }
}

/// The offset of the `i`-th try lies within its reach.
pub open spec fn offset_in_reach(offset: (i32, i32, i32), i: int) -> bool {
    let reach = scatter_reach(i);
    -reach <= offset.0 <= reach && -reach <= offset.1 <= reach && -reach <= offset.2 <= reach
}

/// Where the `i`-th try of a scattered ore lands, given the offset drawn for it.
pub fn scattered_ore_position(origin: BlockPos, i: i32, offset: (i32, i32, i32)) -> (r: BlockPos)
    requires
        0 <= i,
        offset_in_reach(offset, i as int),
        i32::MIN + 7 <= origin.x <= i32::MAX - 7,
        i32::MIN + 7 <= origin.y <= i32::MAX - 7,
        i32::MIN + 7 <= origin.z <= i32::MAX - 7,
    ensures
        r.x == origin.x + offset.0,
        r.y == origin.y + offset.1,
        r.z == origin.z + offset.2,
{
    BlockPos { x: origin.x + offset.0, y: origin.y + offset.1, z: origin.z + offset.2 }
}

/// Where a scattered ore is tried, given the offset drawn for each try.
pub fn place_scattered_ore_feature(origin: BlockPos, offsets: &Vec<(i32, i32, i32)>) -> (r: Vec<
    BlockPos,
>)
    requires
        forall|i: int| 0 <= i < offsets@.len() ==> offset_in_reach(#[trigger] offsets@[i], i),
        i32::MIN + 7 <= origin.x <= i32::MAX - 7,
        i32::MIN + 7 <= origin.y <= i32::MAX - 7,
        i32::MIN + 7 <= origin.z <= i32::MAX - 7,
    ensures
        r@.len() == offsets@.len(),
        forall|i: int|
            0 <= i < r@.len() ==> (#[trigger] r@[i]).x == origin.x + offsets@[i].0 && r@[i].y
                == origin.y + offsets@[i].1 && r@[i].z == origin.z + offsets@[i].2,
{
    let mut r: Vec<BlockPos> = Vec::new();
    let mut i: usize = 0;
    while i < offsets.len()
        invariant
            i <= offsets@.len(),
            forall|i: int| 0 <= i < offsets@.len() ==> offset_in_reach(#[trigger] offsets@[i], i),
            i32::MIN + 7 <= origin.x <= i32::MAX - 7,
            i32::MIN + 7 <= origin.y <= i32::MAX - 7,
            i32::MIN + 7 <= origin.z <= i32::MAX - 7,
            r@.len() == i,
            forall|k: int|
                0 <= k < i ==> (#[trigger] r@[k]).x == origin.x + offsets@[k].0 && r@[k].y
                    == origin.y + offsets@[k].1 && r@[k].z == origin.z + offsets@[k].2,
        decreases offsets@.len() - i,
    {
        let offset: (i32, i32, i32) = offsets[i];
        assert(offset_in_reach(offsets@[i as int], i as int));
        r.push(
            BlockPos { x: origin.x + offset.0, y: origin.y + offset.1, z: origin.z + offset.2 },
        );
        i += 1;
    }
    r
}

} // verus!
