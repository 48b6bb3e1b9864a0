//! What placing a tree promises: the room it asks for, and how high it grows.

use crate::feature::ore;
use crate::feature::ore::ResolvedOreTarget;
use crate::feature::ore_exposure;
use crate::feature::ore_exposure::AirCheck;
use crate::feature::tree;
use crate::feature::tree::{
    FeatureSize, StateBox, TreeBounds, TreeConfiguration, TreeDraw, TreeTagStates, TreeTags,
    TrunkPlacer,
};
use crate::pos::BlockPos;
use vstd::prelude::*;

verus! {

/// The state is one of a tag's.
pub open spec fn tagged(tag: TreeTagStates, state: u16) -> bool {
    state < tag.states@.len() && tag.states@[state as int]
}

/// A trunk can grow through a state: it is air, can be replaced by trees, is a
/// log, or is one of those that an upwards branching trunk grows through; and it
/// is no vine, unless vines are ignored.
pub open spec fn lets_trunk_through(
    state: u16,
    tags: TreeTags,
    config: TreeConfiguration,
) -> bool {
    &&& tagged(tags.air, state) || tagged(tags.replaceable_by_trees, state) || tagged(
        tags.logs,
        state,
    ) || (config.trunk_placer matches TrunkPlacer::UpwardsBranching(through) && tagged(
        through,
        state,
    ))
    &&& config.ignore_vines || !tagged(tags.vine, state)
}

/// Every state of a square around the trunk, at a height above its foot, lets
/// the trunk through.
pub open spec fn square_is_clear(
    region: StateBox,
    tags: TreeTags,
    config: TreeConfiguration,
    foot: BlockPos,
    y: int,
    half: int,
) -> bool {
    forall|x: int, z: int|
        -half <= x <= half && -half <= z <= half ==> lets_trunk_through(
            #[trigger] region.state(foot.x + x, foot.y + y, foot.z + z),
            tags,
            config,
        )
}

proof fn lemma_passes(state: u16, tags: TreeTags, config: TreeConfiguration)
    ensures
        tags.is_blocked(state, config.trunk_placer, config.ignore_vines) == !lets_trunk_through(
            state,
            tags,
            config,
        ),
{
}

proof fn lemma_clear(
    region: StateBox,
    tags: TreeTags,
    config: TreeConfiguration,
    foot: BlockPos,
    height: int,
    y: int,
)
    ensures
        tree::blocked_at(region, tags, height, foot, config, y) == !square_is_clear(
            region,
            tags,
            config,
            foot,
            y,
            config.minimum_size.size_at(height, y),
        ),
{
    let half = config.minimum_size.size_at(height, y);
    if tree::blocked_at(region, tags, height, foot, config, y) {
        let (x, z) = choose|x: int, z: int|
            -half <= x <= half && -half <= z <= half && tags.is_blocked(
                #[trigger] region.state(foot.x + x, foot.y + y, foot.z + z),
                config.trunk_placer,
                config.ignore_vines,
            );
        lemma_passes(region.state(foot.x + x, foot.y + y, foot.z + z), tags, config);
        assert(!lets_trunk_through(
            region.state(foot.x + x, foot.y + y, foot.z + z),
            tags,
            config,
        ));
    } else {
        assert forall|x: int, z: int|
            -half <= x <= half && -half <= z <= half implies lets_trunk_through(
            #[trigger] region.state(foot.x + x, foot.y + y, foot.z + z),
            tags,
            config,
        ) by {
            lemma_passes(region.state(foot.x + x, foot.y + y, foot.z + z), tags, config);
        }
    }
}

/// A tree of two layers grows to its full height exactly if its lower layer is
/// clear below the limit and its upper layer is clear from the limit up to one
/// above the tree.
pub proof fn a_two_layered_tree_grows_in_full_where_both_layers_are_clear(
    region: StateBox,
    tags: TreeTags,
    config: TreeConfiguration,
    draw: TreeDraw,
    limit: i32,
    lower: i32,
    upper: i32,
    floor: Option<i32>,
)
    requires
        config.minimum_size == (FeatureSize::TwoLayers {
            limit,
            lower_size: lower,
            upper_size: upper,
            min_clipped_height: floor,
        }),
    ensures
        tree::free_height(region, tags, draw, config, draw.tree_height as int) <==> {
            &&& forall|y: int|
                0 <= y <= draw.tree_height + 1 && y < limit ==> #[trigger] square_is_clear(
                    region,
                    tags,
                    config,
                    draw.trunk_origin,
                    y,
                    lower as int,
                )
            &&& forall|y: int|
                0 <= y <= draw.tree_height + 1 && y >= limit ==> #[trigger] square_is_clear(
                    region,
                    tags,
                    config,
                    draw.trunk_origin,
                    y,
                    upper as int,
                )
        },
{
    let h = draw.tree_height as int;
    let foot = draw.trunk_origin;
    let free = |y: int| !tree::blocked_at(region, tags, h, foot, config, y);
    if tree::free_height(region, tags, draw, config, h) {
        assert forall|y: int| 0 <= y <= h + 1 && y < limit implies #[trigger] square_is_clear(
            region,
            tags,
            config,
            foot,
            y,
            lower as int,
        ) by {
            assert(free(y));
            lemma_clear(region, tags, config, foot, h, y);
        }
        assert forall|y: int| 0 <= y <= h + 1 && y >= limit implies #[trigger] square_is_clear(
            region,
            tags,
            config,
            foot,
            y,
            upper as int,
        ) by {
            assert(free(y));
            lemma_clear(region, tags, config, foot, h, y);
        }
    }
    if (forall|y: int|
        0 <= y <= h + 1 && y < limit ==> #[trigger] square_is_clear(
            region,
            tags,
            config,
            foot,
            y,
            lower as int,
        )) && (forall|y: int|
        0 <= y <= h + 1 && y >= limit ==> #[trigger] square_is_clear(
            region,
            tags,
            config,
            foot,
            y,
            upper as int,
        )) {
        assert forall|y: int| 0 <= y <= h + 1 implies #[trigger] free(y) by {
            lemma_clear(region, tags, config, foot, h, y);
            if y < limit {
                assert(square_is_clear(region, tags, config, foot, y, lower as int));
            } else {
                assert(square_is_clear(region, tags, config, foot, y, upper as int));
            }
        }
    }
}

/// A tree of three layers grows to its full height exactly if its lower layer is
/// clear below the limit, its upper layer within the upper limit of the top, and
/// its middle layer between them.
pub proof fn a_three_layered_tree_grows_in_full_where_all_layers_are_clear(
    region: StateBox,
    tags: TreeTags,
    config: TreeConfiguration,
    draw: TreeDraw,
    limit: i32,
    upper_limit: i32,
    lower: i32,
    middle: i32,
    upper: i32,
    floor: Option<i32>,
)
    requires
        config.minimum_size == (FeatureSize::ThreeLayers {
            limit,
            upper_limit,
            lower_size: lower,
            middle_size: middle,
            upper_size: upper,
            min_clipped_height: floor,
        }),
    ensures
        tree::free_height(region, tags, draw, config, draw.tree_height as int) <==> {
            &&& forall|y: int|
                0 <= y <= draw.tree_height + 1 && y < limit ==> #[trigger] square_is_clear(
                    region,
                    tags,
                    config,
                    draw.trunk_origin,
                    y,
                    lower as int,
                )
            &&& forall|y: int|
                0 <= y <= draw.tree_height + 1 && limit <= y < draw.tree_height - upper_limit
                    ==> #[trigger] square_is_clear(
                    region,
                    tags,
                    config,
                    draw.trunk_origin,
                    y,
                    middle as int,
                )
            &&& forall|y: int|
                0 <= y <= draw.tree_height + 1 && limit <= y && draw.tree_height - y <= upper_limit
                    ==> #[trigger] square_is_clear(
                    region,
                    tags,
                    config,
                    draw.trunk_origin,
                    y,
                    upper as int,
                )
        },
{
    let h = draw.tree_height as int;
    let foot = draw.trunk_origin;
    let free = |y: int| !tree::blocked_at(region, tags, h, foot, config, y);
    assert forall|y: int|
        #![trigger free(y)]
        0 <= y <= h + 1 implies free(y) == square_is_clear(
        region,
        tags,
        config,
        foot,
        y,
        if y < limit {
            lower as int
        } else if h - y <= upper_limit {
            upper as int
        } else {
            middle as int
        },
    ) by {
        lemma_clear(region, tags, config, foot, h, y);
    }
    if tree::free_height(region, tags, draw, config, h) {
        assert(forall|y: int| 0 <= y <= h + 1 ==> #[trigger] free(y));
        assert forall|y: int| 0 <= y <= h + 1 && y < limit implies #[trigger] square_is_clear(
            region,
            tags,
            config,
            foot,
            y,
            lower as int,
        ) by {
            assert(free(y));
        }
        assert forall|y: int|
            0 <= y <= h + 1 && limit <= y < h - upper_limit implies #[trigger] square_is_clear(
            region,
            tags,
            config,
            foot,
            y,
            middle as int,
        ) by {
            assert(free(y));
        }
        assert forall|y: int|
            0 <= y <= h + 1 && limit <= y && h - y <= upper_limit implies #[trigger] square_is_clear(
            region,
            tags,
            config,
            foot,
            y,
            upper as int,
        ) by {
            assert(free(y));
        }
    } else {
        let y = choose|y: int| 0 <= y <= h + 1 && !#[trigger] free(y);
        assert(0 <= y <= h + 1 && !free(y));
        if y < limit {
            assert(!square_is_clear(region, tags, config, foot, y, lower as int));
        } else if h - y <= upper_limit {
            assert(!square_is_clear(region, tags, config, foot, y, upper as int));
        } else {
            assert(!square_is_clear(region, tags, config, foot, y, middle as int));
        }
    }
}

/// A tree that something stops is clipped two below the lowest height at which
/// its room is not clear.
pub proof fn a_stopped_tree_ends_two_below_what_stops_it(
    region: StateBox,
    tags: TreeTags,
    config: TreeConfiguration,
    draw: TreeDraw,
    clipped: int,
)
    requires
        tree::free_height(region, tags, draw, config, clipped),
        clipped != draw.tree_height,
    ensures
        clipped < draw.tree_height,
        ({
            let room = |y: int| config.minimum_size.size_at(draw.tree_height as int, y);
            &&& !square_is_clear(
                region,
                tags,
                config,
                draw.trunk_origin,
                clipped + 2,
                room(clipped + 2),
            )
            &&& forall|y: int|
                0 <= y < clipped + 2 ==> square_is_clear(
                    region,
                    tags,
                    config,
                    draw.trunk_origin,
                    y,
                    #[trigger] room(y),
                )
        }),
{
    let h = draw.tree_height as int;
    let foot = draw.trunk_origin;
    let free = |y: int| !tree::blocked_at(region, tags, h, foot, config, y);
    let room = |y: int| config.minimum_size.size_at(h, y);
    lemma_clear(region, tags, config, foot, h, clipped + 2);
    assert forall|y: int| 0 <= y < clipped + 2 implies square_is_clear(
        region,
        tags,
        config,
        foot,
        y,
        #[trigger] room(y),
    ) by {
        assert(free(y));
        lemma_clear(region, tags, config, foot, h, y);
    }
}

/// A tree lies in the world exactly if its origin and its trunk's foot both lie
/// above the bottom block, and the tree, measured from either, ends below the
/// top.
pub proof fn a_tree_in_the_world_clears_bottom_and_top(
    draw: TreeDraw,
    origin: BlockPos,
    min_y: int,
    max_y_exclusive: int,
)
    ensures
        tree::within_world(draw, origin, min_y, max_y_exclusive) <==> origin.y > min_y
            && draw.trunk_origin.y > min_y && origin.y + draw.tree_height < max_y_exclusive
            && draw.trunk_origin.y + draw.tree_height < max_y_exclusive,
{
}

/// A tree that reaches its height grows; a lower one grows only where the size
/// allows clipping and not below the lowest clipped height.
pub proof fn only_clippable_trees_grow_lower(config: TreeConfiguration, wanted: int, clipped: int)
    ensures
        clipped >= wanted ==> tree::accepts_height(config, wanted, clipped),
        clipped < wanted ==> (tree::accepts_height(config, wanted, clipped) <==> (
        config.minimum_size matches FeatureSize::TwoLayers { min_clipped_height: Some(least), .. }
            && least <= clipped) || (
        config.minimum_size matches FeatureSize::ThreeLayers {
            min_clipped_height: Some(least),
            ..
        } && least <= clipped)),
{
}

/// The states of different positions of a box are kept in different places.
pub proof fn positions_of_a_box_keep_apart(
    region: StateBox,
    a: (int, int, int),
    b: (int, int, int),
)
    requires
        region.covers(a.0, a.1, a.2),
        region.covers(b.0, b.1, b.2),
        region.place(a.0, a.1, a.2) == region.place(b.0, b.1, b.2),
    ensures
        a == b,
{
    let (w, d) = (region.size_x as int, region.size_z as int);
    let (ax, ay, az) = (a.0 - region.low.x, a.1 - region.low.y, a.2 - region.low.z);
    let (bx, by, bz) = (b.0 - region.low.x, b.1 - region.low.y, b.2 - region.low.z);
    let (p, q) = (ay * d + az, by * d + bz);
    assert(p == q && ax == bx) by (nonlinear_arith)
        requires
            p * w + ax == q * w + bx,
            0 <= ax < w,
            0 <= bx < w,
    ;
    assert(ay == by && az == bz) by (nonlinear_arith)
        requires
            ay * d + az == by * d + bz,
            0 <= az < d,
            0 <= bz < d,
    ;
}

/// Of all boxes that hold some positions, theirs is the smallest: every other
/// one holds its corners.
pub proof fn the_bounds_are_the_smallest_box(
    bounds: TreeBounds,
    positions: Seq<BlockPos>,
    other: TreeBounds,
)
    requires
        bounds.bounds(positions),
        forall|i: int|
            0 <= i < positions.len() ==> other.min_x <= (#[trigger] positions[i]).x <= other.max_x
                && other.min_y <= positions[i].y <= other.max_y && other.min_z <= positions[i].z
                <= other.max_z,
    ensures
        other.min_x <= bounds.min_x <= bounds.max_x <= other.max_x,
        other.min_y <= bounds.min_y <= bounds.max_y <= other.max_y,
        other.min_z <= bounds.min_z <= bounds.max_z <= other.max_z,
        forall|i: int|
            0 <= i < positions.len() ==> bounds.min_x <= (#[trigger] positions[i]).x
                <= bounds.max_x && bounds.min_y <= positions[i].y <= bounds.max_y && bounds.min_z
                <= positions[i].z <= bounds.max_z,
{
    assert forall|i: int| 0 <= i < positions.len() implies bounds.min_x <= (
    #[trigger] positions[i]).x <= bounds.max_x && bounds.min_y <= positions[i].y <= bounds.max_y
        && bounds.min_z <= positions[i].z <= bounds.max_z by {
        assert(bounds.holds(positions[i]));
    }
}

/// Noting a position leaves what was noted before in its order, and holds the
/// position once.
pub proof fn a_noted_position_is_held_once(positions: Seq<BlockPos>, at: BlockPos, other: BlockPos)
    requires
        positions.no_duplicates(),
    ensures
        tree::with_position(positions, at).contains(at),
        tree::with_position(positions, at).no_duplicates(),
        tree::with_position(positions, at).contains(other) <==> positions.contains(other) || other
            == at,
        tree::with_position(positions, at).subrange(0, positions.len() as int) == positions,
{
    let now = tree::with_position(positions, at);
    assert(now.subrange(0, positions.len() as int) =~= positions);
    if !positions.contains(at) {
        assert(now[positions.len() as int] == at);
        if positions.contains(other) {
            let k = choose|k: int| 0 <= k < positions.len() && positions[k] == other;
            assert(now[k] == other);
        }
        if now.contains(other) && other != at {
            let k = choose|k: int| 0 <= k < now.len() && now[k] == other;
            assert(positions[k] == other);
        }
    }
}

/// Where exposure goes by chance, a block away from air takes its first match,
/// and one near air the first match whose number is at or above the chance; a
/// number is drawn for each match up to that one.
pub proof fn by_chance_the_first_lucky_match_is_placed(
    targets: Seq<ResolvedOreTarget>,
    block_id: usize,
    near_air: bool,
    draws: Seq<bool>,
    from: int,
    used: int,
)
    requires
        0 <= from,
    ensures
        ({
            let (placed, drawn) = ore_exposure::placed_target(
                targets,
                block_id,
                AirCheck::ByChance,
                near_air,
                draws,
                from,
                used,
            );
            let first = ore::first_match(targets, block_id, from);
            &&& first is None ==> placed is None && drawn == used
            &&& first is Some && (!near_air || draws[used]) ==> placed == first && drawn == used + 1
            &&& first is Some && near_air && !draws[used] ==> (placed, drawn)
                == ore_exposure::placed_target(
                targets,
                block_id,
                AirCheck::ByChance,
                near_air,
                draws,
                first->0 + 1,
                used + 1,
            )
        }),
    decreases targets.len() - from,
{
    if from < targets.len() && !targets[from].matches(block_id) {
        by_chance_the_first_lucky_match_is_placed(
            targets,
            block_id,
            near_air,
            draws,
            from + 1,
            used,
        );
    }
}

/// The tries of a scattered ore reach farther one by one, up to seven blocks.
pub proof fn scattered_tries_reach_farther_up_to_seven(i: int)
    requires
        0 <= i,
    ensures
        ore_exposure::scatter_reach(0) == 0,
        i < 7 ==> ore_exposure::scatter_reach(i + 1) == ore_exposure::scatter_reach(i) + 1,
        i >= 7 ==> ore_exposure::scatter_reach(i) == 7,
{
}

/// A block stops a tree unless it is air, gives way to trees, is a log or is
/// one that an upward branching tree grows through; a vine stops it too where
/// vines count.
pub proof fn a_tree_grows_through_what_gives_way(
    tags: TreeTags,
    state: u16,
    placer: TrunkPlacer,
)
    ensures
        ({
            let gives_way = tags.air.holds(state) || tags.replaceable_by_trees.holds(state)
                || tags.logs.holds(state) || (placer is UpwardsBranching
                && placer->UpwardsBranching_0.holds(state));
            &&& tags.is_blocked(state, placer, true) <==> !gives_way
            &&& tags.is_blocked(state, placer, false) <==> !gives_way || tags.vine.holds(state)
        }),
        tags.is_valid(state) <==> tags.air.holds(state) || tags.replaceable_by_trees.holds(state),
{
}

/// One neighbour more is near air where it is air itself or another was.
pub proof fn air_is_near_where_a_neighbour_is_air(states: Seq<u16>, one: u16, air: Seq<bool>)
    ensures
        ore_exposure::touches_air(states.push(one), air) <==> ore_exposure::touches_air(states, air)
            || air[one as int],
        !ore_exposure::touches_air(Seq::empty(), air),
{
    let more = states.push(one);
    if ore_exposure::touches_air(states, air) {
        let i = choose|i: int| 0 <= i < states.len() && air[(#[trigger] states[i]) as int];
        assert(more[i] == states[i]);
    }
    assert(more[states.len() as int] == one);
    if ore_exposure::touches_air(more, air) {
        let i = choose|i: int| 0 <= i < more.len() && air[(#[trigger] more[i]) as int];
        if i < states.len() {
            assert(states[i] == more[i]);
        }
    }
}

} // verus!
