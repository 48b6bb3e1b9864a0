//! Trees: whether one fits, how high it may grow, and what it placed.

use vstd::prelude::*;

use crate::feature::vanilla_collections::JavaBlockPosSet;
use crate::pos::BlockPos;

verus! {

/// Per-state membership for a block tag.
#[derive(Debug)]
pub struct TreeTagStates {
    pub states: Vec<bool>,
}

impl TreeTagStates {
    /// The state's block is in the tag.
    pub open spec fn holds(&self, state: u16) -> bool {
        state < self.states@.len() && self.states@[state as int]
    }

    /// The table for a tag, from the block of every state and the tag's members
    /// among the blocks.
    pub fn build(state_to_block: &Vec<usize>, members: &Vec<bool>) -> (r: Self)
        requires
            forall|i: int|
                0 <= i < state_to_block@.len() ==> #[trigger] state_to_block@[i] < members@.len(),
        ensures
            r.states@.len() == state_to_block@.len(),
            forall|i: int|
                0 <= i < state_to_block@.len() ==> #[trigger] r.states@[i]
                    == members@[state_to_block@[i] as int],
    {
        let mut states: Vec<bool> = Vec::new();
        let mut i: usize = 0;
        while i < state_to_block.len()
            invariant
                forall|i: int|
                    0 <= i < state_to_block@.len() ==> #[trigger] state_to_block@[i]
                        < members@.len(),
                i <= state_to_block@.len(),
                states@.len() == i,
                forall|k: int|
                    0 <= k < i ==> #[trigger] states@[k] == members@[state_to_block@[k] as int],
            decreases state_to_block@.len() - i,
        {
            states.push(members[state_to_block[i]]);
            i += 1;
        }
        TreeTagStates { states }
    }

    /// Whether a state's block is in the tag.
    pub fn contains(&self, state: u16) -> (r: bool)
        ensures
            r == self.holds(state),
    {
        (state as usize) < self.states.len() && self.states[state as usize]
    }
}

/// The tags that trees look at.
#[derive(Debug)]
pub struct TreeTags {
    pub air: TreeTagStates,
    pub replaceable_by_trees: TreeTagStates,
    pub logs: TreeTagStates,
    pub leaves: TreeTagStates,
    pub prevents_nearby_leaf_decay: TreeTagStates,
    pub vine: TreeTagStates,
}

/// How a trunk is built; only the upwards branching one grows through more than
/// the others.
#[derive(Debug)]
pub enum TrunkPlacer {
    UpwardsBranching(TreeTagStates),
    Straight,
    Forking,
    Giant,
    Fancy,
    DarkOak,
    MegaJungle,
    Bending,
    Cherry,
}

impl TreeTags {
    /// A tree may replace the state.
    pub open spec fn is_valid(&self, state: u16) -> bool {
        self.air.holds(state) || self.replaceable_by_trees.holds(state)
    }

    /// The trunk may pass through the state.
    pub open spec fn is_free(&self, state: u16, placer: TrunkPlacer) -> bool {
        self.is_valid(state) || self.logs.holds(state) || match placer {
            TrunkPlacer::UpwardsBranching(can_grow_through) => can_grow_through.holds(state),
            _ => false,
        }
    }

    /// The state stops the trunk.
    pub open spec fn is_blocked(
        &self,
        state: u16,
        placer: TrunkPlacer,
        ignore_vines: bool,
    ) -> bool {
        !self.is_free(state, placer) || (!ignore_vines && self.vine.holds(state))
    }

    /// Whether a tree may replace the state.
    pub fn tree_state_valid_pos(&self, state: u16) -> (r: bool)
        ensures
            r == self.is_valid(state),
    {
        self.air.contains(state) || self.replaceable_by_trees.contains(state)
    }

    /// Whether the state counts as a valid position for the trunk.
    pub fn tree_valid_pos_for_trunk_placer(&self, state: u16, placer: &TrunkPlacer) -> (r: bool)
        ensures
            r == (self.is_valid(state) || match *placer {
                TrunkPlacer::UpwardsBranching(can_grow_through) => can_grow_through.holds(state),
                _ => false,
            }),
    {
        match placer {
            TrunkPlacer::UpwardsBranching(can_grow_through) => self.tree_state_valid_pos(state)
                || can_grow_through.contains(state),
            _ => self.tree_state_valid_pos(state),
        }
    }

    /// Whether the trunk may pass through the state.
    pub fn tree_trunk_placer_is_free(&self, state: u16, placer: &TrunkPlacer) -> (r: bool)
        ensures
            r == self.is_free(state, *placer),
    {
        self.tree_valid_pos_for_trunk_placer(state, placer) || self.logs.contains(state)
    }

    /// Whether the state is air or leaves.
    pub fn tree_is_air_or_leaves(&self, state: u16) -> (r: bool)
        ensures
            r == (self.air.holds(state) || self.leaves.holds(state)),
    {
        self.air.contains(state) || self.leaves.contains(state)
    }
}

/// How much room a tree needs around its trunk.
#[derive(Debug, Clone, Copy)]
pub enum FeatureSize {
    TwoLayers { limit: i32, lower_size: i32, upper_size: i32, min_clipped_height: Option<i32> },
    ThreeLayers {
        limit: i32,
        upper_limit: i32,
        lower_size: i32,
        middle_size: i32,
        upper_size: i32,
        min_clipped_height: Option<i32>,
    },
}

impl FeatureSize {
    /// The room at a height of a tree, to each side.
    pub open spec fn size_at(&self, tree_height: int, y: int) -> int {
        match *self {
            FeatureSize::TwoLayers { limit, lower_size, upper_size, .. } => if y < limit {
                lower_size as int
            } else {
                upper_size as int
            },
            FeatureSize::ThreeLayers {
                limit,
                upper_limit,
                lower_size,
                middle_size,
                upper_size,
                ..
            } => if y < limit {
                lower_size as int
            } else if y >= tree_height - upper_limit {
                upper_size as int
            } else {
                middle_size as int
            },
        }
    }

    /// The lowest height that a clipped tree may have.
    pub open spec fn clipped_floor(&self) -> Option<i32> {
        match *self {
            FeatureSize::TwoLayers { min_clipped_height, .. } => min_clipped_height,
            FeatureSize::ThreeLayers { min_clipped_height, .. } => min_clipped_height,
        }
    }

    /// The lowest height that a clipped tree may have.
    pub fn tree_min_clipped_height(&self) -> (r: Option<i32>)
        ensures
            r == self.clipped_floor(),
    {
        match self {
            FeatureSize::TwoLayers { min_clipped_height, .. } => *min_clipped_height,
            FeatureSize::ThreeLayers { min_clipped_height, .. } => *min_clipped_height,
        }
    }

    /// The room at a height of a tree, to each side.
    pub fn tree_size_at_height(&self, tree_height: i32, y: i32) -> (r: i32)
        ensures
            r == self.size_at(tree_height as int, y as int),
    {
        match self {
            FeatureSize::TwoLayers { limit, lower_size, upper_size, .. } => if y < *limit {
                *lower_size
            } else {
                *upper_size
            },
            FeatureSize::ThreeLayers {
                limit,
                upper_limit,
                lower_size,
                middle_size,
                upper_size,
                ..
            } => if y < *limit {
                *lower_size
            } else if y as i64 >= tree_height as i64 - *upper_limit as i64 {
                *upper_size
            } else {
                *middle_size
            },
        }
    }
}

/// The block states of a box, from its lowest corner: along x, then z, then y.
pub struct StateBox {
    pub low: BlockPos,
    pub size_x: usize,
    pub size_z: usize,
    pub states: Vec<u16>,
}

impl StateBox {
    /// Where a position's state is kept.
    pub open spec fn place(&self, x: int, y: int, z: int) -> int {
        ((y - self.low.y) * self.size_z + (z - self.low.z)) * self.size_x + (x - self.low.x)
    }

    /// The box holds the position.
    pub open spec fn covers(&self, x: int, y: int, z: int) -> bool {
        &&& 0 <= x - self.low.x < self.size_x
        &&& 0 <= z - self.low.z < self.size_z
        &&& 0 <= y - self.low.y
        &&& (y - self.low.y + 1) * (self.size_z * self.size_x) <= self.states@.len()
    }

    /// The state at a position of the box.
    pub open spec fn state(&self, x: int, y: int, z: int) -> u16 {
        self.states@[self.place(x, y, z)]
    }

    /// A position's place is one of the kept states.
    pub(crate) proof fn lemma_place(&self, x: int, y: int, z: int)
        requires
            self.covers(x, y, z),
        ensures
            0 <= self.place(x, y, z) < self.states@.len(),
            0 <= (y - self.low.y) * self.size_z,
            (y - self.low.y) * self.size_z + (z - self.low.z) <= self.states@.len(),
            0 <= ((y - self.low.y) * self.size_z + (z - self.low.z)) * self.size_x,
            y - self.low.y <= self.states@.len(),
    {
        let (a, b, c, w, d) = (
            x - self.low.x,
            y - self.low.y,
            z - self.low.z,
            self.size_x as int,
            self.size_z as int,
        );
        assert((b + 1) * (d * w) == b * d * w + d * w) by (nonlinear_arith);
        assert(b <= b * (d * w)) by (nonlinear_arith)
            requires
                b >= 0,
                d >= 1,
                w >= 1,
        ;
        assert(b * (d * w) == b * d * w) by (nonlinear_arith);
        assert(d * w >= 0) by (nonlinear_arith)
            requires
                d >= 0,
                w >= 0,
        ;
        assert((b * d + c) * w + a < b * d * w + d * w) by (nonlinear_arith)
            requires
                0 <= a < w,
                0 <= c < d,
        ;
        assert(0 <= b * d && b * d + c <= (b * d + c) * w) by (nonlinear_arith)
            requires
                b >= 0,
                d >= 0,
                c >= 0,
                w >= 1,
        ;
    }

    /// Distinct positions of the box have distinct places.
    pub proof fn places_are_apart(&self, x: int, y: int, z: int, u: int, v: int, w: int)
        requires
            self.covers(x, y, z),
            self.covers(u, v, w),
            self.place(x, y, z) == self.place(u, v, w),
        ensures
            x == u,
            y == v,
            z == w,
    {
        let (a, b) = ((y - self.low.y), (v - self.low.y));
        let d = self.size_z as int;
        let (p, q) = (a * d + (z - self.low.z), b * d + (w - self.low.z));
        lemma_rows_apart(p, x - self.low.x, q, u - self.low.x, self.size_x as int);
        lemma_rows_apart(a, z - self.low.z, b, w - self.low.z, d);
    }

    /// Where a position's state is kept.
    fn place_of(&self, x: i32, y: i32, z: i32) -> (r: usize)
        requires
            self.covers(x as int, y as int, z as int),
        ensures
            r == self.place(x as int, y as int, z as int),
            r < self.states@.len(),
    {
        let dx: usize = (x as i64 - self.low.x as i64) as usize;
        let dy: u64 = (y as i64 - self.low.y as i64) as u64;
        let dz: usize = (z as i64 - self.low.z as i64) as usize;
        proof {
            self.lemma_place(x as int, y as int, z as int);
            assert(self.states.len() == self.states@.len());
        }
        (dy as usize * self.size_z + dz) * self.size_x + dx
    }

    /// The state at a position of the box.
    pub fn block_state(&self, x: i32, y: i32, z: i32) -> (r: u16)
        requires
            self.covers(x as int, y as int, z as int),
        ensures
            r == self.state(x as int, y as int, z as int),
    {
        self.states[self.place_of(x, y, z)]
    }

    /// Puts a state at a position of the box.
    pub fn set_block_state(&mut self, x: i32, y: i32, z: i32, state: u16)
        requires
            old(self).covers(x as int, y as int, z as int),
        ensures
            final(self).low == old(self).low,
            final(self).size_x == old(self).size_x,
            final(self).size_z == old(self).size_z,
            final(self).states@ == old(self).states@.update(
                old(self).place(x as int, y as int, z as int),
                state,
            ),
    {
        let at: usize = self.place_of(x, y, z);
        self.states.set(at, state);
    }

    /// Whether the box holds a position.
    pub fn holds(&self, x: i32, y: i32, z: i32) -> (r: bool)
        ensures
            r == self.covers(x as int, y as int, z as int),
    {
        let dx: i128 = x as i128 - self.low.x as i128;
        let dy: i128 = y as i128 - self.low.y as i128;
        let dz: i128 = z as i128 - self.low.z as i128;
        if dx < 0 || dy < 0 || dz < 0 || dx >= self.size_x as i128 || dz >= self.size_z as i128 {
            return false;
        }
        let total: usize = self.states.len();
        let (w, d): (usize, usize) = (self.size_x, self.size_z);
        proof {
            let (b, layer) = (dy as int, d as int * w as int);
            assert(layer >= 1) by (nonlinear_arith)
                requires
                    layer == d as int * w as int,
                    d >= 1,
                    w >= 1,
            ;
            assert((b + 1) * layer <= total <==> b < total as int / layer) by (nonlinear_arith)
                requires
                    layer >= 1,
                    b >= 0,
                    total >= 0,
            ;
            assert(total as int / layer == total as int / d as int / w as int) by {
                vstd::arithmetic::div_mod::lemma_div_denominator(total as int, d as int, w as int);
            }
        }
        dy < (total / d / w) as i128
    }
}

/// A row and a place in it are told by their number.
proof fn lemma_rows_apart(p: int, a: int, q: int, b: int, wide: int)
    requires
        0 <= a < wide,
        0 <= b < wide,
        p * wide + a == q * wide + b,
    ensures
        p == q,
        a == b,
{
    if p < q {
        assert((p + 1) * wide <= q * wide) by (nonlinear_arith)
            requires
                p + 1 <= q,
                wide >= 0,
        ;
        assert((p + 1) * wide == p * wide + wide) by (nonlinear_arith);
    } else if q < p {
        assert((q + 1) * wide <= p * wide) by (nonlinear_arith)
            requires
                q + 1 <= p,
                wide >= 0,
        ;
        assert((q + 1) * wide == q * wide + wide) by (nonlinear_arith);
    }
}

/// What decides whether a tree fits.
pub struct TreeConfiguration {
    pub trunk_placer: TrunkPlacer,
    pub minimum_size: FeatureSize,
    pub ignore_vines: bool,
    pub has_roots: bool,
}

/// The room that a tree needs at a height is within the box, and its
/// coordinates are in range.
pub open spec fn room_covered(
    region: StateBox,
    height: int,
    at: BlockPos,
    config: TreeConfiguration,
) -> bool {
    forall|y: int, x: int, z: int|
        0 <= y <= height + 1 && -config.minimum_size.size_at(height, y) <= x
            <= config.minimum_size.size_at(height, y) && -config.minimum_size.size_at(height, y)
            <= z <= config.minimum_size.size_at(height, y) ==> #[trigger] region.covers(
            at.x + x,
            at.y + y,
            at.z + z,
        ) && i32::MIN <= at.x + x <= i32::MAX && i32::MIN <= at.z + z <= i32::MAX && at.y + y
            <= i32::MAX
}

/// A state at a height of the tree stops it.
pub open spec fn blocked_at(
    region: StateBox,
    tags: TreeTags,
    height: int,
    at: BlockPos,
    config: TreeConfiguration,
    y: int,
) -> bool {
    exists|x: int, z: int|
        -config.minimum_size.size_at(height, y) <= x <= config.minimum_size.size_at(height, y)
            && -config.minimum_size.size_at(height, y) <= z <= config.minimum_size.size_at(
            height,
            y,
        ) && tags.is_blocked(
            #[trigger] region.state(at.x + x, at.y + y, at.z + z),
            config.trunk_placer,
            config.ignore_vines,
        )
}

/// How high a tree can grow: two below the lowest height that something stops
/// it at, or as high as it wants.
pub fn max_free_tree_height(
    region: &StateBox,
    tags: &TreeTags,
    max_tree_height: i32,
    tree_pos: BlockPos,
    config: &TreeConfiguration,
) -> (r: i32)
    requires
        max_tree_height < i32::MAX,
        room_covered(*region, max_tree_height as int, tree_pos, *config),
        forall|y: int|
            0 <= y <= max_tree_height + 1 ==> #[trigger] config.minimum_size.size_at(
                max_tree_height as int,
                y,
            ) < i32::MAX,
    ensures
        ({
            let free = |y: int|
                !blocked_at(*region, *tags, max_tree_height as int, tree_pos, *config, y);
            (r == max_tree_height && forall|y: int| 0 <= y <= max_tree_height + 1 ==> #[trigger]
                free(y)) || (0 <= r + 2 <= max_tree_height + 1 && !free(r + 2) && forall|y: int|
                0 <= y < r + 2 ==> #[trigger] free(y))
        }),
{
    let ghost free = |y: int|
        !blocked_at(*region, *tags, max_tree_height as int, tree_pos, *config, y);
    let mut y: i32 = 0;
    while y <= max_tree_height + 1
        invariant
            max_tree_height < i32::MAX,
            room_covered(*region, max_tree_height as int, tree_pos, *config),
            forall|y: int|
                0 <= y <= max_tree_height + 1 ==> #[trigger] config.minimum_size.size_at(
                    max_tree_height as int,
                    y,
                ) < i32::MAX,
            free == (|y: int|
                !blocked_at(*region, *tags, max_tree_height as int, tree_pos, *config, y)),
            0 <= y,
            y <= max_tree_height + 2 || y == 0,
            forall|k: int| 0 <= k < y ==> #[trigger] free(k),
        decreases max_tree_height + 2 - y,
    {
        let radius: i32 = config.minimum_size.tree_size_at_height(max_tree_height, y);
        let ghost size = config.minimum_size.size_at(max_tree_height as int, y as int);
        if radius >= 0 {
            let mut x: i32 = -radius;
            while x <= radius
                invariant
                    room_covered(*region, max_tree_height as int, tree_pos, *config),
                    free == (|y: int|
                        !blocked_at(
                            *region,
                            *tags,
                            max_tree_height as int,
                            tree_pos,
                            *config,
                            y,
                        )),
                    0 <= y <= max_tree_height + 1,
                    0 <= radius < i32::MAX,
                    radius == config.minimum_size.size_at(max_tree_height as int, y as int),
                    -radius <= x <= radius + 1,
                    forall|k: int| 0 <= k < y ==> #[trigger] free(k),
                    forall|a: int, b: int|
                        -radius <= a < x && -radius <= b <= radius ==> !tags.is_blocked(
                            #[trigger] region.state(
                                tree_pos.x + a,
                                tree_pos.y + y,
                                tree_pos.z + b,
                            ),
                            config.trunk_placer,
                            config.ignore_vines,
                        ),
                decreases radius + 1 - x,
            {
                let mut z: i32 = -radius;
                while z <= radius
                    invariant
                        room_covered(*region, max_tree_height as int, tree_pos, *config),
                        free == (|y: int|
                            !blocked_at(
                                *region,
                                *tags,
                                max_tree_height as int,
                                tree_pos,
                                *config,
                                y,
                            )),
                        0 <= y <= max_tree_height + 1,
                        0 <= radius < i32::MAX,
                        radius == config.minimum_size.size_at(max_tree_height as int, y as int),
                        -radius <= x <= radius,
                        -radius <= z <= radius + 1,
                        forall|k: int| 0 <= k < y ==> #[trigger] free(k),
                        forall|a: int, b: int|
                            -radius <= a <= x && -radius <= b <= radius && (a < x || b < z)
                                ==> !tags.is_blocked(
                                #[trigger] region.state(
                                    tree_pos.x + a,
                                    tree_pos.y + y,
                                    tree_pos.z + b,
                                ),
                                config.trunk_placer,
                                config.ignore_vines,
                            ),
                    decreases radius + 1 - z,
                {
                    assert(region.covers(tree_pos.x + x, tree_pos.y + y, tree_pos.z + z));
                    let state: u16 = region.block_state(
                        (tree_pos.x as i64 + x as i64) as i32,
                        (tree_pos.y as i64 + y as i64) as i32,
                        (tree_pos.z as i64 + z as i64) as i32,
                    );
                    if !tags.tree_trunk_placer_is_free(state, &config.trunk_placer) || (
                    !config.ignore_vines && tags.vine.contains(state)) {
                        proof {
                            assert(tags.is_blocked(
                                region.state(tree_pos.x + x, tree_pos.y + y, tree_pos.z + z),
                                config.trunk_placer,
                                config.ignore_vines,
                            ));
                            assert(!free(y as int));
                        }
                        return y - 2;
                    }
                    z += 1;
                }
                x += 1;
            }
        }
        assert(free(y as int)) by {
            if blocked_at(*region, *tags, max_tree_height as int, tree_pos, *config, y as int) {
                let (a, b) = choose|a: int, b: int|
                    -size <= a <= size && -size <= b <= size && tags.is_blocked(
                        #[trigger] region.state(tree_pos.x + a, tree_pos.y + y, tree_pos.z + b),
                        config.trunk_placer,
                        config.ignore_vines,
                    );
                assert(false);
            }
        }
        if y == max_tree_height + 1 {
            return max_tree_height;
        }
        y += 1;
    }
    max_tree_height
}

/// What was drawn for a tree before it is placed.
#[derive(Debug, Clone, Copy)]
pub struct TreeDraw {
    pub tree_height: i32,
    pub foliage_height: i32,
    pub leaf_radius: i32,
    pub trunk_origin: BlockPos,
}

/// How a tree goes on.
#[derive(Debug, Clone, Copy, PartialEq, Eq, Structural)]
pub enum TreeDecision {
    /// There is no room.
    Refused,
    /// The trunk is placed, as high as this, after the roots if there are any;
    /// without its roots the tree is not placed.
    Grow { clipped_tree_height: i32, roots_first: bool },
}

/// The tree, from below its trunk to above its top, lies within the world.
pub open spec fn within_world(draw: TreeDraw, origin: BlockPos, min_y: int, max_y_exclusive: int) -> bool {
    let low = if origin.y <= draw.trunk_origin.y {
        origin.y
    } else {
        draw.trunk_origin.y
    };
    let high = if origin.y >= draw.trunk_origin.y {
        origin.y
    } else {
        draw.trunk_origin.y
    };
    low >= min_y + 1 && high + draw.tree_height + 1 <= max_y_exclusive
}

/// A tree of this height grows although it can only reach that one.
pub open spec fn accepts_height(config: TreeConfiguration, wanted: int, clipped: int) -> bool {
    clipped >= wanted || match config.minimum_size.clipped_floor() {
        Some(floor) => clipped >= floor,
        None => false,
    }
}

/// Whether the tree lies within the world.
pub fn tree_lies_in_world(
    draw: &TreeDraw,
    origin: BlockPos,
    min_y: i32,
    max_y_exclusive: i32,
) -> (r: bool)
    ensures
        r == within_world(*draw, origin, min_y as int, max_y_exclusive as int),
{
    let low: i32 = if origin.y <= draw.trunk_origin.y {
        origin.y
    } else {
        draw.trunk_origin.y
    };
    let high: i32 = if origin.y >= draw.trunk_origin.y {
        origin.y
    } else {
        draw.trunk_origin.y
    };
    low as i64 >= min_y as i64 + 1 && high as i64 + draw.tree_height as i64 + 1
        <= max_y_exclusive as i64
}

/// Decides whether a tree is placed, and how high: it has to lie within the
/// world, and if something is in its way it is clipped, as far as its size
/// allows that.
pub fn do_place_tree(
    region: &StateBox,
    tags: &TreeTags,
    config: &TreeConfiguration,
    draw: &TreeDraw,
    origin: BlockPos,
    min_y: i32,
    max_y_exclusive: i32,
) -> (r: TreeDecision)
    requires
        draw.tree_height < i32::MAX,
        within_world(*draw, origin, min_y as int, max_y_exclusive as int) ==> room_covered(
            *region,
            draw.tree_height as int,
            draw.trunk_origin,
            *config,
        ),
        forall|y: int|
            0 <= y <= draw.tree_height + 1 ==> #[trigger] config.minimum_size.size_at(
                draw.tree_height as int,
                y,
            ) < i32::MAX,
    ensures
        !within_world(*draw, origin, min_y as int, max_y_exclusive as int) ==> r
            == TreeDecision::Refused,
        within_world(*draw, origin, min_y as int, max_y_exclusive as int) ==> exists|clipped: i32|
            #[trigger] free_height(*region, *tags, *draw, *config, clipped as int) && r == if accepts_height(
                *config,
                draw.tree_height as int,
                clipped as int,
            ) {
                TreeDecision::Grow {
                    clipped_tree_height: clipped,
                    roots_first: config.has_roots,
                }
            } else {
                TreeDecision::Refused
            },
{
    if !tree_lies_in_world(draw, origin, min_y, max_y_exclusive) {
        return TreeDecision::Refused;
    }
    let clipped: i32 = max_free_tree_height(
        region,
        tags,
        draw.tree_height,
        draw.trunk_origin,
        config,
    );
    assert(free_height(*region, *tags, *draw, *config, clipped as int));
    if clipped < draw.tree_height {
        let too_low: bool = match config.minimum_size.tree_min_clipped_height() {
            None => true,
            Some(floor) => clipped < floor,
        };
        if too_low {
            return TreeDecision::Refused;
        }
    }
    TreeDecision::Grow { clipped_tree_height: clipped, roots_first: config.has_roots }
}

/// How high the tree can grow: two below the lowest height that something stops
/// it at, or as high as it wants.
pub open spec fn free_height(
    region: StateBox,
    tags: TreeTags,
    draw: TreeDraw,
    config: TreeConfiguration,
    height: int,
) -> bool {
    let free = |y: int|
        !blocked_at(region, tags, draw.tree_height as int, draw.trunk_origin, config, y);
    (height == draw.tree_height && forall|y: int| 0 <= y <= draw.tree_height + 1 ==> #[trigger]
        free(y)) || (0 <= height + 2 <= draw.tree_height + 1 && !free(height + 2) && forall|y: int|
        0 <= y < height + 2 ==> #[trigger] free(y))
}

/// A tree has one free height.
pub proof fn the_free_height_is_unique(
    region: StateBox,
    tags: TreeTags,
    draw: TreeDraw,
    config: TreeConfiguration,
    a: int,
    b: int,
)
    requires
        free_height(region, tags, draw, config, a),
        free_height(region, tags, draw, config, b),
    ensures
        a == b,
{
    let free = |y: int|
        !blocked_at(region, tags, draw.tree_height as int, draw.trunk_origin, config, y);
    if 0 <= a + 2 <= draw.tree_height + 1 && !free(a + 2) {
        if 0 <= b + 2 <= draw.tree_height + 1 && !free(b + 2) {
        } else {
            assert(free(a + 2));
        }
    } else if 0 <= b + 2 <= draw.tree_height + 1 && !free(b + 2) {
        assert(free(b + 2));
    }
}

/// What a tree placed, each part in the order in which it was placed.
pub struct TreePlacement {
    pub roots: JavaBlockPosSet,
    pub trunks: JavaBlockPosSet,
    pub foliage: JavaBlockPosSet,
    pub decorations: JavaBlockPosSet,
}

/// A set with one more position, at the end unless it is there already.
pub open spec fn with_position(positions: Seq<BlockPos>, at: BlockPos) -> Seq<BlockPos> {
    if positions.contains(at) {
        positions
    } else {
        positions.push(at)
    }
}

impl TreePlacement {
    /// Every part is a set.
    pub open spec fn well_formed(&self) -> bool {
        self.roots.well_formed() && self.trunks.well_formed() && self.foliage.well_formed()
            && self.decorations.well_formed()
    }

    /// Everything that was placed, part after part.
    pub open spec fn all(&self) -> Seq<BlockPos> {
        self.roots@ + self.trunks@ + self.foliage@ + self.decorations@
    }

    /// Nothing placed.
    pub fn new() -> (r: Self)
        ensures
            r.well_formed(),
            r.roots@ == Seq::<BlockPos>::empty(),
            r.trunks@ == Seq::<BlockPos>::empty(),
            r.foliage@ == Seq::<BlockPos>::empty(),
            r.decorations@ == Seq::<BlockPos>::empty(),
            r.all() == Seq::<BlockPos>::empty(),
    {
        let r = TreePlacement {
            roots: JavaBlockPosSet::new(),
            trunks: JavaBlockPosSet::new(),
            foliage: JavaBlockPosSet::new(),
            decorations: JavaBlockPosSet::new(),
        };
        assert(r.all() =~= Seq::<BlockPos>::empty());
        r
    }

    /// Notes a root.
    pub fn set_root(&mut self, at: BlockPos)
        requires
            old(self).well_formed(),
        ensures
            final(self).well_formed(),
            final(self).roots@ == with_position(old(self).roots@, at),
            final(self).trunks == old(self).trunks,
            final(self).foliage == old(self).foliage,
            final(self).decorations == old(self).decorations,
    {
        let _ = self.roots.insert(at);
    }

    /// Notes a part of the trunk.
    pub fn set_trunk(&mut self, at: BlockPos)
        requires
            old(self).well_formed(),
        ensures
            final(self).well_formed(),
            final(self).trunks@ == with_position(old(self).trunks@, at),
            final(self).roots == old(self).roots,
            final(self).foliage == old(self).foliage,
            final(self).decorations == old(self).decorations,
    {
        let _ = self.trunks.insert(at);
    }

    /// Notes a leaf.
    pub fn set_foliage(&mut self, at: BlockPos)
        requires
            old(self).well_formed(),
        ensures
            final(self).well_formed(),
            final(self).foliage@ == with_position(old(self).foliage@, at),
            final(self).roots == old(self).roots,
            final(self).trunks == old(self).trunks,
            final(self).decorations == old(self).decorations,
    {
        let _ = self.foliage.insert(at);
    }

    /// Notes a decoration.
    pub fn set_decoration(&mut self, at: BlockPos)
        requires
            old(self).well_formed(),
        ensures
            final(self).well_formed(),
            final(self).decorations@ == with_position(old(self).decorations@, at),
            final(self).roots == old(self).roots,
            final(self).trunks == old(self).trunks,
            final(self).foliage == old(self).foliage,
    {
        let _ = self.decorations.insert(at);
    }

    /// Whether a tree was placed: it has a trunk or leaves.
    pub fn place_tree_feature(&self, placed: bool) -> (r: bool)
        ensures
            r == (placed && !(self.trunks@.len() == 0 && self.foliage@.len() == 0)),
    {
        placed && !(self.trunks.is_empty() && self.foliage.is_empty())
    }
}

/// A box of positions.
#[derive(Debug, Clone, Copy, PartialEq, Eq, Structural)]
pub struct TreeBounds {
    pub min_x: i32,
    pub min_y: i32,
    pub min_z: i32,
    pub max_x: i32,
    pub max_y: i32,
    pub max_z: i32,
}

impl TreeBounds {
    /// The box holds the position.
    pub open spec fn holds(&self, at: BlockPos) -> bool {
        &&& self.min_x <= at.x <= self.max_x
        &&& self.min_y <= at.y <= self.max_y
        &&& self.min_z <= at.z <= self.max_z
    }

    /// The smallest box around some positions: it holds them all, and each of
    /// its sides touches one.
    pub open spec fn bounds(&self, positions: Seq<BlockPos>) -> bool {
        &&& forall|i: int| 0 <= i < positions.len() ==> self.holds(#[trigger] positions[i])
        &&& exists|i: int| 0 <= i < positions.len() && (#[trigger] positions[i]).x == self.min_x
        &&& exists|i: int| 0 <= i < positions.len() && (#[trigger] positions[i]).y == self.min_y
        &&& exists|i: int| 0 <= i < positions.len() && (#[trigger] positions[i]).z == self.min_z
        &&& exists|i: int| 0 <= i < positions.len() && (#[trigger] positions[i]).x == self.max_x
        &&& exists|i: int| 0 <= i < positions.len() && (#[trigger] positions[i]).y == self.max_y
        &&& exists|i: int| 0 <= i < positions.len() && (#[trigger] positions[i]).z == self.max_z
    }

    /// The box of one position.
    pub fn new(at: BlockPos) -> (r: Self)
        ensures
            r.bounds(seq![at]),
    {
        assert(seq![at][0] == at);
        TreeBounds {
            min_x: at.x,
            min_y: at.y,
            min_z: at.z,
            max_x: at.x,
            max_y: at.y,
            max_z: at.z,
        }
    }

    /// Widens the box to a position.
    pub fn include_position(&mut self, at: BlockPos)
        ensures
            final(self).holds(at),
            final(self).min_x == old(self).min_x && old(self).min_x <= at.x || final(self).min_x
                == at.x && at.x < old(self).min_x,
            final(self).min_y == old(self).min_y && old(self).min_y <= at.y || final(self).min_y
                == at.y && at.y < old(self).min_y,
            final(self).min_z == old(self).min_z && old(self).min_z <= at.z || final(self).min_z
                == at.z && at.z < old(self).min_z,
            final(self).max_x == old(self).max_x && old(self).max_x >= at.x || final(self).max_x
                == at.x && at.x > old(self).max_x,
            final(self).max_y == old(self).max_y && old(self).max_y >= at.y || final(self).max_y
                == at.y && at.y > old(self).max_y,
            final(self).max_z == old(self).max_z && old(self).max_z >= at.z || final(self).max_z
                == at.z && at.z > old(self).max_z,
    {
        if at.x < self.min_x {
            self.min_x = at.x;
        }
        if at.y < self.min_y {
            self.min_y = at.y;
        }
        if at.z < self.min_z {
            self.min_z = at.z;
        }
        if at.x > self.max_x {
            self.max_x = at.x;
        }
        if at.y > self.max_y {
            self.max_y = at.y;
        }
        if at.z > self.max_z {
            self.max_z = at.z;
        }
    }

    /// Whether the box holds the position.
    pub fn contains(self, at: BlockPos) -> (r: bool)
        ensures
            r == self.holds(at),
    {
        at.x >= self.min_x && at.x <= self.max_x && at.y >= self.min_y && at.y <= self.max_y && at.z
            >= self.min_z && at.z <= self.max_z
    }

    /// The smallest box around everything a tree placed, if it placed anything.
    pub fn from_placement(placement: &TreePlacement) -> (r: Option<Self>)
        ensures
            match r {
                None => placement.all().len() == 0,
                Some(bounds) => bounds.bounds(placement.all()),
            },
    {
        let r: Option<TreeBounds> = None;
        let roots = placement.roots.java_ordered_positions();
        let trunks = placement.trunks.java_ordered_positions();
        let foliage = placement.foliage.java_ordered_positions();
        let decorations = placement.decorations.java_ordered_positions();
        let r = widen(r, &roots, Ghost(Seq::empty()));
        let r = widen(r, &trunks, Ghost(Seq::<BlockPos>::empty() + roots@));
        let r = widen(r, &foliage, Ghost(Seq::<BlockPos>::empty() + roots@ + trunks@));
        let r = widen(
            r,
            &decorations,
            Ghost(Seq::<BlockPos>::empty() + roots@ + trunks@ + foliage@),
        );
        assert(Seq::<BlockPos>::empty() + roots@ + trunks@ + foliage@ + decorations@
            =~= placement.all());
        r
    }
}

/// A box is the smallest around some positions, or there are none.
pub open spec fn bounds_all(bounds: Option<TreeBounds>, positions: Seq<BlockPos>) -> bool {
    match bounds {
        None => positions.len() == 0,
        Some(b) => b.bounds(positions),
    }
}

proof fn lemma_touch(positions: Seq<BlockPos>, at: BlockPos, i: int)
    requires
        0 <= i < positions.len(),
    ensures
        positions.push(at)[i] == positions[i],
        positions.push(at)[positions.len() as int] == at,
{
}

fn widen(start: Option<TreeBounds>, more: &Vec<BlockPos>, Ghost(seen): Ghost<Seq<BlockPos>>) -> (r:
    Option<TreeBounds>)
    requires
        bounds_all(start, seen),
    ensures
        bounds_all(r, seen + more@),
{
    let mut r: Option<TreeBounds> = start;
    let mut i: usize = 0;
    assert(seen + more@.subrange(0, 0) =~= seen);
    while i < more.len()
        invariant
            i <= more@.len(),
            bounds_all(r, seen + more@.subrange(0, i as int)),
        decreases more@.len() - i,
    {
        let at = more[i];
        let ghost before = seen + more@.subrange(0, i as int);
        assert(seen + more@.subrange(0, i + 1) =~= before.push(at));
        r =
        match r {
            None => {
                assert(before.push(at) =~= seq![at]);
                Some(TreeBounds::new(at))
            },
            Some(bounds) => {
                let mut wider = bounds;
                wider.include_position(at);
                proof {
                    let now = before.push(at);
                    assert(now[before.len() as int] == at);
                    assert forall|k: int| 0 <= k < now.len() implies wider.holds(
                        #[trigger] now[k],
                    ) by {
                        if k < before.len() {
                            assert(bounds.holds(before[k]));
                        }
                    }
                    let a = choose|k: int|
                        0 <= k < before.len() && (#[trigger] before[k]).x == bounds.min_x;
                    let b = choose|k: int|
                        0 <= k < before.len() && (#[trigger] before[k]).y == bounds.min_y;
                    let c = choose|k: int|
                        0 <= k < before.len() && (#[trigger] before[k]).z == bounds.min_z;
                    let d = choose|k: int|
                        0 <= k < before.len() && (#[trigger] before[k]).x == bounds.max_x;
                    let e = choose|k: int|
                        0 <= k < before.len() && (#[trigger] before[k]).y == bounds.max_y;
                    let f = choose|k: int|
                        0 <= k < before.len() && (#[trigger] before[k]).z == bounds.max_z;
                    lemma_touch(before, at, a);
                    lemma_touch(before, at, b);
                    lemma_touch(before, at, c);
                    lemma_touch(before, at, d);
                    lemma_touch(before, at, e);
                    lemma_touch(before, at, f);
                }
                Some(wider)
            },
        };
        i += 1;
    }
    assert(more@.subrange(0, i as int) =~= more@);
    r
}

/// The distance of a number from zero.
pub fn abs_i32(value: i32) -> (r: i32)
    requires
        value > i32::MIN,
    ensures
        r == if value < 0 {
            -value
        } else {
            value as int
        },
{
    if value < 0 {
        -value
    } else {
        value
    }
}

} // verus!
