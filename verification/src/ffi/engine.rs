//! Which chunks a request needs, and how far.

use vstd::prelude::*;

use crate::ffi::snapshot;
use crate::ffi::snapshot::{ChunkContents, SnapshotNames};
use crate::pos::ChunkPos;
use crate::text;

verus! {

/// How a world handle was configured.
#[derive(Debug)]
pub struct WorldSpec {
    /// Generator identifier, e.g. `minecraft:overworld`.
    pub generator: String,
    /// World seed.
    pub seed: i64,
    /// Number of generation worker threads. Zero means one per available core.
    pub threads: usize,
}

impl WorldSpec {
    /// How many workers to start, given how many threads the machine runs at
    /// once, where that is known.
    pub fn worker_threads(&self, available: Option<usize>) -> (r: usize)
        ensures
            r == if self.threads != 0 {
                self.threads
            } else {
                match available {
                    Some(n) => n,
                    None => 1,
                }
            },
    {
        if self.threads == 0 {
            match available {
                Some(n) => n,
                None => 1,
            }
        } else {
            self.threads
        }
    }
}

// ---------------------------------------------------------------------------
// Positions
// ---------------------------------------------------------------------------
/// One position comes before another: row by row along z, and along x.
pub open spec fn comes_before(a: ChunkPos, b: ChunkPos) -> bool {
    a.z < b.z || (a.z == b.z && a.x < b.x)
}

/// Positions in strictly ascending order.
pub open spec fn ordered(positions: Seq<ChunkPos>) -> bool {
    forall|i: int, j: int| 0 <= i < j < positions.len() ==> comes_before(positions[i], positions[j])
}

/// A position lies within a square around another.
pub open spec fn within(center: ChunkPos, at: ChunkPos, radius: int) -> bool {
    center.x - radius <= at.x <= center.x + radius && center.z - radius <= at.z <= center.z
        + radius
}

/// The square around every center lies in the range of coordinates.
pub open spec fn squares_fit(centers: Seq<ChunkPos>, radius: int) -> bool {
    forall|i: int|
        0 <= i < centers.len() ==> i32::MIN <= (#[trigger] centers[i]).x - radius && centers[i].x
            + radius <= i32::MAX && i32::MIN <= centers[i].z - radius && centers[i].z + radius
            <= i32::MAX
}

/// Puts a position where it belongs, unless it is there already.
fn insert_position(positions: &mut Vec<ChunkPos>, at: ChunkPos)
    requires
        ordered(old(positions)@),
    ensures
        ordered(final(positions)@),
        forall|p: ChunkPos| #[trigger]
            final(positions)@.contains(p) <==> old(positions)@.contains(p) || p == at,
{
    let ghost before = positions@;
    let mut low: usize = 0;
    let mut high: usize = positions.len();
    while low < high
        invariant
            low <= high <= positions@.len(),
            positions@ == before,
            ordered(before),
            forall|i: int| 0 <= i < low ==> comes_before(#[trigger] before[i], at),
            forall|i: int| high <= i < before.len() ==> !comes_before(#[trigger] before[i], at),
        decreases high - low,
    {
        let middle: usize = low + (high - low) / 2;
        let there = positions[middle];
        if there.z < at.z || (there.z == at.z && there.x < at.x) {
            proof {
                assert forall|i: int| 0 <= i < middle + 1 implies comes_before(
                    #[trigger] before[i],
                    at,
                ) by {
                    if i < middle {
                        assert(comes_before(before[i], before[middle as int]));
                    }
                }
            }
            low = middle + 1;
        } else {
            proof {
                assert forall|i: int| middle <= i < before.len() implies !comes_before(
                    #[trigger] before[i],
                    at,
                ) by {
                    if i > middle {
                        assert(comes_before(before[middle as int], before[i]));
                    }
                }
            }
            high = middle;
        }
    }
    if low < positions.len() && positions[low] == at {
        assert(before[low as int] == at);
        return ;
    }
    positions.insert(low, at);
    proof {
        let after = positions@;
        assert(after =~= before.insert(low as int, at));
        assert forall|i: int, j: int| 0 <= i < j < after.len() implies comes_before(
            after[i],
            after[j],
        ) by {
            if j == low {
                assert(comes_before(before[i], at));
            } else if i == low {
                assert(!comes_before(before[j - 1], at));
                if j - 1 > low {
                    assert(comes_before(before[low as int], before[j - 1]));
                    assert(!comes_before(before[low as int], at));
                }
            } else {
                let a = if i < low {
                    i
                } else {
                    i - 1
                };
                let b = if j < low {
                    j
                } else {
                    j - 1
                };
                assert(comes_before(before[a], before[b]));
            }
        }
        assert forall|p: ChunkPos| #[trigger] after.contains(p) <==> before.contains(p) || p
            == at by {
            if after.contains(p) {
                let k = choose|k: int| 0 <= k < after.len() && after[k] == p;
                if k < low {
                    assert(before[k] == p);
                } else if k > low {
                    assert(before[k - 1] == p);
                }
            }
            if before.contains(p) {
                let k = choose|k: int| 0 <= k < before.len() && before[k] == p;
                if k < low {
                    assert(after[k] == p);
                } else {
                    assert(after[k + 1] == p);
                }
            }
            if p == at {
                assert(after[low as int] == p);
            }
        }
    }
}

/// The positions within the first `n` squares.
pub open spec fn in_squares(centers: Seq<ChunkPos>, n: int, radius: int, at: ChunkPos) -> bool {
    exists|i: int| 0 <= i < n && within(#[trigger] centers[i], at, radius)
}

/// Adds the square around one center.
fn add_square(positions: &mut Vec<ChunkPos>, center: ChunkPos, radius: i32)
    requires
        ordered(old(positions)@),
        0 <= radius,
        i32::MIN <= center.x - radius,
        center.x + radius <= i32::MAX,
        i32::MIN <= center.z - radius,
        center.z + radius <= i32::MAX,
    ensures
        ordered(final(positions)@),
        forall|p: ChunkPos| #[trigger]
            final(positions)@.contains(p) <==> old(positions)@.contains(p) || within(
                center,
                p,
                radius as int,
            ),
{
    let ghost start = positions@;
    let last_x: i64 = center.x as i64 + radius as i64;
    let last_z: i64 = center.z as i64 + radius as i64;
    let mut z: i64 = center.z as i64 - radius as i64;
    while z <= last_z
        invariant
            ordered(positions@),
            0 <= radius,
            i32::MIN <= center.x - radius,
            last_x == center.x + radius <= i32::MAX,
            last_z == center.z + radius <= i32::MAX,
            i32::MIN <= center.z - radius,
            center.z - radius <= z <= center.z + radius + 1,
            forall|p: ChunkPos| #[trigger]
                positions@.contains(p) <==> start.contains(p) || (within(center, p, radius as int)
                    && p.z < z),
        decreases center.z + radius + 1 - z,
    {
        let mut x: i64 = center.x as i64 - radius as i64;
        while x <= last_x
            invariant
                ordered(positions@),
                0 <= radius,
                i32::MIN <= center.x - radius,
                last_x == center.x + radius <= i32::MAX,
                last_z == center.z + radius <= i32::MAX,
                i32::MIN <= center.z - radius,
                center.z - radius <= z <= center.z + radius,
                center.x - radius <= x <= center.x + radius + 1,
                forall|p: ChunkPos| #[trigger]
                    positions@.contains(p) <==> start.contains(p) || (within(
                        center,
                        p,
                        radius as int,
                    ) && (p.z < z || (p.z == z && p.x < x))),
            decreases center.x + radius + 1 - x,
        {
            insert_position(positions, ChunkPos { x: x as i32, z: z as i32 });
            x += 1;
        }
        z += 1;
    }
}

/// Positions that must reach a status for a step to succeed at `centers`, which
/// reads that status as far away as `radius`: each once, row by row.
pub fn positions_for_status(centers: &Vec<ChunkPos>, radius: usize) -> (r: Vec<ChunkPos>)
    requires
        squares_fit(centers@, effective_radius(radius as int)),
    ensures
        ordered(r@),
        forall|p: ChunkPos| #[trigger]
            r@.contains(p) <==> in_squares(
                centers@,
                centers@.len() as int,
                effective_radius(radius as int),
                p,
            ),
{
    let radius: i32 = if radius as u64 <= i32::MAX as u64 {
        radius as i32
    } else {
        0
    };
    let mut positions: Vec<ChunkPos> = Vec::new();
    let mut i: usize = 0;
    while i < centers.len()
        invariant
            i <= centers@.len(),
            0 <= radius,
            squares_fit(centers@, radius as int),
            ordered(positions@),
            forall|p: ChunkPos| #[trigger]
                positions@.contains(p) <==> in_squares(centers@, i as int, radius as int, p),
        decreases centers@.len() - i,
    {
        let ghost before = positions@;
        assert(i32::MIN <= centers@[i as int].x - radius);
        add_square(&mut positions, centers[i], radius);
        proof {
            assert forall|p: ChunkPos| #[trigger] positions@.contains(p) <==> in_squares(
                centers@,
                i + 1,
                radius as int,
                p,
            ) by {
                assert(before.contains(p) <==> in_squares(centers@, i as int, radius as int, p));
                if within(centers@[i as int], p, radius as int) {
                    assert(in_squares(centers@, i + 1, radius as int, p));
                }
            }
        }
        i += 1;
    }
    positions
}

/// A radius, or zero if it is no coordinate distance.
pub open spec fn effective_radius(radius: int) -> int {
    if radius <= i32::MAX {
        radius
    } else {
        0
    }
}

/// No position is listed twice, so that no step is applied twice to a chunk.
pub proof fn no_position_is_listed_twice(positions: Seq<ChunkPos>)
    requires
        ordered(positions),
    ensures
        positions.no_duplicates(),
{
    assert forall|i: int, j: int|
        0 <= i < positions.len() && 0 <= j < positions.len() && i != j implies positions[i]
        != positions[j] by {
        if i < j {
            assert(comes_before(positions[i], positions[j]));
        } else {
            assert(comes_before(positions[j], positions[i]));
        }
    }
}

// ---------------------------------------------------------------------------
// The region of a request
// ---------------------------------------------------------------------------
/// A square of chunks around a center.
#[derive(Debug, Clone, Copy)]
pub struct Region {
    pub center_x: i32,
    pub center_z: i32,
    pub radius: i32,
}

/// The smallest of some numbers and the largest.
pub open spec fn is_extent(values: Seq<int>, low: int, high: int) -> bool {
    &&& values.contains(low)
    &&& values.contains(high)
    &&& forall|i: int| 0 <= i < values.len() ==> low <= #[trigger] values[i] <= high
}

/// The x coordinates of some positions.
pub open spec fn xs(positions: Seq<ChunkPos>) -> Seq<int> {
    Seq::new(positions.len(), |i: int| positions[i].x as int)
}

/// The z coordinates of some positions.
pub open spec fn zs(positions: Seq<ChunkPos>) -> Seq<int> {
    Seq::new(positions.len(), |i: int| positions[i].z as int)
}

/// Smallest and largest coordinate of some positions.
pub fn min_max(centers: &Vec<ChunkPos>) -> (r: ((i32, i32), (i32, i32)))
    requires
        centers@.len() > 0,
    ensures
        is_extent(xs(centers@), r.0.0 as int, r.0.1 as int),
        is_extent(zs(centers@), r.1.0 as int, r.1.1 as int),
{
    let mut x: (i32, i32) = (centers[0].x, centers[0].x);
    let mut z: (i32, i32) = (centers[0].z, centers[0].z);
    let mut i: usize = 1;
    proof {
        assert(xs(centers@)[0] == x.0 && zs(centers@)[0] == z.0);
    }
    while i < centers.len()
        invariant
            1 <= i <= centers@.len(),
            xs(centers@).contains(x.0 as int),
            xs(centers@).contains(x.1 as int),
            zs(centers@).contains(z.0 as int),
            zs(centers@).contains(z.1 as int),
            forall|k: int| 0 <= k < i ==> x.0 <= (#[trigger] centers@[k]).x <= x.1,
            forall|k: int| 0 <= k < i ==> z.0 <= (#[trigger] centers@[k]).z <= z.1,
        decreases centers@.len() - i,
    {
        let at = centers[i];
        proof {
            assert(xs(centers@)[i as int] == at.x && zs(centers@)[i as int] == at.z);
        }
        if at.x < x.0 {
            x.0 = at.x;
        }
        if at.x > x.1 {
            x.1 = at.x;
        }
        if at.z < z.0 {
            z.0 = at.z;
        }
        if at.z > z.1 {
            z.1 = at.z;
        }
        i += 1;
    }
    proof {
        assert forall|k: int| 0 <= k < xs(centers@).len() implies x.0 <= #[trigger] xs(centers@)[k]
            <= x.1 by {
            assert(x.0 <= centers@[k].x <= x.1);
        }
        assert forall|k: int| 0 <= k < zs(centers@).len() implies z.0 <= #[trigger] zs(centers@)[k]
            <= z.1 by {
            assert(z.0 <= centers@[k].z <= z.1);
        }
    }
    (x, z)
}

/// The middle of two numbers, rounded towards zero.
pub open spec fn middle_of(low: int, high: int) -> int {
    if low + high >= 0 {
        (low + high) / 2
    } else {
        -(-(low + high) / 2)
    }
}

fn midpoint(low: i32, high: i32) -> (r: i32)
    requires
        low <= high,
    ensures
        r == middle_of(low as int, high as int),
        low <= r <= high,
{
    let sum: i64 = low as i64 + high as i64;
    if sum >= 0 {
        (sum / 2) as i32
    } else {
        (-((-sum) / 2)) as i32
    }
}

/// How far the ends of a range lie from its middle.
pub open spec fn half_extent(low: int, high: int) -> int {
    let middle = middle_of(low, high);
    if high - middle >= middle - low {
        high - middle
    } else {
        middle - low
    }
}

/// The region is the square that covers the ranges and what depends on them.
pub open spec fn covers_ranges(
    region: Region,
    min_x: int,
    max_x: int,
    min_z: int,
    max_z: int,
    dependency_radius: int,
) -> bool {
    &&& region.center_x == middle_of(min_x, max_x)
    &&& region.center_z == middle_of(min_z, max_z)
    &&& region.radius == dependency_radius + if half_extent(min_x, max_x) >= half_extent(
        min_z,
        max_z,
    ) {
        half_extent(min_x, max_x)
    } else {
        half_extent(min_z, max_z)
    }
}

/// What a request for a region is answered.
pub open spec fn region_answer(
    centers: Seq<ChunkPos>,
    dependency_radius: int,
    answer: Result<Region, Seq<char>>,
) -> bool {
    if centers.len() == 0 {
        answer == Err::<Region, Seq<char>>("no chunk positions requested"@)
    } else if dependency_radius > i32::MAX {
        answer == Err::<Region, Seq<char>>("dependency radius overflow"@)
    } else {
        exists|min_x: int, max_x: int, min_z: int, max_z: int|
            {
                &&& #[trigger] is_extent(xs(centers), min_x, max_x)
                &&& #[trigger] is_extent(zs(centers), min_z, max_z)
                &&& match answer {
                    Ok(region) => covers_ranges(
                        region,
                        min_x,
                        max_x,
                        min_z,
                        max_z,
                        dependency_radius,
                    ),
                    Err(error) => error == "requested region is too large"@ && (half_extent(
                        min_x,
                        max_x,
                    ) + dependency_radius > i32::MAX || half_extent(min_z, max_z)
                        + dependency_radius > i32::MAX),
                }
            }
    }
}

/// No region is given to a request: there is nothing to generate, or the region
/// is too large to address.
pub open spec fn region_refused(centers: Seq<ChunkPos>, dependency_radius: int) -> bool {
    ||| centers.len() == 0
    ||| dependency_radius > i32::MAX
    ||| exists|low: int, high: int| #[trigger]
        is_extent(xs(centers), low, high) && half_extent(low, high) + dependency_radius > i32::MAX
    ||| exists|low: int, high: int| #[trigger]
        is_extent(zs(centers), low, high) && half_extent(low, high) + dependency_radius > i32::MAX
}

/// The region that a request needs: its bounding box grown by the radius that
/// the target step depends on.
pub fn build_cache(centers: &Vec<ChunkPos>, dependency_radius: usize) -> (r: Result<
    Region,
    String,
>)
    ensures
        region_answer(
            centers@,
            dependency_radius as int,
            match r {
                Ok(region) => Ok(region),
                Err(error) => Err(error@),
            },
        ),
        r is Err <==> region_refused(centers@, dependency_radius as int),
{
    if centers.len() == 0 {
        return Err("no chunk positions requested".to_owned());
    }
    if dependency_radius as u64 > i32::MAX as u64 {
        return Err("dependency radius overflow".to_owned());
    }
    let reach: i64 = dependency_radius as i64;
    let ((min_x, max_x), (min_z, max_z)) = min_max(centers);
    proof {
        assert(xs(centers@)[0] == centers@[0].x && zs(centers@)[0] == centers@[0].z);
        assert(min_x <= xs(centers@)[0] <= max_x && min_z <= zs(centers@)[0] <= max_z);
    }
    let center_x: i32 = midpoint(min_x, max_x);
    let center_z: i32 = midpoint(min_z, max_z);
    let across: i64 = farther(min_x, center_x, max_x);
    let along: i64 = farther(min_z, center_z, max_z);
    let extent: i64 = if across >= along {
        across
    } else {
        along
    };
    assert(is_extent(xs(centers@), min_x as int, max_x as int));
    assert(is_extent(zs(centers@), min_z as int, max_z as int));
    if extent + reach > i32::MAX as i64 {
        return Err("requested region is too large".to_owned());
    }
    proof {
        assert forall|low: int, high: int| #[trigger]
            is_extent(xs(centers@), low, high) implies low == min_x && high == max_x by {
            lemma_one_extent(xs(centers@), low, high, min_x as int, max_x as int);
        }
        assert forall|low: int, high: int| #[trigger]
            is_extent(zs(centers@), low, high) implies low == min_z && high == max_z by {
            lemma_one_extent(zs(centers@), low, high, min_z as int, max_z as int);
        }
    }
    Ok(Region { center_x, center_z, radius: (extent + reach) as i32 })
}

/// How far the ends of a range lie from its middle, at most.
fn farther(low: i32, middle: i32, high: i32) -> (r: i64)
    requires
        middle == middle_of(low as int, high as int),
    ensures
        r == half_extent(low as int, high as int),
        -0x1_0000_0000 < r < 0x1_0000_0000,
{
    let up: i64 = high as i64 - middle as i64;
    let down: i64 = middle as i64 - low as i64;
    if up >= down {
        up
    } else {
        down
    }
}

/// Numbers have one smallest and one largest among them.
proof fn lemma_one_extent(values: Seq<int>, a: int, b: int, low: int, high: int)
    requires
        is_extent(values, a, b),
        is_extent(values, low, high),
    ensures
        a == low,
        b == high,
{
    let i = choose|i: int| 0 <= i < values.len() && values[i] == a;
    let j = choose|j: int| 0 <= j < values.len() && values[j] == b;
    let k = choose|k: int| 0 <= k < values.len() && values[k] == low;
    let l = choose|l: int| 0 <= l < values.len() && values[l] == high;
    assert(low <= values[i] <= high && low <= values[j] <= high);
    assert(a <= values[k] <= b && a <= values[l] <= b);
}

/// The region holds every chunk that a requested one depends on.
pub proof fn the_region_covers_every_dependency(
    centers: Seq<ChunkPos>,
    region: Region,
    min_x: int,
    max_x: int,
    min_z: int,
    max_z: int,
    dependency_radius: int,
    i: int,
    at: ChunkPos,
)
    requires
        is_extent(xs(centers), min_x, max_x),
        is_extent(zs(centers), min_z, max_z),
        covers_ranges(region, min_x, max_x, min_z, max_z, dependency_radius),
        0 <= i < centers.len(),
        within(centers[i], at, dependency_radius),
    ensures
        within(
            ChunkPos { x: region.center_x, z: region.center_z },
            at,
            region.radius as int,
        ),
{
    assert(xs(centers)[i] == centers[i].x && zs(centers)[i] == centers[i].z);
    assert(min_x <= xs(centers)[i] <= max_x);
    assert(min_z <= zs(centers)[i] <= max_z);
}

// ---------------------------------------------------------------------------
// Stages
// ---------------------------------------------------------------------------
/// What has to be generated for a request: a region of chunks, and for each
/// status, from the first to the target, the positions that must reach it.
#[derive(Debug)]
pub struct GenerationPlan {
    pub region: Region,
    pub stages: Vec<Vec<ChunkPos>>,
}

/// The positions of each status are those within its radius of the centers.
pub open spec fn stages_cover(
    stages: Seq<Vec<ChunkPos>>,
    centers: Seq<ChunkPos>,
    radii: Seq<usize>,
    n: int,
) -> bool {
    &&& stages.len() == n
    &&& forall|s: int|
        0 <= s < n ==> {
            &&& ordered((#[trigger] stages[s])@)
            &&& forall|p: ChunkPos| #[trigger]
                stages[s]@.contains(p) <==> in_squares(
                    centers,
                    centers.len() as int,
                    effective_radius(radii[s] as int),
                    p,
                )
        }
}

/// Plans the generation of `centers`.
///
/// `radii` has the radius that the target step accumulated for each status,
/// from the first to the target, so that by the time a step runs, every chunk
/// it may read is already at the required status.
pub fn generate(centers: &Vec<ChunkPos>, radii: &Vec<usize>) -> (r: Result<GenerationPlan, String>)
    requires
        radii@.len() > 0,
        region_refused(centers@, radii@[0] as int) || forall|s: int|
            0 <= s < radii@.len() ==> squares_fit(
                centers@,
                effective_radius((#[trigger] radii@[s]) as int),
            ),
    ensures
        region_answer(
            centers@,
            radii@[0] as int,
            match r {
                Ok(plan) => Ok(plan.region),
                Err(error) => Err(error@),
            },
        ),
        r matches Ok(plan) ==> stages_cover(
            plan.stages@,
            centers@,
            radii@,
            radii@.len() as int,
        ),
        r is Err <==> region_refused(centers@, radii@[0] as int),
{
    let region = match build_cache(centers, radii[0]) {
        Ok(region) => region,
        Err(error) => {
            return Err(error);
        },
    };
    let mut stages: Vec<Vec<ChunkPos>> = Vec::new();
    let mut status: usize = 0;
    while status < radii.len()
        invariant
            status <= radii@.len(),
            stages_cover(stages@, centers@, radii@, status as int),
            forall|s: int|
                0 <= s < radii@.len() ==> squares_fit(
                    centers@,
                    effective_radius((#[trigger] radii@[s]) as int),
                ),
        decreases radii@.len() - status,
    {
        assert(squares_fit(centers@, effective_radius(radii@[status as int] as int)));
        stages.push(positions_for_status(centers, radii[status]));
        status += 1;
    }
    Ok(GenerationPlan { region, stages })
}

/// Whatever a step reads was generated before it: where the radius of an
/// earlier status exceeds that of a later one by as much as the later step
/// reaches, every chunk within that reach of a position of the later step is a
/// position of the earlier one.
pub proof fn what_a_step_reads_is_there(
    stages: Seq<Vec<ChunkPos>>,
    centers: Seq<ChunkPos>,
    radii: Seq<usize>,
    earlier: int,
    later: int,
    reach: int,
    at: ChunkPos,
    read: ChunkPos,
)
    requires
        stages_cover(stages, centers, radii, radii.len() as int),
        0 <= earlier < radii.len(),
        0 <= later < radii.len(),
        0 <= reach,
        radii[later] + reach <= radii[earlier] <= i32::MAX,
        stages[later]@.contains(at),
        within(at, read, reach),
    ensures
        stages[earlier]@.contains(read),
{
    let i = choose|i: int|
        0 <= i < centers.len() && within(#[trigger] centers[i], at, radii[later] as int);
    assert(in_squares(
        centers,
        centers.len() as int,
        effective_radius(radii[later] as int),
        at,
    ));
    assert(within(centers[i], read, radii[earlier] as int));
    assert(in_squares(
        centers,
        centers.len() as int,
        effective_radius(radii[earlier] as int),
        read,
    ));
}

/// How a stage ended, given how many of its chunks did not complete.
pub fn stage_outcome(incomplete: usize, status: &str) -> (r: Result<(), String>)
    ensures
        match r {
            Ok(_) => incomplete == 0,
            Err(error) => incomplete > 0 && error@ == text::decimal(incomplete as nat)
                + " chunk(s) failed to reach "@ + status@,
        },
{
    if incomplete > 0 {
        let mut error = text::decimal_text(incomplete as u64);
        error.append(" chunk(s) failed to reach ");
        error.append(status);
        return Err(error);
    }
    Ok(())
}

// ---------------------------------------------------------------------------
// Starting up
// ---------------------------------------------------------------------------
/// Stack size for generation worker threads: the density functions nest deeply,
/// and host threads are typically far smaller.
pub const GENERATION_STACK_SIZE: usize = 16 * 1024 * 1024;

/// The namespace of the keys of generation worlds.
pub const WORLD_NAMESPACE: &'static str = "steel_worldgen_ffi";

/// How setting up the process-wide tables went, once that was tried.
///
/// The tables cannot be set up twice: a host that opens a second world gets what
/// the first attempt gave.
#[derive(Debug)]
pub struct RuntimeInit {
    outcome: Option<Result<(), String>>,
}

/// A result with its error as a sequence of characters.
pub open spec fn result_text(result: Result<(), String>) -> Result<(), Seq<char>> {
    match result {
        Ok(_) => Ok(()),
        Err(error) => Err(error@),
    }
}

impl RuntimeInit {
    /// What the first attempt gave, if there was one.
    pub closed spec fn settled(&self) -> Option<Result<(), Seq<char>>> {
        match self.outcome {
            None => None,
            Some(result) => Some(result_text(result)),
        }
    }

    /// Nothing was tried yet.
    pub fn new() -> (r: Self)
        ensures
            r.settled() is None,
    {
        RuntimeInit { outcome: None }
    }

    /// Whether the tables are still to be set up.
    pub fn is_pending(&self) -> (r: bool)
        ensures
            r == (self.settled() is None),
    {
        self.outcome.is_none()
    }

    /// Takes what an attempt gave and returns what the first one gave.
    pub fn init_runtime(&mut self, attempt: Result<(), String>) -> (r: Result<(), String>)
        ensures
            final(self).settled() == Some(result_text(r)),
            result_text(r) == match old(self).settled() {
                Some(first) => first,
                None => result_text(attempt),
            },
    {
        if self.outcome.is_none() {
            self.outcome = Some(attempt);
        }
        match &self.outcome {
            Some(Err(error)) => Err(error.clone()),
            _ => Ok(()),
        }
    }
}

/// What can go wrong while a world is opened.
#[derive(Debug, Clone, Copy, PartialEq, Eq, Structural)]
pub enum OpenStep {
    /// Starting the generation workers.
    Pool,
    /// Registering the built-in generators.
    BuiltinGenerators,
    /// Checking the configuration of the generator, or making it.
    Generator,
    /// Starting the runtime that drives steps.
    TokioRuntime,
    /// Building the world.
    World,
}

/// What is said of a step that failed.
pub open spec fn failure_words(step: OpenStep, generator: Seq<char>, error: Seq<char>) -> Seq<
    char,
> {
    match step {
        OpenStep::Pool => "generation pool: "@ + error,
        OpenStep::BuiltinGenerators => "built-in generators: "@ + error,
        OpenStep::Generator => "generator "@ + generator + ": "@ + error,
        OpenStep::TokioRuntime => "tokio runtime: "@ + error,
        OpenStep::World => "world: "@ + error,
    }
}

impl WorldSpec {
    /// What is said of a step that failed while this world was opened.
    pub fn open_failure(&self, step: OpenStep, error: &str) -> (r: String)
        ensures
            r@ == failure_words(step, self.generator@, error@),
    {
        let mut out = match step {
            OpenStep::Pool => "generation pool: ".to_owned(),
            OpenStep::BuiltinGenerators => "built-in generators: ".to_owned(),
            OpenStep::Generator => {
                let mut out = "generator ".to_owned();
                out.append(self.generator.as_str());
                out.append(": ");
                out
            },
            OpenStep::TokioRuntime => "tokio runtime: ".to_owned(),
            OpenStep::World => "world: ".to_owned(),
        };
        out.append(error);
        out
    }
}

// ---------------------------------------------------------------------------
// Snapshots
// ---------------------------------------------------------------------------
/// A requested chunk after generation: what it holds, if it reached the target.
#[derive(Debug)]
pub enum GeneratedChunk {
    Reached(ChunkContents),
    /// Where the chunk is, in words.
    Missing(String),
}

/// What the chunks hold.
pub open spec fn contents_of(chunks: Seq<GeneratedChunk>) -> Seq<ChunkContents> {
    Seq::new(chunks.len(), |i: int| chunks[i]->Reached_0)
}

/// The first chunk that did not reach the target.
pub open spec fn is_first_missing(chunks: Seq<GeneratedChunk>, i: int) -> bool {
    &&& 0 <= i < chunks.len()
    &&& chunks[i] is Missing
    &&& forall|k: int| 0 <= k < i ==> (#[trigger] chunks[k]) is Reached
}

/// What is said of a chunk that did not reach the target.
pub open spec fn missing_words(place: Seq<char>, target: Seq<char>) -> Seq<char> {
    "chunk "@ + place + " did not reach "@ + target
}

/// Encodes the requested chunks into a snapshot buffer.
pub fn generate_snapshot(
    chunks: Vec<GeneratedChunk>,
    target: &str,
    min_y: i32,
    names: &SnapshotNames,
) -> (r: Result<Vec<u8>, String>)
    requires
        forall|i: int|
            0 <= i < chunks@.len() && (#[trigger] chunks@[i]) is Reached
                ==> chunks@[i]->Reached_0.well_formed(),
    ensures
        forall|i: int| #[trigger]
            is_first_missing(chunks@, i) ==> (r matches Err(error) && error@ == missing_words(
                chunks@[i]->Missing_0@,
                target@,
            )),
        (forall|i: int| 0 <= i < chunks@.len() ==> (#[trigger] chunks@[i]) is Reached) ==> match r {
            Ok(bytes) => snapshot::first_fault(
                contents_of(chunks@),
                *names,
                chunks@.len() as int,
            ) is None && bytes@ == snapshot::snapshot_bytes(
                contents_of(chunks@),
                min_y as int,
                *names,
            ),
            Err(error) => {
                let fault = snapshot::first_fault(
                    contents_of(chunks@),
                    *names,
                    chunks@.len() as int,
                );
                fault is Some && error@ == fault->0.spoken()
            },
        },
{
    let ghost all = chunks@;
    let count: usize = chunks.len();
    let mut rest = chunks;
    let mut contents: Vec<ChunkContents> = Vec::new();
    let mut i: usize = 0;
    while i < count
        invariant
            i <= count,
            count == all.len(),
            all == chunks@,
            rest@.len() == count,
            forall|k: int| i <= k < count ==> rest@[k] == all[k],
            forall|k: int|
                0 <= k < count && (#[trigger] all[k]) is Reached
                    ==> all[k]->Reached_0.well_formed(),
            forall|k: int| 0 <= k < i ==> (#[trigger] all[k]) is Reached,
            contents@.len() == i,
            forall|k: int| 0 <= k < i ==> #[trigger] contents@[k] == all[k]->Reached_0,
        decreases count - i,
    {
        let mut chunk = GeneratedChunk::Missing(String::new());
        std::mem::swap(&mut rest[i], &mut chunk);
        match chunk {
            GeneratedChunk::Reached(held) => {
                contents.push(held);
            },
            GeneratedChunk::Missing(place) => {
                let mut error = "chunk ".to_owned();
                error.append(place.as_str());
                error.append(" did not reach ");
                error.append(target);
                proof {
                    assert forall|k: int| #[trigger] is_first_missing(all, k) implies k == i by {
                        if k < i {
                            assert(all[k] is Reached);
                        } else if k > i {
                            assert(all[i as int] is Reached);
                        }
                    }
                    assert(!(all[i as int] is Reached));
                }
                return Err(error);
            },
        }
        i += 1;
    }
    assert(contents@ =~= contents_of(all));
    match snapshot::encode(&contents, min_y, names) {
        Ok(bytes) => Ok(bytes),
        Err(error) => Err(error.to_string()),
    }
}

} // verus!
