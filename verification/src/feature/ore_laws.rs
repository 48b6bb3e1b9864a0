//! What a vein of ore promises: which spheres it keeps, which blocks it tries,
//! and what replaces them.

use crate::feature::ore;
use crate::feature::ore::{
    OreBox, OreNode, OreOverlaps, OreReach, OreSearchVolume, OreSpan, ResolvedOreRuleTest,
    ResolvedOreTargets,
};
use crate::pos::BlockPos;
use crate::small;
use vstd::prelude::*;

verus! {

// ---------------------------------------------------------------------------
// Spheres
// ---------------------------------------------------------------------------
/// One sphere lies within another.
pub type Within = spec_fn(int, int) -> bool;

/// The overlaps are those of spheres that lie within each other as given: of a
/// pair one of which lies within the other, the first lies within the second
/// unless it is the larger.
pub open spec fn describes(overlaps: OreOverlaps, within: Within) -> bool {
    &&& forall|n: int| #[trigger] within(n, n)
    &&& forall|a: int, b: int, c: int| #[trigger]
        within(a, b) && #[trigger] within(b, c) ==> within(a, c)
    &&& forall|i: int, j: int|
        0 <= i < j < overlaps.count && #[trigger] overlaps.swallows(i, j) ==> if overlaps.larger@[i
            * overlaps.count + j] {
            within(j, i)
        } else {
            within(i, j)
        }
}

/// The sphere lies within one that is there.
pub open spec fn held(n: int, there: Seq<bool>, within: Within) -> bool {
    exists|k: int| 0 <= k < there.len() && there[k] && #[trigger] within(n, k)
}

proof fn lemma_pair_holds(
    overlaps: OreOverlaps,
    there: Seq<bool>,
    within: Within,
    i: int,
    j: int,
    n: int,
)
    requires
        describes(overlaps, within),
        there.len() == overlaps.count,
        0 <= i < j < overlaps.count,
        held(n, there, within),
    ensures
        held(n, overlaps.after_pair(there, i, j), within),
        overlaps.after_pair(there, i, j).len() == there.len(),
{
    let now = overlaps.after_pair(there, i, j);
    let k = choose|k: int| 0 <= k < there.len() && there[k] && #[trigger] within(n, k);
    if now[k] {
        assert(within(n, k));
    } else if k == j {
        assert(within(j, i));
        assert(within(n, i));
        assert(now[i]);
    } else {
        assert(within(i, j));
        assert(within(n, j));
        assert(now[j]);
    }
}

proof fn lemma_row_holds(
    overlaps: OreOverlaps,
    there: Seq<bool>,
    within: Within,
    i: int,
    j: int,
    n: int,
)
    requires
        describes(overlaps, within),
        there.len() == overlaps.count,
        0 <= i < overlaps.count,
        j <= overlaps.count,
        held(n, there, within),
    ensures
        held(n, overlaps.after_row(there, i, j), within),
        overlaps.after_row(there, i, j).len() == there.len(),
    decreases j,
{
    if j > i + 1 {
        lemma_row_holds(overlaps, there, within, i, j - 1, n);
        lemma_pair_holds(overlaps, overlaps.after_row(there, i, j - 1), within, i, j - 1, n);
    }
}

proof fn lemma_rows_hold(overlaps: OreOverlaps, there: Seq<bool>, within: Within, i: int, n: int)
    requires
        describes(overlaps, within),
        there.len() == overlaps.count,
        0 <= i <= overlaps.count,
        held(n, there, within),
    ensures
        held(n, overlaps.after_rows(there, i), within),
        overlaps.after_rows(there, i).len() == there.len(),
    decreases i,
{
    if i > 0 {
        lemma_rows_hold(overlaps, there, within, i - 1, n);
        lemma_row_holds(
            overlaps,
            overlaps.after_rows(there, i - 1),
            within,
            i - 1,
            overlaps.count as int,
            n,
        );
    }
}

/// What thinning leaves holds every sphere that was there: each lies within one
/// that is left.
pub proof fn thinning_loses_no_space(
    overlaps: OreOverlaps,
    there: Seq<bool>,
    within: Within,
    n: int,
)
    requires
        describes(overlaps, within),
        there.len() == overlaps.count,
        0 <= n < there.len(),
        there[n],
    ensures
        ({
            let left = overlaps.after_rows(there, overlaps.count as int);
            &&& left.len() == there.len()
            &&& exists|k: int| 0 <= k < left.len() && left[k] && #[trigger] within(n, k)
        }),
{
    assert(within(n, n));
    assert(held(n, there, within));
    lemma_rows_hold(overlaps, there, within, overlaps.count as int, n);
}

/// The pair is the only one of which one sphere lies within the other.
pub open spec fn only_pair(overlaps: OreOverlaps, i: int, j: int) -> bool {
    forall|a: int, b: int|
        0 <= a < b < overlaps.count && !(a == i && b == j) ==> !#[trigger] overlaps.swallows(a, b)
}

proof fn lemma_row_alone(overlaps: OreOverlaps, there: Seq<bool>, i: int, j: int, a: int, b: int)
    requires
        only_pair(overlaps, i, j),
        0 <= i < j < overlaps.count,
        there.len() == overlaps.count,
        0 <= a < overlaps.count,
        b <= overlaps.count,
    ensures
        overlaps.after_row(there, a, b) == if a == i && b > j {
            overlaps.after_pair(there, i, j)
        } else {
            there
        },
    decreases b,
{
    if b > a + 1 {
        lemma_row_alone(overlaps, there, i, j, a, b - 1);
    }
}

proof fn lemma_rows_alone(overlaps: OreOverlaps, there: Seq<bool>, i: int, j: int, a: int)
    requires
        only_pair(overlaps, i, j),
        0 <= i < j < overlaps.count,
        there.len() == overlaps.count,
        0 <= a <= overlaps.count,
    ensures
        overlaps.after_rows(there, a) == if a > i {
            overlaps.after_pair(there, i, j)
        } else {
            there
        },
    decreases a,
{
    if a > 0 {
        lemma_rows_alone(overlaps, there, i, j, a - 1);
        lemma_row_alone(
            overlaps,
            overlaps.after_rows(there, a - 1),
            i,
            j,
            a - 1,
            overlaps.count as int,
        );
    }
}

/// Of two spheres that are there, one within the other and no others so, the
/// first is left exactly if it is the larger, the second exactly if the first is
/// not; the others stay as they are.
pub proof fn of_two_the_larger_is_left(
    overlaps: OreOverlaps,
    there: Seq<bool>,
    i: int,
    j: int,
    n: int,
)
    requires
        there.len() == overlaps.count,
        0 <= i < j < overlaps.count,
        there[i],
        there[j],
        overlaps.swallowed@[i * overlaps.count + j],
        only_pair(overlaps, i, j),
        0 <= n < overlaps.count,
    ensures
        ({
            let left = overlaps.after_rows(there, overlaps.count as int);
            &&& left[i] == overlaps.larger@[i * overlaps.count + j]
            &&& left[j] == !overlaps.larger@[i * overlaps.count + j]
            &&& n != i && n != j ==> left[n] == there[n]
        }),
{
    lemma_rows_alone(overlaps, there, i, j, overlaps.count as int);
}

/// The sphere lies within no other, and no other within it.
pub open spec fn stands_apart(overlaps: OreOverlaps, n: int) -> bool {
    forall|a: int, b: int|
        0 <= a < b < overlaps.count && (a == n || b == n) ==> !#[trigger] overlaps.swallows(a, b)
}

proof fn lemma_row_keeps(overlaps: OreOverlaps, there: Seq<bool>, i: int, j: int, n: int)
    requires
        stands_apart(overlaps, n),
        there.len() == overlaps.count,
        0 <= i < overlaps.count,
        j <= overlaps.count,
        0 <= n < overlaps.count,
    ensures
        overlaps.after_row(there, i, j).len() == there.len(),
        overlaps.after_row(there, i, j)[n] == there[n],
    decreases j,
{
    if j > i + 1 {
        lemma_row_keeps(overlaps, there, i, j - 1, n);
    }
}

/// A sphere that lies within no other and holds no other stays.
pub proof fn a_sphere_apart_stays(overlaps: OreOverlaps, there: Seq<bool>, i: int, n: int)
    requires
        stands_apart(overlaps, n),
        there.len() == overlaps.count,
        0 <= i <= overlaps.count,
        0 <= n < overlaps.count,
    ensures
        overlaps.after_rows(there, i).len() == there.len(),
        overlaps.after_rows(there, i)[n] == there[n],
    decreases i,
{
    if i > 0 {
        a_sphere_apart_stays(overlaps, there, i - 1, n);
        lemma_row_keeps(
            overlaps,
            overlaps.after_rows(there, i - 1),
            i - 1,
            overlaps.count as int,
            n,
        );
    }
}

// ---------------------------------------------------------------------------
// Numbers, sections and places
// ---------------------------------------------------------------------------
/// The positions of a box have different numbers, all below the box's count, and
/// the next position along x has the next number.
pub proof fn positions_of_a_box_have_their_own_numbers(
    volume: OreSearchVolume,
    wide: int,
    tall: int,
    a: (int, int, int),
    b: (int, int, int),
)
    requires
        wide > 0,
        tall > 0,
        volume.size_xz == wide,
        volume.size_xz_y == wide * tall,
        volume.tested_position_count == wide * tall * wide,
        0 <= a.0 < wide,
        0 <= a.1 < tall,
        0 <= a.2 < wide,
        0 <= b.0 < wide,
        0 <= b.1 < tall,
        0 <= b.2 < wide,
    ensures
        ore::numbered(volume, a.0, a.1, a.2) matches Some(number) && number
            < volume.tested_position_count,
        ore::numbered(volume, a.0, a.1, a.2) == ore::numbered(volume, b.0, b.1, b.2) <==> a == b,
        a.0 + 1 < wide ==> ore::numbered(volume, a.0 + 1, a.1, a.2)->0 == ore::numbered(
            volume,
            a.0,
            a.1,
            a.2,
        )->0 + 1,
{
    let layer = wide * tall;
    let (p, q) = (a.0 + a.1 * wide, b.0 + b.1 * wide);
    assert(0 <= p < layer && 0 <= q < layer) by (nonlinear_arith)
        requires
            p == a.0 + a.1 * wide,
            q == b.0 + b.1 * wide,
            layer == wide * tall,
            0 <= a.0 < wide,
            0 <= a.1 < tall,
            0 <= b.0 < wide,
            0 <= b.1 < tall,
    ;
    assert(0 <= p + a.2 * layer < layer * wide && 0 <= q + b.2 * layer < layer * wide)
        by (nonlinear_arith)
        requires
            0 <= p < layer,
            0 <= q < layer,
            0 <= a.2 < wide,
            0 <= b.2 < wide,
    ;
    if p + a.2 * layer == q + b.2 * layer {
        assert(a.2 == b.2) by (nonlinear_arith)
            requires
                p + a.2 * layer == q + b.2 * layer,
                0 <= p < layer,
                0 <= q < layer,
        ;
        assert(a.1 == b.1) by (nonlinear_arith)
            requires
                a.0 + a.1 * wide == b.0 + b.1 * wide,
                0 <= a.0 < wide,
                0 <= b.0 < wide,
        ;
    }
    if a.0 + 1 < wide {
        let p1 = a.0 + 1 + a.1 * wide;
        assert(0 <= p1 < layer) by (nonlinear_arith)
            requires
                p1 == a.0 + 1 + a.1 * wide,
                layer == wide * tall,
                0 <= a.0 + 1 < wide,
                0 <= a.1 < tall,
        ;
        assert(0 <= p1 + a.2 * layer < layer * wide) by (nonlinear_arith)
            requires
                0 <= p1 < layer,
                0 <= a.2 < wide,
        ;
    }
}

/// A position can be read back from its section and its place there: sixteen
/// blocks to a section along each axis, x in the lowest four bits of the place,
/// then z, then the height.
pub proof fn a_position_reads_back_from_its_section(min_y: int, at: BlockPos)
    requires
        min_y % 16 == 0,
        min_y <= at.y,
        at.y - min_y <= i32::MAX,
    ensures
        ({
            let key = ore::section_key(min_y, at);
            let place = ore::packed_place(at) as int;
            &&& 0 <= place < 4096
            &&& key.chunk_x * 16 + place % 16 == at.x
            &&& key.chunk_z * 16 + place / 16 % 16 == at.z
            &&& min_y + key.section_index * 16 + place / 256 == at.y
        }),
{
}

// ---------------------------------------------------------------------------
// Targets
// ---------------------------------------------------------------------------
/// The blocks that a target replaces.
pub open spec fn replaces_block(test: ResolvedOreRuleTest, block: usize) -> bool {
    match test {
        ResolvedOreRuleTest::Block(id) => id == block,
        ResolvedOreRuleTest::Tag(list) => exists|k: int|
            0 <= k < small::ids(list).len() && #[trigger] small::ids(list)[k] == block,
    }
}

proof fn lemma_first_match(targets: ResolvedOreTargets, block: usize, from: int)
    requires
        0 <= from <= targets.targets@.len(),
    ensures
        match ore::first_match(targets.targets@, block, from) {
            Some(i) => {
                &&& from <= i < targets.targets@.len()
                &&& targets.targets@[i].matches(block)
                &&& forall|j: int|
                    from <= j < i ==> !(#[trigger] targets.targets@[j]).matches(block)
            },
            None => forall|j: int|
                from <= j < targets.targets@.len() ==> !(#[trigger] targets.targets@[j]).matches(
                    block,
                ),
        },
    decreases targets.targets@.len() - from,
{
    if from < targets.targets@.len() && !targets.targets@[from].matches(block) {
        lemma_first_match(targets, block, from + 1);
    }
}

/// A block becomes the state of the first target that names it, by itself or
/// through a tag; a block that none names stays.
pub proof fn the_first_target_that_names_a_block_replaces_it(
    targets: ResolvedOreTargets,
    blocks: Seq<usize>,
    state: u16,
    n: int,
)
    requires
        state < blocks.len(),
        0 <= n < targets.targets@.len(),
        forall|j: int|
            0 <= j < n ==> !replaces_block(
                (#[trigger] targets.targets@[j]).matcher,
                blocks[state as int],
            ),
    ensures
        replaces_block(targets.targets@[n].matcher, blocks[state as int])
            ==> targets.replacement_of(blocks, state) == Some(targets.targets@[n].state),
        n == targets.targets@.len() - 1 && !replaces_block(
            targets.targets@[n].matcher,
            blocks[state as int],
        ) ==> targets.replacement_of(blocks, state) is None,
{
    let block = blocks[state as int];
    lemma_first_match(targets, block, 0);
    assert forall|j: int| 0 <= j < targets.targets@.len() implies (
    #[trigger] targets.targets@[j]).matches(block) == replaces_block(
        targets.targets@[j].matcher,
        block,
    ) by {
        match targets.targets@[j].matcher {
            ResolvedOreRuleTest::Tag(list) => {
                if small::ids(list).contains(block) {
                    let k = choose|k: int|
                        0 <= k < small::ids(list).len() && small::ids(list)[k] == block;
                    assert(small::ids(list)[k] == block);
                }
            },
            _ => {},
        }
    }
}

// ---------------------------------------------------------------------------
// Blocks of a sphere
// ---------------------------------------------------------------------------
/// The mask's bit is set.
pub open spec fn bit_set(mask: u64, at: int) -> bool {
    mask >> (at as u64) & 1 == 1
}

proof fn lemma_bit(mask: u64, at: u64)
    by (bit_vector)
    requires
        at < 64,
    ensures
        (mask & (1u64 << at) != 0) == (mask >> at & 1 == 1),
{
}

/// The positions of a row are those whose bit is not set, each once, in
/// ascending order.
pub proof fn a_row_holds_what_is_not_rejected(z_min: int, rejected: Seq<u64>, n: int, z: int)
    requires
        0 <= n,
    ensures
        ore::row_positions(z_min, rejected, n).contains(z) <==> 0 <= z - z_min < n && !bit_set(
            rejected[(z - z_min) / 8],
            (z - z_min) % 8,
        ),
        forall|i: int, j: int|
            0 <= i < j < ore::row_positions(z_min, rejected, n).len() ==> (
            #[trigger] ore::row_positions(z_min, rejected, n)[i]) < (#[trigger] ore::row_positions(
                z_min,
                rejected,
                n,
            )[j]),
        forall|i: int|
            0 <= i < ore::row_positions(z_min, rejected, n).len() ==> z_min <= (
            #[trigger] ore::row_positions(z_min, rejected, n)[i]) < z_min + n,
    decreases n,
{
    let now = ore::row_positions(z_min, rejected, n);
    if n > 0 {
        a_row_holds_what_is_not_rejected(z_min, rejected, n - 1, z);
        let before = ore::row_positions(z_min, rejected, n - 1);
        let last = z_min + n - 1;
        lemma_bit(rejected[(n - 1) / 8], ((n - 1) % 8) as u64);
        assert forall|i: int| 0 <= i < before.len() implies #[trigger] now[i] == before[i] by {}
        if before.contains(z) {
            let k = choose|k: int| 0 <= k < before.len() && before[k] == z;
            assert(now[k] == z);
        }
        if now.contains(z) {
            let k = choose|k: int| 0 <= k < now.len() && now[k] == z;
            if k < before.len() {
                assert(before[k] == z);
            } else {
                assert(z == last);
            }
        }
        if z == last && !bit_set(rejected[(z - z_min) / 8], (z - z_min) % 8) {
            assert(now[before.len() as int] == z);
        }
    }
}

/// The blocks that can be tried of a sphere are those of its reach that lie in
/// the box and in the world.
pub proof fn a_span_is_the_reach_within_box_and_world(
    span: OreSpan,
    reach: OreReach,
    start: BlockPos,
    min_y: int,
    height: int,
    at: BlockPos,
)
    requires
        ore::spans(span, reach, start, min_y, height),
        reach.x_low <= reach.x_high,
        reach.y_low <= reach.y_high,
        reach.z_low <= reach.z_high,
        start.x <= reach.x_high,
        start.y <= reach.y_high,
        start.z <= reach.z_high,
    ensures
        (span.x_min <= at.x <= span.x_max) <==> reach.x_low <= at.x <= reach.x_high && at.x
            >= start.x,
        (span.z_min <= at.z <= span.z_max) <==> reach.z_low <= at.z <= reach.z_high && at.z
            >= start.z,
        (span.y_min <= at.y <= span.y_max) <==> reach.y_low <= at.y <= reach.y_high && at.y
            >= start.y && min_y <= at.y < min_y + height,
{
}

/// The sphere accepts a block: it lies in the span, and its row does not reject
/// it.
pub open spec fn accepts(node: OreNode, at: BlockPos) -> bool {
    &&& node.span.x_min <= at.x <= node.span.x_max
    &&& node.span.y_min <= at.y <= node.span.y_max
    &&& node.span.z_min <= at.z <= node.span.z_max
    &&& node.rows@[(at.x - node.span.x_min) * (node.span.y_max - node.span.y_min + 1) + (at.y
        - node.span.y_min)] matches Some(rejected) && !bit_set(
        rejected@[(at.z - node.span.z_min) / 8],
        (at.z - node.span.z_min) % 8,
    )
}

proof fn lemma_row(node: OreNode, r: int, at: BlockPos)
    requires
        node.well_formed(),
        0 <= r < node.rows@.len(),
    ensures
        node.row_candidates(r).contains(at) <==> accepts(node, at) && r == (at.x
            - node.span.x_min) * node.tall() + (at.y - node.span.y_min),
{
    let tall = node.tall();
    let wide = node.span.x_max - node.span.x_min + 1;
    let (qx, qy) = (r / tall, r % tall);
    assert(0 <= qx < wide && 0 <= qy < tall && r == qx * tall + qy) by (nonlinear_arith)
        requires
            0 <= r < wide * tall,
            tall > 0,
            qx == r / tall,
            qy == r % tall,
    ;
    let (dx, dy) = (at.x - node.span.x_min, at.y - node.span.y_min);
    if 0 <= dy < tall && r == dx * tall + dy {
        assert(dx == qx && dy == qy) by (nonlinear_arith)
            requires
                qx * tall + qy == dx * tall + dy,
                0 <= qy < tall,
                0 <= dy < tall,
        ;
    }
    match node.rows@[r] {
        None => {},
        Some(rejected) => {
            let n = node.span.z_max - node.span.z_min + 1;
            let zs = ore::row_positions(node.span.z_min as int, rejected@, n);
            let list = node.row_candidates(r);
            a_row_holds_what_is_not_rejected(node.span.z_min as int, rejected@, n, at.z as int);
            if list.contains(at) {
                let k = choose|k: int| 0 <= k < list.len() && list[k] == at;
                assert(node.span.z_min <= zs[k] < node.span.z_min + n);
                assert(zs[k] == at.z);
                assert(zs.contains(at.z as int));
            }
            if accepts(node, at) && r == dx * tall + dy {
                assert(zs.contains(at.z as int));
                let k = choose|k: int| 0 <= k < zs.len() && zs[k] == at.z;
                assert(list[k] == at);
            }
        },
    }
}

/// The candidates of a sphere are the blocks that it accepts.
pub proof fn the_candidates_are_what_the_sphere_accepts(node: OreNode, rows: int, at: BlockPos)
    requires
        node.well_formed(),
        0 <= rows <= node.rows@.len(),
    ensures
        node.candidates(rows).contains(at) <==> accepts(node, at) && (at.x - node.span.x_min)
            * node.tall() + (at.y - node.span.y_min) < rows,
    decreases rows,
{
    if rows > 0 {
        the_candidates_are_what_the_sphere_accepts(node, rows - 1, at);
        lemma_row(node, rows - 1, at);
        let before = node.candidates(rows - 1);
        let row = node.row_candidates(rows - 1);
        let now = node.candidates(rows);
        if before.contains(at) {
            let k = choose|k: int| 0 <= k < before.len() && before[k] == at;
            assert(now[k] == at);
        }
        if row.contains(at) {
            let k = choose|k: int| 0 <= k < row.len() && row[k] == at;
            assert(now[before.len() + k] == at);
        }
        if now.contains(at) {
            let k = choose|k: int| 0 <= k < now.len() && now[k] == at;
            if k < before.len() {
                assert(before[k] == at);
            } else {
                assert(row[k - before.len()] == at);
            }
        }
    } else if accepts(node, at) {
        let (dx, dy, tall) = (at.x - node.span.x_min, at.y - node.span.y_min, node.tall());
        assert(dx * tall + dy >= 0) by (nonlinear_arith)
            requires
                dx >= 0,
                dy >= 0,
                tall >= 0,
        ;
    }
}

/// The candidates of a vein are the blocks that one of its spheres accepts.
pub proof fn a_vein_tries_what_its_spheres_accept(nodes: Seq<OreNode>, n: int, at: BlockPos)
    requires
        0 <= n <= nodes.len(),
        forall|i: int| 0 <= i < nodes.len() ==> (#[trigger] nodes[i]).well_formed(),
    ensures
        ore::vein_candidates(nodes, n).contains(at) <==> exists|i: int|
            0 <= i < n && accepts(#[trigger] nodes[i], at),
    decreases n,
{
    let now = ore::vein_candidates(nodes, n);
    if n > 0 {
        a_vein_tries_what_its_spheres_accept(nodes, n - 1, at);
        let node = nodes[n - 1];
        let before = ore::vein_candidates(nodes, n - 1);
        let own = node.candidates(node.rows@.len() as int);
        the_candidates_are_what_the_sphere_accepts(node, node.rows@.len() as int, at);
        if accepts(node, at) {
            let (dx, dy) = (at.x - node.span.x_min, at.y - node.span.y_min);
            let (wide, tall) = (node.span.x_max - node.span.x_min + 1, node.tall());
            assert(dx * tall + dy < wide * tall) by (nonlinear_arith)
                requires
                    0 <= dx < wide,
                    0 <= dy < tall,
            ;
            let k = choose|k: int| 0 <= k < own.len() && own[k] == at;
            assert(now[before.len() + k] == at);
        }
        if before.contains(at) {
            let k = choose|k: int| 0 <= k < before.len() && before[k] == at;
            assert(now[k] == at);
        }
        if now.contains(at) {
            let k = choose|k: int| 0 <= k < now.len() && now[k] == at;
            if k < before.len() {
                assert(before[k] == at);
            } else {
                assert(own[k - before.len()] == at);
            }
        }
    }
}

// ---------------------------------------------------------------------------
// The box of a vein
// ---------------------------------------------------------------------------
/// A vein's box lies evenly around its origin: as far as the vein spreads and its
/// spheres reach to each side, and two blocks and a radius up and down.
pub proof fn the_box_lies_evenly_around_the_origin(
    found: OreBox,
    origin: BlockPos,
    spread: i32,
    radius: i32,
)
    requires
        ore::is_ore_box(found, origin, spread, radius),
    ensures
        origin.x - found.start.x == found.start.x + found.size_xz - origin.x == spread + radius,
        origin.z - found.start.z == found.start.z + found.size_xz - origin.z == spread + radius,
        origin.y - found.start.y == found.start.y + found.size_y - origin.y == radius + 2,
{
}

/// A box is above the ground exactly if every column under it is lower than its
/// bottom.
pub proof fn a_box_reaches_the_ground_unless_all_columns_are_lower(
    found: OreBox,
    height: spec_fn(int, int) -> int,
)
    ensures
        !ore::reaches(found, height) <==> forall|x: int, z: int|
            found.start.x <= x <= found.start.x + found.size_xz && found.start.z <= z
                <= found.start.z + found.size_xz ==> #[trigger] height(x, z) < found.start.y,
{
    if ore::reaches(found, height) {
        let (x, z) = choose|x: int, z: int| #[trigger]
            found.covers(x, z) && found.start.y <= height(x, z);
        assert(height(x, z) >= found.start.y);
    } else {
        assert forall|x: int, z: int|
            found.start.x <= x <= found.start.x + found.size_xz && found.start.z <= z
                <= found.start.z + found.size_xz implies #[trigger] height(x, z)
            < found.start.y by {
            assert(found.covers(x, z));
        }
    }
}

/// A probed chunk's columns are those of the box that lie in that chunk.
pub proof fn a_probe_covers_the_box_within_its_chunk(found: OreBox, k: int, x: i32, z: i32)
    requires
        found.well_formed(),
        0 <= k < found.chunks_x() * found.chunks_z(),
    ensures
        ({
            let probe = found.probe(k);
            (probe.x_low <= x <= probe.x_high && probe.z_low <= z <= probe.z_high) <==> (
            found.start.x <= x <= found.start.x + found.size_xz && found.start.z <= z
                <= found.start.z + found.size_xz && x as int / 16 == probe.chunk_x && z as int / 16
                == probe.chunk_z)
        }),
{
    let (wide, deep) = (found.chunks_x(), found.chunks_z());
    assert(deep > 0);
    assert(0 <= k / deep < wide && 0 <= k % deep < deep) by (nonlinear_arith)
        requires
            0 <= k < wide * deep,
            deep > 0,
    ;
}

/// A rule for one block matches that block alone, and one for a tag the blocks
/// of the tag.
pub proof fn a_rule_matches_what_it_names(rule: ore::OreRule, block_id: usize)
    ensures
        rule is BlockMatch ==> (ore::rule_matches(rule, block_id) <==> block_id
            == rule->BlockMatch_0),
        rule is TagMatch ==> (ore::rule_matches(rule, block_id) <==> exists|i: int|
            0 <= i < rule->TagMatch_0@.len() && rule->TagMatch_0@[i] == block_id),
{
}

/// A probed chunk covers its columns up to and including those at its ends.
pub proof fn a_probed_chunk_covers_its_ends(chunk: ore::ProbeChunk, x: int, z: int)
    requires
        chunk.x_low <= chunk.x_high,
        chunk.z_low <= chunk.z_high,
    ensures
        chunk.covers(chunk.x_low as int, chunk.z_low as int),
        chunk.covers(chunk.x_high as int, chunk.z_high as int),
        chunk.covers(x, z) ==> chunk.x_low - 1 < x < chunk.x_high + 1 && chunk.z_low - 1 < z
            < chunk.z_high + 1,
{
}

/// The heights of a box's columns are listed along z within each x, from its
/// start.
pub proof fn heights_are_listed_along_z(found: OreBox, heights: Seq<i32>, i: int, j: int)
    ensures
        (found.column_heights(heights))(found.start.x + i, found.start.z + j) == heights[i * (
        found.size_xz + 1) + j],
        found.covers(found.start.x + i, found.start.z + j) <==> 0 <= i <= found.size_xz && 0 <= j
            <= found.size_xz,
{
}

} // verus!
