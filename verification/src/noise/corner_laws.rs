//! Where in the world the densities of a chunk are sampled, and which of them a
//! block is interpolated from.

use crate::noise::noise_chunk;
use crate::noise::noise_chunk::{BlockRun, NoiseChunk, NoiseSettings, RunChoice, SliceCall};
use vstd::prelude::*;

verus! {

/// A corner that is evaluated: where its column stands, and its place in the
/// column.
#[verifier::ext_equal]
pub struct Sample {
    pub block_x: int,
    pub block_z: int,
    pub y_corner: int,
}

/// The corners that one call evaluates, in order.
pub open spec fn samples_of(call: SliceCall) -> Seq<Sample> {
    match call {
        SliceCall::Column { .. } => Seq::empty(),
        SliceCall::Wide { block_x, block_z, first } => Seq::new(
            8,
            |lane: int|
                Sample {
                    block_x: block_x as int,
                    block_z: block_z as int,
                    y_corner: first + lane,
                },
        ),
        SliceCall::Single { block_x, block_z, corner } => seq![
            Sample { block_x: block_x as int, block_z: block_z as int, y_corner: corner as int },
        ],
    }
}

/// The corners that some calls evaluate, in order.
pub open spec fn samples(calls: Seq<SliceCall>) -> Seq<Sample>
    decreases calls.len(),
{
    if calls.len() == 0 {
        Seq::empty()
    } else {
        samples(calls.drop_last()) + samples_of(calls.last())
    }
}

proof fn lemma_samples_joined(a: Seq<SliceCall>, b: Seq<SliceCall>)
    ensures
        samples(a + b) == samples(a) + samples(b),
    decreases b.len(),
{
    if b.len() == 0 {
        assert(a + b =~= a);
    } else {
        assert((a + b).drop_last() =~= a + b.drop_last());
        assert((a + b).last() == b.last());
        lemma_samples_joined(a, b.drop_last());
        assert(samples(a + b) =~= samples(a) + samples(b));
    }
}

/// The corners of one column, from the bottom.
pub open spec fn column_samples(block_x: int, block_z: int, corners: int) -> Seq<Sample> {
    Seq::new(corners as nat, |y: int| Sample { block_x, block_z, y_corner: y })
}

proof fn lemma_wide(
    block_x: i32,
    block_z: i32,
    blended_len: usize,
    corners_y: int,
    n: int,
)
    requires
        0 <= corners_y <= noise_chunk::MAX_SLICE_LEN,
        0 <= n <= corners_y / 8 + corners_y % 8,
    ensures
        ({
            let calls = noise_chunk::column_calls(block_x, block_z, blended_len, corners_y);
            let wide = corners_y / 8;
            samples(calls.subrange(0, 1 + n)) == column_samples(
                block_x as int,
                block_z as int,
                if n <= wide {
                    8 * n
                } else {
                    8 * wide + (n - wide)
                },
            )
        }),
    decreases n,
{
    let calls = noise_chunk::column_calls(block_x, block_z, blended_len, corners_y);
    let wide = corners_y / 8;
    let now = calls.subrange(0, 1 + n);
    if n == 0 {
        assert(now.drop_last() =~= Seq::<SliceCall>::empty());
        assert(now.last() == SliceCall::Column { block_x, block_z, blended_len });
        reveal_with_fuel(samples, 2);
        assert(samples(now) =~= column_samples(block_x as int, block_z as int, 0));
    } else {
        lemma_wide(block_x, block_z, blended_len, corners_y, n - 1);
        assert(now.drop_last() =~= calls.subrange(0, n));
        if n <= wide {
            assert(now.last() == SliceCall::Wide {
                block_x,
                block_z,
                first: (8 * (n - 1)) as usize,
            });
            assert(samples(now) =~= column_samples(block_x as int, block_z as int, 8 * n));
        } else {
            assert(now.last() == SliceCall::Single {
                block_x,
                block_z,
                corner: (8 * wide + (n - 1 - wide)) as usize,
            });
            assert(samples(now) =~= column_samples(
                block_x as int,
                block_z as int,
                8 * wide + (n - wide),
            ));
        }
    }
}

proof fn lemma_column_samples(block_x: i32, block_z: i32, blended_len: usize, corners_y: int)
    requires
        0 <= corners_y <= noise_chunk::MAX_SLICE_LEN,
    ensures
        samples(noise_chunk::column_calls(block_x, block_z, blended_len, corners_y))
            == column_samples(block_x as int, block_z as int, corners_y),
{
    let calls = noise_chunk::column_calls(block_x, block_z, blended_len, corners_y);
    let n = corners_y / 8 + corners_y % 8;
    lemma_wide(block_x, block_z, blended_len, corners_y, n);
    assert(calls.subrange(0, 1 + n) =~= calls);
}

proof fn lemma_boundaries(chunk: NoiseChunk, n: int)
    requires
        chunk.well_formed(),
        0 <= n <= chunk.cell_count_xz,
    ensures
        i32::MIN <= (chunk.first_cell_x + n) * chunk.settings.cell_width <= i32::MAX,
        i32::MIN <= (chunk.first_cell_z + n) * chunk.settings.cell_width <= i32::MAX,
        chunk.corners_y <= noise_chunk::MAX_SLICE_LEN,
{
    let (x, z, w, c) = (
        chunk.first_cell_x as int,
        chunk.first_cell_z as int,
        chunk.settings.cell_width as int,
        chunk.cell_count_xz as int,
    );
    assert(x * w <= (x + n) * w <= (x + c) * w && z * w <= (z + n) * w <= (z + c) * w)
        by (nonlinear_arith)
        requires
            0 <= n <= c,
            w > 0,
    ;
    let corners = chunk.corners_y as int;
    assert(corners <= 256) by (nonlinear_arith)
        requires
            (c + 1) * corners <= 256,
            c >= 0,
            corners >= 0,
    ;
}

proof fn lemma_slice_samples(chunk: NoiseChunk, cx: int, blended_len: usize, columns: int)
    requires
        chunk.well_formed(),
        0 <= cx <= chunk.cell_count_xz,
        0 <= columns <= chunk.cell_count_xz + 1,
    ensures
        ({
            let taken = samples(noise_chunk::slice_calls_of(chunk, cx, blended_len, columns));
            &&& taken.len() == columns * chunk.corners_y
            &&& forall|cz: int, cy: int|
                0 <= cz < columns && 0 <= cy < chunk.corners_y ==> (#[trigger] taken[cz
                    * chunk.corners_y + cy]) == (Sample {
                    block_x: (chunk.first_cell_x + cx) * chunk.settings.cell_width,
                    block_z: (chunk.first_cell_z + cz) * chunk.settings.cell_width,
                    y_corner: cy,
                })
        }),
    decreases columns,
{
    let corners = chunk.corners_y as int;
    let w = chunk.settings.cell_width as int;
    if columns > 0 {
        let last = columns - 1;
        lemma_slice_samples(chunk, cx, blended_len, last);
        lemma_boundaries(chunk, cx);
        lemma_boundaries(chunk, last);
        let before = noise_chunk::slice_calls_of(chunk, cx, blended_len, last);
        let x = ((chunk.first_cell_x + cx) * w) as i32;
        let z = ((chunk.first_cell_z + last) * w) as i32;
        let column = noise_chunk::column_calls(x, z, blended_len, corners);
        assert(noise_chunk::slice_calls_of(chunk, cx, blended_len, columns) == before + column);
        lemma_samples_joined(before, column);
        lemma_column_samples(x, z, blended_len, corners);
        let taken = samples(before + column);
        assert(last * corners + corners == columns * corners) by (nonlinear_arith)
            requires
                last == columns - 1,
        ;
        assert forall|cz: int, cy: int|
            0 <= cz < columns && 0 <= cy < corners implies (#[trigger] taken[cz * corners + cy])
            == (Sample {
            block_x: (chunk.first_cell_x + cx) * w,
            block_z: (chunk.first_cell_z + cz) * w,
            y_corner: cy,
        }) by {
            if cz < last {
                assert(0 <= cz * corners + cy < last * corners) by (nonlinear_arith)
                    requires
                        0 <= cz < last,
                        0 <= cy < corners,
                ;
                assert(taken[cz * corners + cy] == samples(before)[cz * corners + cy]);
            } else {
                assert(taken[cz * corners + cy] == column_samples(x as int, z as int, corners)[cy]);
            }
        }
    } else {
        assert(0 * corners == 0);
    }
}

/// A slice samples every corner of its plane once, column by column along z and
/// from the bottom of each column up, each at its own place in the world: the
/// number of a sample is the place at which its density is stored.
pub proof fn a_slice_samples_each_corner_at_its_own_place(
    chunk: NoiseChunk,
    cx: int,
    blended_len: usize,
    cz: int,
    cy: int,
)
    requires
        chunk.well_formed(),
        0 <= cx <= chunk.cell_count_xz,
        0 <= cz <= chunk.cell_count_xz,
        0 <= cy < chunk.corners_y,
    ensures
        ({
            let taken = samples(
                noise_chunk::slice_calls_of(chunk, cx, blended_len, chunk.z_corners()),
            );
            let sample = taken[cz * chunk.corners_y + cy];
            &&& taken.len() == (chunk.cell_count_xz + 1) * chunk.corners_y
            &&& 0 <= cz * chunk.corners_y + cy < taken.len()
            &&& sample.block_x == (chunk.first_cell_x + cx) * chunk.settings.cell_width
            &&& sample.block_z == (chunk.first_cell_z + cz) * chunk.settings.cell_width
            &&& sample.y_corner == cy
        }),
{
    lemma_slice_samples(chunk, cx, blended_len, chunk.cell_count_xz + 1);
    let corners = chunk.corners_y as int;
    let n = chunk.cell_count_xz + 1;
    assert(0 <= cz * corners + cy < n * corners) by (nonlinear_arith)
        requires
            0 <= cz < n,
            0 <= cy < corners,
    ;
    let taken = samples(noise_chunk::slice_calls_of(chunk, cx, blended_len, chunk.z_corners()));
    assert(taken[cz * chunk.corners_y + cy].y_corner == cy);
}

/// Next to each other in a slice, corner columns stand one cell apart; and so do
/// the same columns of neighbouring slices.
pub proof fn neighbouring_corners_stand_one_cell_apart(
    chunk: NoiseChunk,
    cx: int,
    blended_len: usize,
    cz: int,
    cy: int,
)
    requires
        chunk.well_formed(),
        0 <= cx < chunk.cell_count_xz,
        0 <= cz < chunk.cell_count_xz,
        0 <= cy < chunk.corners_y,
    ensures
        ({
            let near = samples(
                noise_chunk::slice_calls_of(chunk, cx, blended_len, chunk.z_corners()),
            );
            let far = samples(
                noise_chunk::slice_calls_of(chunk, cx + 1, blended_len, chunk.z_corners()),
            );
            let here = cz * chunk.corners_y + cy;
            let there = (cz + 1) * chunk.corners_y + cy;
            &&& near[there].block_z - near[here].block_z == chunk.settings.cell_width
            &&& near[there].block_x == near[here].block_x
            &&& far[here].block_x - near[here].block_x == chunk.settings.cell_width
            &&& far[here].block_z == near[here].block_z
        }),
{
    a_slice_samples_each_corner_at_its_own_place(chunk, cx, blended_len, cz, cy);
    a_slice_samples_each_corner_at_its_own_place(chunk, cx, blended_len, cz + 1, cy);
    a_slice_samples_each_corner_at_its_own_place(chunk, cx + 1, blended_len, cz, cy);
    let w = chunk.settings.cell_width as int;
    let (x, z) = (chunk.first_cell_x + cx, chunk.first_cell_z + cz);
    assert((x + 1) * w == x * w + w && (z + 1) * w == z * w + w) by (nonlinear_arith);
}

/// The calls of a slice come column by column; each column starts by turning to
/// its own place, with the same share of blended noise.
pub proof fn a_slice_turns_to_each_of_its_columns(
    chunk: NoiseChunk,
    cx: int,
    blended_len: usize,
    columns: int,
    cz: int,
)
    requires
        chunk.well_formed(),
        0 <= cx <= chunk.cell_count_xz,
        0 <= cz < columns <= chunk.cell_count_xz + 1,
    ensures
        ({
            let calls = noise_chunk::slice_calls_of(chunk, cx, blended_len, columns);
            let each = 1 + chunk.corners_y as int / 8 + chunk.corners_y as int % 8;
            &&& calls.len() == columns * each
            &&& calls[cz * each] matches SliceCall::Column { block_x, block_z, blended_len: len }
                && block_x == (chunk.first_cell_x + cx) * chunk.settings.cell_width && block_z == (
            chunk.first_cell_z + cz) * chunk.settings.cell_width && len == blended_len
        }),
    decreases columns,
{
    let corners = chunk.corners_y as int;
    let each = 1 + corners / 8 + corners % 8;
    let last = columns - 1;
    lemma_boundaries(chunk, cx);
    lemma_boundaries(chunk, last);
    let before = noise_chunk::slice_calls_of(chunk, cx, blended_len, last);
    let x = ((chunk.first_cell_x + cx) * chunk.settings.cell_width) as i32;
    let z = ((chunk.first_cell_z + last) * chunk.settings.cell_width) as i32;
    let column = noise_chunk::column_calls(x, z, blended_len, corners);
    assert(last * each + each == columns * each) by (nonlinear_arith)
        requires
            last == columns - 1,
    ;
    if last > 0 {
        a_slice_turns_to_each_of_its_columns(
            chunk,
            cx,
            blended_len,
            last,
            if cz < last {
                cz
            } else {
                0
            },
        );
    } else {
        assert(0 * each == 0);
    }
    assert(column.len() == each);
    assert(column[0] == SliceCall::Column { block_x: x, block_z: z, blended_len });
    if cz < last {
        assert(0 <= cz * each < last * each) by (nonlinear_arith)
            requires
                0 <= cz < last,
                each > 0,
        ;
        assert((before + column)[cz * each] == before[cz * each]);
    } else {
        assert((before + column)[cz * each] == column[0]);
    }
}

/// Where the cells divide a chunk, the first corner stands at the chunk's own
/// northwest block and the last one at that of the next chunk.
pub proof fn the_corners_span_the_chunk(
    settings: NoiseSettings,
    chunk: NoiseChunk,
    chunk_min_block: i32,
)
    requires
        chunk.well_formed(),
        chunk.settings == settings,
        settings.cell_width == 1 || settings.cell_width == 2 || settings.cell_width == 4
            || settings.cell_width == 8 || settings.cell_width == 16,
        chunk_min_block as int % 16 == 0,
        chunk.first_cell_z == chunk_min_block as int / settings.cell_width as int,
    ensures
        (chunk.first_cell_z + 0) * settings.cell_width == chunk_min_block,
        (chunk.first_cell_z + chunk.cell_count_xz) * settings.cell_width == chunk_min_block + 16,
        chunk.cell_count_xz * settings.cell_width == 16,
{
    let (b, w) = (chunk_min_block as int, settings.cell_width as int);
    let (f, c) = (chunk.first_cell_z as int, chunk.cell_count_xz as int);
    assert(f * w == b && c * w == 16 && (f + c) * w == b + 16) by (nonlinear_arith)
        requires
            f == b / w,
            c == 16int / w,
            b % 16 == 0,
            w == 1 || w == 2 || w == 4 || w == 8 || w == 16,
    ;
}

/// The heights of the corners: one cell apart, the lowest at or just below the
/// bottom of the world.
pub proof fn the_corners_climb_by_cells(chunk: NoiseChunk, cy: int)
    requires
        chunk.well_formed(),
        0 <= cy < chunk.cell_count_y,
    ensures
        chunk.block_ys@[cy + 1] - chunk.block_ys@[cy] == chunk.settings.cell_height,
        chunk.block_ys@[0] <= chunk.settings.min_y,
        chunk.settings.min_y < chunk.block_ys@[0] + chunk.settings.cell_height,
        chunk.settings.height % chunk.settings.cell_height == 0 ==> chunk.cell_count_y
            * chunk.settings.cell_height == chunk.settings.height,
{
    let h = chunk.settings.cell_height as int;
    let m = chunk.settings.min_y as int;
    let f = chunk.cell_min_y as int;
    assert(chunk.block_ys@[cy] == (cy + f) * h);
    assert(chunk.block_ys@[cy + 1] == (cy + 1 + f) * h);
    assert(chunk.block_ys@[0] == (0 + f) * h);
    assert((cy + 1 + f) * h == (cy + f) * h + h) by (nonlinear_arith);
    assert(f * h <= m < f * h + h) by (nonlinear_arith)
        requires
            f == m / h,
            h > 0,
    ;
    let (n, t) = (chunk.cell_count_y as int, chunk.settings.height as int);
    assert(t % h == 0 && t >= 0 && n == t / h ==> n * h == t) by (nonlinear_arith)
        requires
            h > 0,
    ;
    assert(chunk.settings.height >= 0);
}

/// A block is interpolated from the corners around it: the run's near corner was
/// sampled at the lower end of its cell along x and z, the far one a cell
/// farther along z, and the corners of the next slice a cell farther along x.
pub proof fn a_run_interpolates_between_the_corners_around_it(
    chunk: NoiseChunk,
    k: int,
    cell_y: int,
    beard: bool,
    blended_len: usize,
)
    requires
        chunk.well_formed(),
        0 <= k < chunk.columns(),
        0 <= cell_y < chunk.cell_count_y,
    ensures
        ({
            let run = noise_chunk::run_of(chunk, k, cell_y, beard);
            let low = samples(
                noise_chunk::slice_calls_of(
                    chunk,
                    run.slice as int,
                    blended_len,
                    chunk.z_corners(),
                ),
            );
            let high = samples(
                noise_chunk::slice_calls_of(
                    chunk,
                    run.slice + 1,
                    blended_len,
                    chunk.z_corners(),
                ),
            );
            let near = run.near as int / 8;
            let far = run.far as int / 8;
            let width = chunk.settings.cell_width;
            &&& run.near % 8 == 0
            &&& run.far % 8 == 0
            &&& low[near].block_x + run.x_in_cell == run.world_x
            &&& low[near].block_z + run.z_in_cell == run.world_z
            &&& 0 <= run.x_in_cell < width
            &&& 0 <= run.z_in_cell < width
            &&& low[far].block_x == low[near].block_x
            &&& low[far].block_z == low[near].block_z + width
            &&& high[near].block_x == low[near].block_x + width
            &&& high[near].block_z == low[near].block_z
            &&& high[far].block_x == high[near].block_x
            &&& high[far].block_z == low[far].block_z
            &&& low[near].y_corner == low[far].y_corner == high[near].y_corner
                == high[far].y_corner == cell_y
            &&& run.base_y == chunk.block_ys@[cell_y]
            &&& run.world_x - run.local_x == chunk.first_cell_x * width
            &&& run.world_z - run.local_z == chunk.first_cell_z * width
        }),
{
    noise_chunk::a_run_reads_its_cells_corners(chunk, k, cell_y, beard);
    let run = noise_chunk::run_of(chunk, k, cell_y, beard);
    let cells = chunk.cell_count_xz as int;
    let width = chunk.settings.cell_width as int;
    let cz = noise_chunk::column_cell_z(k, cells, width);
    let corners = chunk.corners_y as int;
    assert(cells > 0) by (nonlinear_arith)
        requires
            0 <= k < cells * width * (cells * width),
            cells >= 0,
    ;
    let b = k / width / width;
    assert(cz == b % cells);
    assert(0 <= cz < cells);
    assert(run.near as int / 8 == cz * corners + cell_y);
    assert(run.far as int / 8 == (cz + 1) * corners + cell_y);
    let sx = run.slice as int;
    a_slice_samples_each_corner_at_its_own_place(chunk, sx, blended_len, cz, cell_y);
    a_slice_samples_each_corner_at_its_own_place(chunk, sx, blended_len, cz + 1, cell_y);
    a_slice_samples_each_corner_at_its_own_place(chunk, sx + 1, blended_len, cz, cell_y);
    a_slice_samples_each_corner_at_its_own_place(chunk, sx + 1, blended_len, cz + 1, cell_y);
    let (x, z) = (chunk.first_cell_x + sx, chunk.first_cell_z + cz);
    assert((x + 1) * width == x * width + width && (z + 1) * width == z * width + width)
        by (nonlinear_arith);
    let (fx, fz) = (chunk.first_cell_x as int, chunk.first_cell_z as int);
    assert((fx + sx) * width == fx * width + sx * width) by (nonlinear_arith);
    assert((fz + cz) * width == fz * width + cz * width) by (nonlinear_arith);
    let cx = noise_chunk::column_cell_x(k, cells, width);
    let z0 = noise_chunk::column_z(k, cells, width);
    assert(run.local_z == z0 == cz * width + run.z_in_cell);
    assert(0 <= k / width && 0 <= b) by (nonlinear_arith)
        requires
            b == k / width / width,
            0 <= k,
            width > 0,
    ;
    assert(0 <= cx) by (nonlinear_arith)
        requires
            cx == b / cells,
            0 <= b,
            cells > 0,
    ;
    assert(run.local_x == noise_chunk::column_x(k, cells, width) == cx * width + run.x_in_cell);
    assert(run.world_x == (chunk.first_cell_x + run.slice) * width + run.x_in_cell);
    assert(cx < cells) by {
        let x0 = run.local_x as int;
        assert(b < cells * cells) by (nonlinear_arith)
            requires
                b == k / width / width,
                0 <= k < cells * width * (cells * width),
                width > 0,
                cells > 0,
        ;
        assert(cx < cells) by (nonlinear_arith)
            requires
                cx == b / cells,
                b < cells * cells,
                cells > 0,
        ;
    }
    assert(sx == cx);
}

/// A cell's blocks are left out exactly where all of this holds: the density
/// follows the channel, the channel is nowhere positive in the cell, no beard
/// reaches the column, and nothing but air is placed from the cell's bottom on.
pub proof fn a_cell_is_left_out_only_where_it_is_air(
    chunk: NoiseChunk,
    choice: RunChoice,
    k: int,
    cell_y: int,
)
    requires
        chunk.well_formed(),
        0 <= cell_y < chunk.cell_count_y,
    ensures
        choice.beards[k] ==> !noise_chunk::is_skipped(chunk, choice, k, cell_y),
        !choice.follows_channel ==> !noise_chunk::is_skipped(chunk, choice, k, cell_y),
        choice.air_only_above_y is None ==> !noise_chunk::is_skipped(chunk, choice, k, cell_y),
        !choice.quiet[k * chunk.cell_count_y + cell_y] ==> !noise_chunk::is_skipped(
            chunk,
            choice,
            k,
            cell_y,
        ),
        choice.air_only_above_y is Some && chunk.block_ys@[cell_y] < choice.air_only_above_y->0
            ==> !noise_chunk::is_skipped(chunk, choice, k, cell_y),
        !choice.beards[k] && choice.follows_channel && choice.quiet[k * chunk.cell_count_y
            + cell_y] && choice.air_only_above_y is Some && chunk.block_ys@[cell_y]
            >= choice.air_only_above_y->0 ==> noise_chunk::is_skipped(chunk, choice, k, cell_y),
{
    assert(chunk.block_ys@[cell_y] == (cell_y + chunk.cell_min_y) * chunk.settings.cell_height);
}

/// The cells of a column below the topmost `done` that are not left out.
pub open spec fn kept_cells(chunk: NoiseChunk, choice: RunChoice, k: int, done: int) -> int
    decreases done,
{
    if done <= 0 {
        0
    } else {
        kept_cells(chunk, choice, k, done - 1) + if noise_chunk::is_skipped(
            chunk,
            choice,
            k,
            chunk.cell_count_y - done,
        ) {
            0int
        } else {
            1
        }
    }
}

/// A column is filled from the top down: one run for each cell that is not left
/// out, each below the one before, all in that column.
pub proof fn a_column_is_filled_from_the_top_down(
    chunk: NoiseChunk,
    choice: RunChoice,
    k: int,
    done: int,
)
    requires
        chunk.well_formed(),
        0 <= k < chunk.columns(),
        0 <= done <= chunk.cell_count_y,
    ensures
        ({
            let runs = noise_chunk::column_runs(chunk, choice, k, done);
            &&& runs.len() == kept_cells(chunk, choice, k, done)
            &&& forall|i: int|
                0 <= i < runs.len() ==> (#[trigger] runs[i]).base_y >= (chunk.cell_count_y - done
                    + chunk.cell_min_y) * chunk.settings.cell_height && runs[i].beard
                    == choice.beards[k]
            &&& forall|i: int, j: int|
                0 <= i < j < runs.len() ==> (#[trigger] runs[j]).base_y < (
                #[trigger] runs[i]).base_y && runs[j].local_x == runs[i].local_x && runs[j].local_z
                    == runs[i].local_z
        }),
    decreases done,
{
    if done > 0 {
        a_column_is_filled_from_the_top_down(chunk, choice, k, done - 1);
        let before = noise_chunk::column_runs(chunk, choice, k, done - 1);
        let cell_y = chunk.cell_count_y - done;
        let runs = noise_chunk::column_runs(chunk, choice, k, done);
        let h = chunk.settings.cell_height as int;
        let (a, b) = (cell_y + chunk.cell_min_y, cell_y + 1 + chunk.cell_min_y);
        assert(a * h < b * h) by (nonlinear_arith)
            requires
                a < b,
                h > 0,
        ;
        noise_chunk::a_run_reads_its_cells_corners(chunk, k, cell_y, choice.beards[k]);
        assert(chunk.block_ys@[cell_y] == (cell_y + chunk.cell_min_y) * h);
        lemma_same_column(chunk, choice, k, done - 1);
        if !noise_chunk::is_skipped(chunk, choice, k, cell_y) {
            assert forall|i: int, j: int| 0 <= i < j < runs.len() implies (
            #[trigger] runs[j]).base_y < (#[trigger] runs[i]).base_y && runs[j].local_x
                == runs[i].local_x && runs[j].local_z == runs[i].local_z by {
                assert(runs[i] == before[i]);
                if j < before.len() {
                    assert(runs[j] == before[j]);
                }
            }
            assert forall|i: int| 0 <= i < runs.len() implies (#[trigger] runs[i]).base_y >= a * h
                && runs[i].beard == choice.beards[k] by {
                if i < before.len() {
                    assert(runs[i] == before[i]);
                }
            }
        }
    }
}

proof fn lemma_same_column(chunk: NoiseChunk, choice: RunChoice, k: int, done: int)
    ensures
        forall|i: int|
            0 <= i < noise_chunk::column_runs(chunk, choice, k, done).len() ==> {
                let run: BlockRun = #[trigger] noise_chunk::column_runs(
                    chunk,
                    choice,
                    k,
                    done,
                )[i];
                let other = noise_chunk::run_of(chunk, k, 0, true);
                run.local_x == other.local_x && run.local_z == other.local_z
            },
    decreases done,
{
    if done > 0 {
        lemma_same_column(chunk, choice, k, done - 1);
        let before = noise_chunk::column_runs(chunk, choice, k, done - 1);
        let runs = noise_chunk::column_runs(chunk, choice, k, done);
        assert forall|i: int| 0 <= i < runs.len() implies {
            let run: BlockRun = #[trigger] runs[i];
            let other = noise_chunk::run_of(chunk, k, 0, true);
            run.local_x == other.local_x && run.local_z == other.local_z
        } by {
            if i < before.len() {
                assert(runs[i] == before[i]);
            }
        }
    }
}

/// A cell may be left out exactly where the density follows its channel, no
/// beard reaches it, and it starts at or above the level from which there is
/// only air.
pub proof fn cells_of_air_may_be_left_out(
    base_y: int,
    beard: bool,
    level: i32,
    follows_channel: bool,
)
    ensures
        noise_chunk::may_skip_run(base_y, beard, Some(level), follows_channel) <==> follows_channel
            && !beard && base_y + 1 > level,
        !noise_chunk::may_skip_run(base_y, beard, None, follows_channel),
{
}

} // verus!
