//! What filling a chunk does to its blocks, one by one.

use crate::noise::noise_chunk;
use crate::noise::noise_chunk::{BlockRun, NoiseChunk, RunChoice};
use vstd::prelude::*;

verus! {

/// The run fills the block of the chunk's column at height `y`.
pub open spec fn fills(chunk: NoiseChunk, run: BlockRun, x: int, y: int, z: int) -> bool {
    run.local_x == x && run.local_z == z && run.base_y <= y < run.base_y
        + chunk.settings.cell_height
}

/// The run is that of a cell that is not left out.
pub open spec fn is_run_of(
    chunk: NoiseChunk,
    choice: RunChoice,
    run: BlockRun,
    k: int,
    cell_y: int,
) -> bool {
    &&& 0 <= cell_y < chunk.cell_count_y
    &&& !noise_chunk::is_skipped(chunk, choice, k, cell_y)
    &&& run == noise_chunk::run_of(chunk, k, cell_y, choice.beards[k])
}

/// The runs of a column are those of its cells, from the top.
proof fn lemma_column_members(
    chunk: NoiseChunk,
    choice: RunChoice,
    k: int,
    done: int,
    i: int,
) -> (cell_y: int)
    requires
        done <= chunk.cell_count_y,
        0 <= i < noise_chunk::column_runs(chunk, choice, k, done).len(),
    ensures
        chunk.cell_count_y - done <= cell_y,
        is_run_of(
            chunk,
            choice,
            noise_chunk::column_runs(chunk, choice, k, done)[i],
            k,
            cell_y,
        ),
    decreases done,
{
    let before = noise_chunk::column_runs(chunk, choice, k, done - 1);
    if i < before.len() {
        lemma_column_members(chunk, choice, k, done - 1, i)
    } else {
        chunk.cell_count_y - done
    }
}

proof fn lemma_column_order(
    chunk: NoiseChunk,
    choice: RunChoice,
    k: int,
    done: int,
    i: int,
    j: int,
) -> (cells: (int, int))
    requires
        done <= chunk.cell_count_y,
        0 <= i < j < noise_chunk::column_runs(chunk, choice, k, done).len(),
    ensures
        cells.0 > cells.1,
        is_run_of(
            chunk,
            choice,
            noise_chunk::column_runs(chunk, choice, k, done)[i],
            k,
            cells.0,
        ),
        is_run_of(
            chunk,
            choice,
            noise_chunk::column_runs(chunk, choice, k, done)[j],
            k,
            cells.1,
        ),
    decreases done,
{
    let before = noise_chunk::column_runs(chunk, choice, k, done - 1);
    if j < before.len() {
        lemma_column_order(chunk, choice, k, done - 1, i, j)
    } else {
        (lemma_column_members(chunk, choice, k, done - 1, i), chunk.cell_count_y - done)
    }
}

/// The runs of a chunk are those of its columns' cells.
proof fn lemma_chunk_members(
    chunk: NoiseChunk,
    choice: RunChoice,
    columns: int,
    i: int,
) -> (at: (int, int))
    requires
        0 <= i < noise_chunk::chunk_runs(chunk, choice, columns).len(),
    ensures
        0 <= at.0 < columns,
        is_run_of(
            chunk,
            choice,
            noise_chunk::chunk_runs(chunk, choice, columns)[i],
            at.0,
            at.1,
        ),
    decreases columns,
{
    let before = noise_chunk::chunk_runs(chunk, choice, columns - 1);
    if i < before.len() {
        lemma_chunk_members(chunk, choice, columns - 1, i)
    } else {
        let cell_y = lemma_column_members(
            chunk,
            choice,
            columns - 1,
            chunk.cell_count_y as int,
            i - before.len(),
        );
        (columns - 1, cell_y)
    }
}

/// Two runs of a chunk are those of different cells.
proof fn lemma_chunk_apart(
    chunk: NoiseChunk,
    choice: RunChoice,
    columns: int,
    i: int,
    j: int,
) -> (at: ((int, int), (int, int)))
    requires
        0 <= i < j < noise_chunk::chunk_runs(chunk, choice, columns).len(),
    ensures
        0 <= at.0.0 < columns,
        0 <= at.1.0 < columns,
        at.0 != at.1,
        is_run_of(
            chunk,
            choice,
            noise_chunk::chunk_runs(chunk, choice, columns)[i],
            at.0.0,
            at.0.1,
        ),
        is_run_of(
            chunk,
            choice,
            noise_chunk::chunk_runs(chunk, choice, columns)[j],
            at.1.0,
            at.1.1,
        ),
    decreases columns,
{
    let before = noise_chunk::chunk_runs(chunk, choice, columns - 1);
    if j < before.len() {
        lemma_chunk_apart(chunk, choice, columns - 1, i, j)
    } else if i < before.len() {
        let cell_y = lemma_column_members(
            chunk,
            choice,
            columns - 1,
            chunk.cell_count_y as int,
            j - before.len(),
        );
        (lemma_chunk_members(chunk, choice, columns - 1, i), (columns - 1, cell_y))
    } else {
        let cells = lemma_column_order(
            chunk,
            choice,
            columns - 1,
            chunk.cell_count_y as int,
            i - before.len(),
            j - before.len(),
        );
        ((columns - 1, cells.0), (columns - 1, cells.1))
    }
}

/// The cell that a height lies in, counted from the bottom.
pub open spec fn cell_at(chunk: NoiseChunk, y: int) -> int {
    y / (chunk.settings.cell_height as int) - chunk.cell_min_y
}

/// A run of a cell fills a block only if the block lies in that cell.
proof fn lemma_fills(
    chunk: NoiseChunk,
    choice: RunChoice,
    run: BlockRun,
    k: int,
    cell_y: int,
    x: int,
    y: int,
    z: int,
)
    requires
        chunk.well_formed(),
        0 <= k < chunk.columns(),
        is_run_of(chunk, choice, run, k, cell_y),
        0 <= x < chunk.cell_count_xz * chunk.settings.cell_width,
        0 <= z < chunk.cell_count_xz * chunk.settings.cell_width,
    ensures
        fills(chunk, run, x, y, z) <==> k == noise_chunk::column_number(
            x,
            z,
            chunk.cell_count_xz as int,
            chunk.settings.cell_width as int,
        ) && cell_y == cell_at(chunk, y),
{
    let cells = chunk.cell_count_xz as int;
    let width = chunk.settings.cell_width as int;
    let height = chunk.settings.cell_height as int;
    noise_chunk::a_run_reads_its_cells_corners(chunk, k, cell_y, choice.beards[k]);
    noise_chunk::every_column_is_visited_once(x, z, cells, width);
    let base = (cell_y + chunk.cell_min_y) * height;
    assert(run.base_y == base);
    let n = cell_y + chunk.cell_min_y;
    assert(base <= y < base + height <==> y / height == n) by (nonlinear_arith)
        requires
            base == n * height,
            height > 0,
    ;
}

/// Every block of the chunk's cells is filled exactly once, by one run, unless
/// its cell is left out; then no run fills it.
pub proof fn every_block_is_filled_once_or_skipped(
    chunk: NoiseChunk,
    choice: RunChoice,
    x: int,
    y: int,
    z: int,
)
    requires
        chunk.well_formed(),
        0 <= x < chunk.cell_count_xz * chunk.settings.cell_width,
        0 <= z < chunk.cell_count_xz * chunk.settings.cell_width,
        chunk.cell_min_y * chunk.settings.cell_height <= y < (chunk.cell_min_y
            + chunk.cell_count_y) * chunk.settings.cell_height,
    ensures
        ({
            let runs = noise_chunk::chunk_runs(chunk, choice, chunk.columns());
            let k = noise_chunk::column_number(
                x,
                z,
                chunk.cell_count_xz as int,
                chunk.settings.cell_width as int,
            );
            if noise_chunk::is_skipped(chunk, choice, k, cell_at(chunk, y)) {
                forall|i: int|
                    0 <= i < runs.len() ==> !fills(chunk, #[trigger] runs[i], x, y, z)
            } else {
                exists|i: int|
                    {
                        &&& 0 <= i < runs.len()
                        &&& fills(chunk, #[trigger] runs[i], x, y, z)
                        &&& forall|j: int|
                            0 <= j < runs.len() && fills(chunk, #[trigger] runs[j], x, y, z)
                                ==> j == i
                    }
            }
        }),
{
    let cells = chunk.cell_count_xz as int;
    let width = chunk.settings.cell_width as int;
    let height = chunk.settings.cell_height as int;
    let columns = chunk.columns();
    let runs = noise_chunk::chunk_runs(chunk, choice, columns);
    let k = noise_chunk::column_number(x, z, cells, width);
    let c = cell_at(chunk, y);
    noise_chunk::every_column_is_visited_once(x, z, cells, width);
    let (low, count) = (chunk.cell_min_y as int, chunk.cell_count_y as int);
    let q = y / height;
    assert(low <= q < low + count) by (nonlinear_arith)
        requires
            q == y / height,
            height > 0,
            low * height <= y,
            y < (low + count) * height,
    ;
    if noise_chunk::is_skipped(chunk, choice, k, c) {
        assert forall|i: int| 0 <= i < runs.len() implies !fills(
            chunk,
            #[trigger] runs[i],
            x,
            y,
            z,
        ) by {
            let at = lemma_chunk_members(chunk, choice, columns, i);
            lemma_fills(chunk, choice, runs[i], at.0, at.1, x, y, z);
        }
    } else {
        noise_chunk::every_cell_is_filled_or_skipped(chunk, choice, columns, k, c);
        let wanted = noise_chunk::run_of(chunk, k, c, choice.beards[k]);
        let i = choose|i: int| 0 <= i < runs.len() && runs[i] == wanted;
        lemma_fills(chunk, choice, wanted, k, c, x, y, z);
        assert(fills(chunk, runs[i], x, y, z));
        assert forall|j: int|
            0 <= j < runs.len() && fills(chunk, #[trigger] runs[j], x, y, z) implies j == i by {
            if j != i {
                let at = if i < j {
                    lemma_chunk_apart(chunk, choice, columns, i, j)
                } else {
                    lemma_chunk_apart(chunk, choice, columns, j, i)
                };
                let (a, b) = if i < j {
                    (i, j)
                } else {
                    (j, i)
                };
                lemma_fills(chunk, choice, runs[a], at.0.0, at.0.1, x, y, z);
                lemma_fills(chunk, choice, runs[b], at.1.0, at.1.1, x, y, z);
            }
        }
    }
}

} // verus!
