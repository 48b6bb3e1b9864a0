//! Cell corners, filling order and the surface-level cache.

use std::collections::BTreeSet;

use steel::density::bounds::blended_noise_irrelevant_at_or_above_y;
use steel::density::functions::{DensityFunction, DensityRegistry, TwoArgType};
use steel::noise::noise_chunk::{
    blended_column_len, NoiseChunk, NoiseSettings, SliceCall, DENSITY_LANES, MAX_INTERP,
};
use steel::noise::prelim_surface_cache::{PrelimSurfaceCache, SHARDS, SHARD_CAPACITY};

const OVERWORLD: NoiseSettings =
    NoiseSettings { cell_width: 4, cell_height: 8, min_y: -64, height: 384 };

/// The cell-corner Y values of a column.
fn block_ys(min_y: i32, height: i32, cell_height: i32) -> Vec<i32> {
    let cell_min_y = min_y.div_euclid(cell_height);
    let corners_y = (height / cell_height) as usize + 1;
    (0..corners_y).map(|cy| (cy as i32 + cell_min_y) * cell_height).collect()
}

fn pair(op: TwoArgType, a: DensityFunction, b: DensityFunction) -> DensityFunction {
    DensityFunction::TwoArgumentSimple {
        op,
        argument1: Box::new(a),
        argument2: Box::new(b),
        nonzero1: op == TwoArgType::Add,
        nonzero2: false,
    }
}

fn gradient(from_y: i32, to_y: i32, from_value: f64, to_value: f64) -> DensityFunction {
    DensityFunction::YClampedGradient {
        from_y,
        to_y,
        from_value: from_value.to_bits(),
        to_value: to_value.to_bits(),
    }
}

fn constant(value: f64) -> DensityFunction {
    DensityFunction::Constant { value: value.to_bits() }
}

/// The overworld's top slide: a gradient from one to zero over the blended
/// noise, with a constant added.
fn slid() -> DensityFunction {
    pair(
        TwoArgType::Add,
        constant(-0.078125),
        pair(TwoArgType::Mul, gradient(240, 256, 1.0, 0.0), DensityFunction::BlendedNoise),
    )
}

fn threshold(function: DensityFunction) -> Option<i32> {
    blended_noise_irrelevant_at_or_above_y(&[function], &DensityRegistry { entries: vec![] })
}

#[test]
fn overworld_corner_geometry_puts_the_top_slide_at_corner_40() {
    let chunk = NoiseChunk::new(OVERWORLD, 2, 48, -80);
    let ys = block_ys(OVERWORLD.min_y, OVERWORLD.height, OVERWORLD.cell_height);

    assert_eq!(chunk.block_ys, ys);
    assert_eq!(ys.len(), 49, "corners_y");
    assert_eq!(ys[40], 256, "block_ys[40]");
    assert_eq!(*ys.first().unwrap(), -64);
    assert_eq!(*ys.last().unwrap(), 320);
}

#[test]
fn overworld_threshold_truncates_to_forty_corners() {
    let threshold = threshold(slid());
    assert_eq!(threshold, Some(256));

    let ys = block_ys(OVERWORLD.min_y, OVERWORLD.height, OVERWORLD.cell_height);
    let len = blended_column_len(threshold, &ys, ys.len());

    assert_eq!(len, 40);
    // Every skipped corner is at or above the threshold, so its top slide
    // is exactly zero and the blended noise there cannot reach the output.
    assert!(ys[len..].iter().all(|&y| y >= 256));
    // The last computed corner is still below it, so nothing live is lost.
    assert!(ys[len - 1] < 256);
    assert_eq!(len % DENSITY_LANES, 0);
}

#[test]
fn none_threshold_keeps_the_whole_column() {
    for (min_y, height, cell_height) in [(-64, 384, 8), (0, 128, 8), (0, 128, 4)] {
        let ys = block_ys(min_y, height, cell_height);
        assert_eq!(
            blended_column_len(None, &ys, ys.len()),
            ys.len(),
            "None must not truncate ({min_y}, {height}, {cell_height})"
        );
    }
}

#[test]
fn untouched_tail_stays_zero() {
    let ys = block_ys(-64, 384, 8);
    let corners_y = ys.len();
    let len = blended_column_len(Some(256), &ys, corners_y);

    let mut column = vec![0.0f64; corners_y];
    for (i, slot) in column[..len].iter_mut().enumerate() {
        *slot = i as f64 + 1.0;
    }

    assert_eq!(column.len(), corners_y, "buffer must stay full length");
    assert!(
        column[len..].iter().all(|&v| v == 0.0),
        "tail must stay 0.0 for the corner loops to read"
    );
    for (i, slot) in column[..len].iter_mut().enumerate() {
        *slot = i as f64 + 100.0;
    }
    assert!(column[len..].iter().all(|&v| v == 0.0));
}

#[test]
fn every_dimension_threshold_is_consistent_with_its_geometry() {
    for (threshold, min_y, height, cell_height) in
        [(Some(256), -64, 384, 8), (None, 0, 128, 8), (None, 0, 128, 4), (Some(1000), 0, 128, 4)]
    {
        let ys = block_ys(min_y, height, cell_height);
        let len = blended_column_len(threshold, &ys, ys.len());
        assert!(len <= ys.len(), "cannot exceed the column");
        match threshold {
            None => assert_eq!(len, ys.len(), "None must keep the full column"),
            Some(threshold) => {
                assert!(ys[len..].iter().all(|&y| y >= threshold));
                assert!(ys[..len].iter().all(|&y| y < threshold));
            }
        }
    }
}

#[test]
fn live_noise_has_no_threshold() {
    // Never annihilated; annihilated below rather than above; and a negative
    // zero that is not absorbed.
    assert_eq!(threshold(DensityFunction::BlendedNoise), None);
    let below = pair(
        TwoArgType::Mul,
        gradient(-64, -40, 0.0, 1.0),
        DensityFunction::BlendedNoise,
    );
    assert_eq!(threshold(below), None);
    let bare =
        pair(TwoArgType::Mul, gradient(240, 256, 1.0, 0.0), DensityFunction::BlendedNoise);
    assert_eq!(threshold(bare), None);
    // No blended noise at all puts no constraint on the column.
    assert_eq!(threshold(constant(1.0)), None);
}

#[test]
fn the_highest_threshold_counts() {
    let other = pair(
        TwoArgType::Add,
        constant(1.0),
        pair(TwoArgType::Mul, gradient(100, 300, 1.0, 0.0), DensityFunction::BlendedNoise),
    );
    assert_eq!(
        blended_noise_irrelevant_at_or_above_y(
            &[slid(), other, constant(0.0)],
            &DensityRegistry { entries: vec![] }
        ),
        Some(300)
    );
}

#[test]
fn a_slice_is_filled_corner_by_corner() {
    let chunk = NoiseChunk::new(OVERWORLD, 1, 48, -80);
    assert_eq!((chunk.first_cell_x, chunk.first_cell_z), (12, -20));
    let calls = chunk.slice_calls(1, 40);
    assert_eq!(calls[0], SliceCall::Column { block_x: 52, block_z: -80, blended_len: 40 });
    assert_eq!(calls[1], SliceCall::Wide { block_x: 52, block_z: -80, first: 0 });
    // Forty-nine corners: six wide calls and one single.
    assert_eq!(calls[7], SliceCall::Single { block_x: 52, block_z: -80, corner: 48 });
    assert_eq!(calls.len(), 5 * 8);
}

#[test]
fn densities_are_stored_by_corner_and_channel() {
    let mut chunk = NoiseChunk::new(OVERWORLD, 2, 0, 0);
    let densities: Vec<u64> = (0..5 * 49 * 2).map(|i| i as u64 + 1).collect();
    chunk.fill_slice_into(3, &densities);
    assert_eq!(chunk.slices[3][0], 1);
    assert_eq!(chunk.slices[3][1], 2);
    assert_eq!(chunk.slices[3][2], 0);
    assert_eq!(chunk.slices[3][10 * MAX_INTERP + 1], 22);
    assert!(chunk.slices[0].iter().all(|&bits| bits == 0));
}

#[test]
fn every_block_is_in_one_run() {
    let chunk = NoiseChunk::new(OVERWORLD, 1, 16, -32);
    let runs = chunk.fill(&vec![false; 256], &vec![false; 256 * 48], None, true);
    assert_eq!(runs.len(), 256 * 48);
    let cells: BTreeSet<(usize, usize, i32)> =
        runs.iter().map(|run| (run.local_x, run.local_z, run.base_y)).collect();
    assert_eq!(cells.len(), 256 * 48);
    assert_eq!(runs[0].base_y, 312, "a column starts at the top");
    assert!(runs.iter().all(|run| run.world_x == 16 + run.local_x as i32));
    assert!(runs.iter().all(|run| run.world_z == -32 + run.local_z as i32));
    // Eight blocks to a run, and each block of the chunk in one of them.
    let blocks: BTreeSet<(i32, i32, i32)> = runs
        .iter()
        .flat_map(|run| (0..8).map(|dy| (run.world_x, run.base_y + dy, run.world_z)))
        .collect();
    assert_eq!(blocks.len(), 16 * 16 * 384);
    assert_eq!(blocks.first(), Some(&(16, -64, -32)));
    assert_eq!(blocks.last(), Some(&(31, 319, -17)));
}

#[test]
fn only_quiet_cells_above_the_level_are_skipped() {
    let chunk = NoiseChunk::new(OVERWORLD, 1, 0, 0);
    let quiet = vec![true; 256 * 48];
    let mut beards = vec![false; 256];
    beards[7] = true;
    let runs = chunk.fill(&beards, &quiet, Some(64), true);
    // Below the level nothing is skipped, nor in the bearded column.
    assert_eq!(runs.iter().filter(|run| run.base_y < 64).count(), 256 * 16);
    assert_eq!(runs.iter().filter(|run| run.base_y >= 64).count(), 32);
    assert_eq!(chunk.fill(&beards, &quiet, Some(64), false).len(), 256 * 48);
    assert!(chunk.may_skip(16, false, Some(64), true));
    assert!(!chunk.may_skip(15, false, Some(64), true));
    assert_eq!(chunk.run_at(0, 47, true).base_y, 312);
}

#[test]
fn a_recorded_level_reads_back() {
    let mut cache = PrelimSurfaceCache::new();
    assert_eq!(cache.get(4, -8), None);
    cache.insert(4, -8, 71);
    assert_eq!(cache.get(4, -8), Some(71));
    // A different column is a miss, not a neighbour's value.
    assert_eq!(cache.get(8, -8), None);
    assert_eq!(cache.get(4, -4), None);
}

#[test]
fn shards_spread_a_row_of_columns() {
    let used: BTreeSet<usize> =
        (0..64).map(|x| PrelimSurfaceCache::shard_of(x * 4, 0)).collect();
    assert!(
        used.len() > 32,
        "a row of 64 columns should not pile onto {} shards",
        used.len()
    );
}

#[test]
fn a_full_shard_is_cleared_rather_than_grown() {
    let mut cache = PrelimSurfaceCache::new();
    for i in 0..(SHARDS * SHARD_CAPACITY * 2) as i32 {
        cache.insert(i, 0, i);
    }
    let total: usize = (0..SHARDS).map(|shard| cache.shard_len(shard)).sum();
    assert!(
        total <= SHARDS * SHARD_CAPACITY,
        "cache grew past its bound: {total} entries"
    );
    let last = (SHARDS * SHARD_CAPACITY * 2) as i32 - 1;
    assert_eq!(cache.get(last, 0), Some(last));
}
