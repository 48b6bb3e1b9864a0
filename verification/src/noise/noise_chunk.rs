//! Cell-based terrain density evaluation: which cell corners are sampled, where
//! their channel values are kept, and which corners and blocks an
//! interpolation run reads and fills.
//!
//! Each interpolated channel is evaluated at the corners of a grid of cells;
//! what lies between is interpolated block by block. Channel values are held
//! as the bit patterns of the numbers they are.

use vstd::prelude::*;

use crate::pos::floor_div;

verus! {

/// Interpolation channels a slice reserves per cell corner.
pub const MAX_INTERP: usize = 8;

/// Maximum slice length (corners along z times corners along y).
pub const MAX_SLICE_LEN: usize = 256;

/// How many values a slice holds.
pub const SLICE_VALUES: usize = 2048;

/// Corners that one wide evaluation covers.
pub const DENSITY_LANES: usize = 8;

/// The shape of a dimension's cells and column.
#[derive(Debug, Clone, Copy)]
pub struct NoiseSettings {
    pub cell_width: i32,
    pub cell_height: i32,
    pub min_y: i32,
    pub height: i32,
}

impl NoiseSettings {
    /// Cells along x and along z.
    pub open spec fn cells_xz(&self) -> int {
        16int / self.cell_width as int
    }

    /// Cells along y.
    pub open spec fn cells_y(&self) -> int {
        if self.height >= 0 {
            self.height as int / self.cell_height as int
        } else {
            0
        }
    }

    /// The settings describe cells that a slice has room for.
    pub open spec fn well_formed(&self) -> bool {
        &&& self.cell_width > 0
        &&& self.cell_height > 0
        &&& self.height > -self.cell_height
        &&& (self.cells_xz() + 1) * (self.cells_y() + 1) <= MAX_SLICE_LEN
        &&& i32::MIN <= self.min_y as int / self.cell_height as int * self.cell_height
        &&& (self.min_y as int / self.cell_height as int + self.cells_y()) * self.cell_height
            <= i32::MAX
    }
}

/// The cells from a block on fit the range of block coordinates.
pub open spec fn cells_fit(settings: NoiseSettings, min_block: i32) -> bool {
    let first = min_block as int / settings.cell_width as int;
    &&& i32::MIN <= first * settings.cell_width
    &&& (first + settings.cells_xz()) * settings.cell_width <= i32::MAX
}

/// How many leading entries of the blended-noise column have to be computed:
/// those below the threshold, or all if there is none.
pub fn blended_column_len(threshold: Option<i32>, block_ys: &[i32], corners_y: usize) -> (r: usize)
    requires
        forall|i: int, j: int| 0 <= i <= j < block_ys@.len() ==> block_ys@[i] <= block_ys@[j],
    ensures
        match threshold {
            None => r == corners_y,
            Some(threshold) => {
                &&& r <= block_ys@.len()
                &&& forall|i: int| 0 <= i < r ==> block_ys@[i] < threshold
                &&& forall|i: int| r <= i < block_ys@.len() ==> block_ys@[i] >= threshold
            },
        },
{
    match threshold {
        None => corners_y,
        Some(threshold) => {
            let mut low: usize = 0;
            let mut high: usize = block_ys.len();
            while low < high
                invariant
                    low <= high <= block_ys@.len(),
                    forall|i: int, j: int|
                        0 <= i <= j < block_ys@.len() ==> block_ys@[i] <= block_ys@[j],
                    forall|i: int| 0 <= i < low ==> block_ys@[i] < threshold,
                    forall|i: int| high <= i < block_ys@.len() ==> block_ys@[i] >= threshold,
                decreases high - low,
            {
                let middle: usize = low + (high - low) / 2;
                if block_ys[middle] < threshold {
                    low = middle + 1;
                } else {
                    high = middle;
                }
            }
            low
        },
    }
}

/// Density values at the cell corners of one chunk.
///
/// `slices[cx][corner * MAX_INTERP + channel]` holds the bits of a channel's
/// value, where `corner = z_corner * corners_y + y_corner`.
pub struct NoiseChunk {
    pub settings: NoiseSettings,
    pub slices: Vec<Vec<u64>>,
    pub interp_count: usize,
    pub corners_y: usize,
    pub block_ys: Vec<i32>,
    pub first_cell_x: i32,
    pub first_cell_z: i32,
    pub cell_min_y: i32,
    pub cell_count_y: usize,
    pub cell_count_xz: usize,
}

/// A call that fills part of a slice: what is computed outside, in order.
#[derive(Debug, Clone, Copy, PartialEq, Eq)]
pub enum SliceCall {
    /// Turn to a column and compute its blended noise below `blended_len`.
    Column { block_x: i32, block_z: i32, blended_len: usize },
    /// Evaluate the corners from `first` on, one per lane.
    Wide { block_x: i32, block_z: i32, first: usize },
    /// Evaluate one corner.
    Single { block_x: i32, block_z: i32, corner: usize },
}

/// The calls that fill one column of corners.
pub open spec fn column_calls(
    block_x: i32,
    block_z: i32,
    blended_len: usize,
    corners_y: int,
) -> Seq<SliceCall> {
    let wide = corners_y / 8;
    seq![SliceCall::Column { block_x, block_z, blended_len }] + Seq::new(
        wide as nat,
        |k: int| SliceCall::Wide { block_x, block_z, first: (8 * k) as usize },
    ) + Seq::new(
        (corners_y % 8) as nat,
        |k: int| SliceCall::Single { block_x, block_z, corner: (8 * wide + k) as usize },
    )
}

/// The call evaluates the corner.
pub open spec fn call_covers(call: SliceCall, corner: int) -> bool {
    match call {
        SliceCall::Column { .. } => false,
        SliceCall::Wide { first, .. } => first <= corner < first + DENSITY_LANES,
        SliceCall::Single { corner: at, .. } => corner == at,
    }
}

/// Exactly one of the calls evaluates the corner.
pub open spec fn covered_once(calls: Seq<SliceCall>, corner: int) -> bool {
    exists|k: int| #[trigger] covered_by(calls, corner, k)
}

/// The `k`-th call, and no other, evaluates the corner.
pub open spec fn covered_by(calls: Seq<SliceCall>, corner: int, k: int) -> bool {
    &&& 0 <= k < calls.len()
    &&& call_covers(calls[k], corner)
    &&& forall|j: int| 0 <= j < calls.len() && j != k ==> !call_covers(#[trigger] calls[j], corner)
}

/// Every corner of a column is evaluated by exactly one call.
pub proof fn each_corner_is_evaluated_once(
    block_x: i32,
    block_z: i32,
    blended_len: usize,
    corners_y: int,
    corner: int,
)
    requires
        0 <= corner < corners_y <= MAX_SLICE_LEN,
    ensures
        covered_once(column_calls(block_x, block_z, blended_len, corners_y), corner),
{
    let calls = column_calls(block_x, block_z, blended_len, corners_y);
    let wide = corners_y / 8;
    let k = if corner < 8 * wide {
        1 + corner / 8
    } else {
        1 + wide + (corner - 8 * wide)
    };
    assert(call_covers(calls[k], corner));
    assert forall|j: int| 0 <= j < calls.len() && j != k implies !call_covers(
        #[trigger] calls[j],
        corner,
    ) by {
        if 1 <= j <= wide {
            assert(calls[j] == SliceCall::Wide { block_x, block_z, first: (8 * (j - 1)) as usize });
        } else if j > wide {
            assert(calls[j] == SliceCall::Single {
                block_x,
                block_z,
                corner: (8 * wide + (j - 1 - wide)) as usize,
            });
        }
    }
    assert(covered_by(calls, corner, k));
}

impl NoiseChunk {
    /// Corners along z.
    pub open spec fn z_corners(&self) -> int {
        self.cell_count_xz + 1
    }

    /// Corners in a slice.
    pub open spec fn slice_len(&self) -> int {
        self.z_corners() * self.corners_y
    }

    /// The number of block columns that the cells hold.
    pub open spec fn columns(&self) -> int {
        self.cell_count_xz * self.settings.cell_width * (self.cell_count_xz
            * self.settings.cell_width)
    }

    /// The geometry follows from the settings, and there is a full slice for
    /// every cell boundary along x.
    pub open spec fn well_formed(&self) -> bool {
        &&& self.settings.well_formed()
        &&& self.cell_count_xz == self.settings.cells_xz()
        &&& self.cell_count_y == self.settings.cells_y()
        &&& self.corners_y == self.cell_count_y + 1
        &&& self.slice_len() <= MAX_SLICE_LEN
        &&& self.interp_count <= MAX_INTERP
        &&& self.cell_min_y == self.settings.min_y as int / self.settings.cell_height as int
        &&& self.block_ys@.len() == self.corners_y
        &&& forall|cy: int|
            0 <= cy < self.corners_y ==> #[trigger] self.block_ys@[cy] == (cy + self.cell_min_y)
                * self.settings.cell_height
        &&& i32::MIN <= self.first_cell_x * self.settings.cell_width
        &&& (self.first_cell_x + self.cell_count_xz) * self.settings.cell_width <= i32::MAX
        &&& i32::MIN <= self.first_cell_z * self.settings.cell_width
        &&& (self.first_cell_z + self.cell_count_xz) * self.settings.cell_width <= i32::MAX
        &&& self.slices@.len() == self.cell_count_xz + 1
        &&& forall|cx: int|
            0 <= cx < self.slices@.len() ==> (#[trigger] self.slices@[cx])@.len() == SLICE_VALUES
    }

    /// A noise chunk for the chunk whose northwest corner is the given block,
    /// with every corner value zero.
    #[must_use]
    pub fn new(
        settings: NoiseSettings,
        interp_count: usize,
        chunk_min_block_x: i32,
        chunk_min_block_z: i32,
    ) -> (r: Self)
        requires
            settings.well_formed(),
            interp_count <= MAX_INTERP,
            cells_fit(settings, chunk_min_block_x),
            cells_fit(settings, chunk_min_block_z),
        ensures
            r.well_formed(),
            r.settings == settings,
            r.interp_count == interp_count,
            r.first_cell_x == chunk_min_block_x as int / settings.cell_width as int,
            r.first_cell_z == chunk_min_block_z as int / settings.cell_width as int,
            forall|cx: int, i: int|
                0 <= cx < r.slices@.len() && 0 <= i < SLICE_VALUES ==> #[trigger] r.slices@[cx]@[i]
                    == 0,
    {
        let cell_width: i32 = settings.cell_width;
        let cell_height: i32 = settings.cell_height;
        let first_cell_x: i32 = floor_div(chunk_min_block_x, cell_width);
        let first_cell_z: i32 = floor_div(chunk_min_block_z, cell_width);
        let cell_min_y: i32 = floor_div(settings.min_y, cell_height);
        let count_xz: i32 = 16 / cell_width;
        let count_y: i32 = if settings.height >= 0 {
            settings.height / cell_height
        } else {
            0
        };
        proof {
            let (x, y) = (settings.cells_xz(), settings.cells_y());
            assert(0 <= x <= 16) by (nonlinear_arith)
                requires
                    x == 16int / cell_width as int,
                    cell_width > 0,
            ;
            assert(0 <= y) by (nonlinear_arith)
                requires
                    y == (if settings.height >= 0 {
                        settings.height as int / cell_height as int
                    } else {
                        0
                    }),
                    cell_height > 0,
            ;
            assert(y + 1 <= MAX_SLICE_LEN) by (nonlinear_arith)
                requires
                    (x + 1) * (y + 1) <= MAX_SLICE_LEN,
                    x >= 0,
                    y >= 0,
            ;
        }
        let cell_count_xz: usize = count_xz as usize;
        let cell_count_y: usize = count_y as usize;
        let corners_y: usize = cell_count_y + 1;
        let mut block_ys: Vec<i32> = Vec::new();
        let mut cy: usize = 0;
        while cy < corners_y
            invariant
                cy <= corners_y,
                corners_y == settings.cells_y() + 1,
                corners_y <= MAX_SLICE_LEN,
                settings.well_formed(),
                cell_height == settings.cell_height,
                cell_min_y == settings.min_y as int / settings.cell_height as int,
                block_ys@.len() == cy,
                forall|k: int|
                    0 <= k < cy ==> #[trigger] block_ys@[k] == (k + cell_min_y)
                        * settings.cell_height,
            decreases corners_y - cy,
        {
            proof {
                let (k, n, m, h) = (
                    cy as int,
                    settings.cells_y(),
                    cell_min_y as int,
                    cell_height as int,
                );
                assert(m * h <= (k + m) * h <= (m + n) * h) by (nonlinear_arith)
                    requires
                        0 <= k <= n,
                        h > 0,
                ;
                assert(i32::MIN <= k + m <= i32::MAX) by (nonlinear_arith)
                    requires
                        i32::MIN <= (k + m) * h <= i32::MAX,
                        h > 0,
                ;
            }
            block_ys.push((cy as i32 + cell_min_y) * cell_height);
            cy += 1;
        }
        let mut slices: Vec<Vec<u64>> = Vec::new();
        let mut cx: usize = 0;
        while cx <= cell_count_xz
            invariant
                cx <= cell_count_xz + 1,
                cell_count_xz <= 16,
                slices@.len() == cx,
                forall|k: int| 0 <= k < cx ==> (#[trigger] slices@[k])@.len() == SLICE_VALUES,
                forall|k: int, i: int|
                    0 <= k < cx && 0 <= i < SLICE_VALUES ==> #[trigger] slices@[k]@[i] == 0,
            decreases cell_count_xz + 1 - cx,
        {
            slices.push(empty_slice());
            cx += 1;
        }
        NoiseChunk {
            settings,
            slices,
            interp_count,
            corners_y,
            block_ys,
            first_cell_x,
            first_cell_z,
            cell_min_y,
            cell_count_y,
            cell_count_xz,
        }
    }
}

fn empty_slice() -> (r: Vec<u64>)
    ensures
        r@.len() == SLICE_VALUES,
        forall|i: int| 0 <= i < SLICE_VALUES ==> r@[i] == 0,
{
    let mut r: Vec<u64> = Vec::new();
    while r.len() < SLICE_VALUES
        invariant
            r@.len() <= SLICE_VALUES,
            forall|i: int| 0 <= i < r@.len() ==> r@[i] == 0,
        decreases SLICE_VALUES - r@.len(),
    {
        r.push(0);
    }
    r
}

/// The calls that fill the first `columns` corner columns of a slice.
pub open spec fn slice_calls_of(
    chunk: NoiseChunk,
    cx: int,
    blended_len: usize,
    columns: int,
) -> Seq<SliceCall>
    decreases columns,
{
    if columns <= 0 {
        Seq::empty()
    } else {
        slice_calls_of(chunk, cx, blended_len, columns - 1) + column_calls(
            ((chunk.first_cell_x + cx) * chunk.settings.cell_width) as i32,
            ((chunk.first_cell_z + columns - 1) * chunk.settings.cell_width) as i32,
            blended_len,
            chunk.corners_y as int,
        )
    }
}

/// The slice index of a corner's first channel.
pub open spec fn corner_base(corners_y: int, z: int, y: int) -> int {
    (z * corners_y + y) * MAX_INTERP
}

/// A coordinate of a cell boundary, in blocks.
fn boundary(first: i32, offset: usize, width: i32, count: usize) -> (r: i32)
    requires
        width > 0,
        offset <= count <= 16,
        i32::MIN <= first * width,
        (first + count) * width <= i32::MAX,
    ensures
        r == (first + offset) * width,
        r <= (first + count) * width,
{
    proof {
        let (f, o, w, c) = (first as int, offset as int, width as int, count as int);
        assert(f * w <= (f + o) * w <= (f + c) * w) by (nonlinear_arith)
            requires
                0 <= o <= c,
                w > 0,
        ;
        assert(i32::MIN <= f + o <= i32::MAX) by (nonlinear_arith)
            requires
                i32::MIN <= (f + o) * w <= i32::MAX,
                w > 0,
        ;
    }
    (first + offset as i32) * width
}

/// Adds the calls that fill one column of corners.
fn push_column_calls(
    calls: &mut Vec<SliceCall>,
    block_x: i32,
    block_z: i32,
    blended_len: usize,
    corners_y: usize,
)
    requires
        corners_y <= MAX_SLICE_LEN,
    ensures
        final(calls)@ == old(calls)@ + column_calls(
            block_x,
            block_z,
            blended_len,
            corners_y as int,
        ),
{
    let ghost before = calls@;
    let ghost all = column_calls(block_x, block_z, blended_len, corners_y as int);
    calls.push(SliceCall::Column { block_x, block_z, blended_len });
    let mut cy: usize = 0;
    assert(calls@ =~= before + all.subrange(0, 1));
    while cy + DENSITY_LANES <= corners_y
        invariant
            cy <= corners_y <= MAX_SLICE_LEN,
            cy % 8 == 0,
            all == column_calls(block_x, block_z, blended_len, corners_y as int),
            calls@ == before + all.subrange(0, 1 + cy / 8),
        decreases corners_y - cy,
    {
        calls.push(SliceCall::Wide { block_x, block_z, first: cy });
        proof {
            let k = 1 + cy / 8;
            assert(all[k as int] == SliceCall::Wide { block_x, block_z, first: cy });
            assert(all.subrange(0, k + 1) =~= all.subrange(0, k as int).push(all[k as int]));
        }
        cy += DENSITY_LANES;
        assert(calls@ =~= before + all.subrange(0, 1 + cy / 8));
    }
    let ghost wide = corners_y / 8;
    assert(cy == 8 * wide);
    while cy < corners_y
        invariant
            8 * wide <= cy <= corners_y <= MAX_SLICE_LEN,
            wide == corners_y / 8,
            all == column_calls(block_x, block_z, blended_len, corners_y as int),
            calls@ == before + all.subrange(0, 1 + wide + (cy - 8 * wide)),
        decreases corners_y - cy,
    {
        calls.push(SliceCall::Single { block_x, block_z, corner: cy });
        proof {
            let k = 1 + wide + (cy - 8 * wide);
            assert(all[k] == SliceCall::Single { block_x, block_z, corner: cy });
            assert(all.subrange(0, k + 1) =~= all.subrange(0, k).push(all[k]));
        }
        cy += 1;
        assert(calls@ =~= before + all.subrange(0, 1 + wide + (cy - 8 * wide)));
    }
    assert(all.subrange(0, all.len() as int) =~= all);
}

proof fn lemma_corner_index(z: int, y: int, z_corners: int, corners_y: int)
    requires
        0 <= z < z_corners,
        0 <= y < corners_y,
        z_corners * corners_y <= MAX_SLICE_LEN,
    ensures
        0 <= z * corners_y + y < z_corners * corners_y,
        0 <= corner_base(corners_y, z, y),
        corner_base(corners_y, z, y) + MAX_INTERP <= SLICE_VALUES,
{
    assert(0 <= z * corners_y + y < z_corners * corners_y) by (nonlinear_arith)
        requires
            0 <= z < z_corners,
            0 <= y < corners_y,
    ;
}

/// Distinct corners keep their channels in distinct places.
pub proof fn corners_do_not_overlap(
    z: int,
    y: int,
    channel: int,
    other_z: int,
    other_y: int,
    other_channel: int,
    corners_y: int,
)
    requires
        0 <= y < corners_y,
        0 <= other_y < corners_y,
        0 <= channel < MAX_INTERP,
        0 <= other_channel < MAX_INTERP,
        corner_base(corners_y, z, y) + channel == corner_base(corners_y, other_z, other_y)
            + other_channel,
    ensures
        z == other_z,
        y == other_y,
        channel == other_channel,
{
    let (a, b) = (z * corners_y + y, other_z * corners_y + other_y);
    assert(a == b && channel == other_channel);
    assert(z == other_z) by (nonlinear_arith)
        requires
            z * corners_y + y == other_z * corners_y + other_y,
            0 <= y < corners_y,
            0 <= other_y < corners_y,
    ;
}

impl NoiseChunk {
    /// The outside calls that compute a slice's corner densities, in order.
    pub fn slice_calls(&self, cx: usize, blended_len: usize) -> (r: Vec<SliceCall>)
        requires
            self.well_formed(),
            cx <= self.cell_count_xz,
        ensures
            r@ == slice_calls_of(*self, cx as int, blended_len, self.z_corners()),
    {
        proof {
            self.lemma_counts();
        }
        let mut calls: Vec<SliceCall> = Vec::new();
        let block_x: i32 = boundary(
            self.first_cell_x,
            cx,
            self.settings.cell_width,
            self.cell_count_xz,
        );
        let mut cz: usize = 0;
        while cz <= self.cell_count_xz
            invariant
                self.well_formed(),
                self.cell_count_xz <= 16,
                self.corners_y <= MAX_SLICE_LEN,
                cz <= self.cell_count_xz + 1,
                block_x == (self.first_cell_x + cx) * self.settings.cell_width,
                calls@ == slice_calls_of(*self, cx as int, blended_len, cz as int),
            decreases self.cell_count_xz + 1 - cz,
        {
            let block_z: i32 = boundary(
                self.first_cell_z,
                cz,
                self.settings.cell_width,
                self.cell_count_xz,
            );
            push_column_calls(&mut calls, block_x, block_z, blended_len, self.corners_y);
            cz += 1;
        }
        calls
    }

    proof fn lemma_counts(&self)
        requires
            self.well_formed(),
        ensures
            self.cell_count_xz <= 16,
            self.cell_count_xz * self.settings.cell_width <= 16,
            1 <= self.corners_y <= MAX_SLICE_LEN,
    {
        let (n, w, c) = (
            self.cell_count_xz as int,
            self.settings.cell_width as int,
            self.corners_y as int,
        );
        assert(n <= 16 && n * w <= 16) by (nonlinear_arith)
            requires
                n == 16int / w,
                w > 0,
        ;
        assert(c <= MAX_SLICE_LEN) by (nonlinear_arith)
            requires
                (n + 1) * c <= MAX_SLICE_LEN,
                n >= 0,
                c >= 0,
        ;
    }

    /// Stores the corner densities of a slice: `densities` holds the active
    /// channels of every corner, corner after corner.
    pub fn fill_slice_into(&mut self, cx: usize, densities: &Vec<u64>)
        requires
            old(self).well_formed(),
            cx <= old(self).cell_count_xz,
            densities@.len() == old(self).slice_len() * old(self).interp_count,
        ensures
            final(self).well_formed(),
            final(self).settings == old(self).settings,
            final(self).interp_count == old(self).interp_count,
            final(self).first_cell_x == old(self).first_cell_x,
            final(self).first_cell_z == old(self).first_cell_z,
            forall|other: int|
                0 <= other < final(self).slices@.len() && other != cx
                    ==> #[trigger] final(self).slices@[other] == old(self).slices@[other],
            forall|corner: int, channel: int|
                0 <= corner < old(self).slice_len() && 0 <= channel < old(self).interp_count
                    ==> #[trigger] final(self).slices@[cx as int]@[corner * MAX_INTERP + channel]
                    == densities@[corner * old(self).interp_count + channel],
            forall|corner: int, channel: int|
                0 <= corner < MAX_SLICE_LEN && 0 <= channel < MAX_INTERP && (corner >= old(self).slice_len() || channel >= old(self).interp_count) ==> #[trigger] final(self).slices@[cx as int]@[corner * MAX_INTERP + channel] == old(self).slices@[cx as int]@[corner * MAX_INTERP + channel],
    {
        proof {
            self.lemma_counts();
            let n = self.cell_count_xz as int;
            let c = self.corners_y as int;
            assert((n + 1) * c >= 0) by (nonlinear_arith)
                requires
                    n >= 0,
                    c >= 0,
            ;
        }
        let count: usize = (self.cell_count_xz + 1) * self.corners_y;
        let active: usize = self.interp_count;
        let ghost chunk = *self;
        let mut slice: Vec<u64> = Vec::new();
        std::mem::swap(&mut slice, &mut self.slices[cx]);
        let ghost start = slice@;
        let mut corner: usize = 0;
        while corner < count
            invariant
                corner <= count <= MAX_SLICE_LEN,
                active <= MAX_INTERP,
                slice@.len() == SLICE_VALUES,
                start.len() == SLICE_VALUES,
                densities@.len() == count * active,
                forall|k: int, ch: int|
                    0 <= k < corner && 0 <= ch < active ==> #[trigger] slice@[k * MAX_INTERP + ch]
                        == densities@[k * active + ch],
                forall|k: int, ch: int|
                    0 <= k < MAX_SLICE_LEN && 0 <= ch < MAX_INTERP && (k >= corner || ch >= active)
                        ==> #[trigger] slice@[k * MAX_INTERP + ch] == start[k * MAX_INTERP + ch],
            decreases count - corner,
        {
            let mut channel: usize = 0;
            while channel < active
                invariant
                    channel <= active <= MAX_INTERP,
                    corner < count <= MAX_SLICE_LEN,
                    slice@.len() == SLICE_VALUES,
                    start.len() == SLICE_VALUES,
                    densities@.len() == count * active,
                    forall|k: int, ch: int|
                        0 <= k < corner && 0 <= ch < active ==> #[trigger] slice@[k * MAX_INTERP
                            + ch] == densities@[k * active + ch],
                    forall|ch: int|
                        0 <= ch < channel ==> #[trigger] slice@[corner * MAX_INTERP + ch]
                            == densities@[corner * active + ch],
                    forall|k: int, ch: int|
                        0 <= k < MAX_SLICE_LEN && 0 <= ch < MAX_INTERP && (k > corner || (k
                            == corner && ch >= channel) || ch >= active)
                            ==> #[trigger] slice@[k * MAX_INTERP + ch] == start[k * MAX_INTERP
                            + ch],
                decreases active - channel,
            {
                proof {
                    let (k, n, a, ch) = (
                        corner as int,
                        count as int,
                        active as int,
                        channel as int,
                    );
                    assert(k * a + ch < n * a && k * a <= 2048) by (nonlinear_arith)
                        requires
                            0 <= k < n,
                            n <= 256,
                            0 <= ch < a,
                            a <= 8,
                    ;
                    assert(k * a >= 0) by (nonlinear_arith)
                        requires
                            0 <= k,
                            0 <= a,
                    ;
                }
                slice.set(corner * MAX_INTERP + channel, densities[corner * active + channel]);
                channel += 1;
            }
            corner += 1;
        }
        let ghost done = slice@;
        self.slices.set(cx, slice);
        proof {
            assert(self.slices@[cx as int]@ == done);
            assert(start == chunk.slices@[cx as int]@);
        }
    }
}

// ---------------------------------------------------------------------------
// Interpolation runs
// ---------------------------------------------------------------------------
/// The blocks of one cell at one column, to be interpolated from the top block
/// down.
///
/// The eight corner values of a channel are `slices[slice]` and
/// `slices[slice + 1]` at `near`, `far`, and [`MAX_INTERP`] behind each, the
/// upper corners.
#[derive(Debug, Clone, Copy)]
pub struct BlockRun {
    /// The slice on the low side along x.
    pub slice: usize,
    /// The column within the chunk.
    pub local_x: usize,
    pub local_z: usize,
    /// The column within its cell.
    pub x_in_cell: i32,
    pub z_in_cell: i32,
    /// The column in the world.
    pub world_x: i32,
    pub world_z: i32,
    /// Whether a structure's beard reaches the column.
    pub beard: bool,
    /// The lowest block.
    pub base_y: i32,
    /// Where the lower corners' channels start, on the low side along z and on
    /// the high side.
    pub near: usize,
    pub far: usize,
}

/// The cell along x of the `k`-th column in filling order.
pub open spec fn column_cell_x(k: int, cells: int, width: int) -> int {
    k / width / width / cells
}

/// The cell along z of the `k`-th column in filling order.
pub open spec fn column_cell_z(k: int, cells: int, width: int) -> int {
    k / width / width % cells
}

/// The place along x within its cell of the `k`-th column in filling order.
pub open spec fn column_x_in_cell(k: int, width: int) -> int {
    k / width % width
}

/// The place along z within its cell of the `k`-th column in filling order.
pub open spec fn column_z_in_cell(k: int, width: int) -> int {
    k % width
}

/// The number in filling order of a column: cell by cell along x, then along z,
/// and within a cell along x, then along z.
pub open spec fn column_number(x: int, z: int, cells: int, width: int) -> int {
    ((x / width * cells + z / width) * width + x % width) * width + z % width
}

/// The column along x within the chunk.
pub open spec fn column_x(k: int, cells: int, width: int) -> int {
    column_cell_x(k, cells, width) * width + column_x_in_cell(k, width)
}

/// The column along z within the chunk.
pub open spec fn column_z(k: int, cells: int, width: int) -> int {
    column_cell_z(k, cells, width) * width + column_z_in_cell(k, width)
}

proof fn lemma_digits(high: int, low: int, base: int)
    requires
        0 <= low < base,
    ensures
        (high * base + low) / base == high,
        (high * base + low) % base == low,
{
    vstd::arithmetic::div_mod::lemma_fundamental_div_mod_converse(
        high * base + low,
        base,
        high,
        low,
    );
}

proof fn lemma_column(k: int, cells: int, width: int)
    requires
        0 <= k < cells * width * (cells * width),
        cells > 0,
        width > 0,
    ensures
        0 <= column_cell_x(k, cells, width) < cells,
        0 <= column_cell_z(k, cells, width) < cells,
        0 <= column_x_in_cell(k, width) < width,
        0 <= column_z_in_cell(k, width) < width,
        column_number(column_x(k, cells, width), column_z(k, cells, width), cells, width) == k,
{
    let a = k / width;
    let b = a / width;
    let (cx, cz, xi, zi) = (b / cells, b % cells, a % width, k % width);
    assert(k == a * width + zi && 0 <= zi < width && a >= 0) by (nonlinear_arith)
        requires
            a == k / width,
            zi == k % width,
            width > 0,
            k >= 0,
    ;
    assert(a == b * width + xi && 0 <= xi < width && b >= 0) by (nonlinear_arith)
        requires
            b == a / width,
            xi == a % width,
            width > 0,
            a >= 0,
    ;
    assert(b == cx * cells + cz && 0 <= cz < cells && cx >= 0) by (nonlinear_arith)
        requires
            cx == b / cells,
            cz == b % cells,
            cells > 0,
            b >= 0,
    ;
    assert(cells * width * (cells * width) == cells * cells * width * width) by (nonlinear_arith);
    assert(a < cells * cells * width) by (nonlinear_arith)
        requires
            a * width <= k,
            k < cells * cells * width * width,
            width > 0,
    ;
    assert(b < cells * cells) by (nonlinear_arith)
        requires
            b * width <= a,
            a < cells * cells * width,
            width > 0,
    ;
    assert(cx < cells) by (nonlinear_arith)
        requires
            cx * cells <= b,
            b < cells * cells,
            cells > 0,
    ;
    lemma_digits(cx, xi, width);
    lemma_digits(cz, zi, width);
}

/// Every block column is visited exactly once.
pub proof fn every_column_is_visited_once(x: int, z: int, cells: int, width: int)
    requires
        0 <= x < cells * width,
        0 <= z < cells * width,
        width > 0,
    ensures
        0 <= column_number(x, z, cells, width) < cells * width * (cells * width),
        column_x(column_number(x, z, cells, width), cells, width) == x,
        column_z(column_number(x, z, cells, width), cells, width) == z,
        forall|k: int|
            0 <= k < cells * width * (cells * width) && #[trigger] column_x(k, cells, width) == x
                && column_z(k, cells, width) == z ==> k == column_number(x, z, cells, width),
{
    let (cx, xi, cz, zi) = (x / width, x % width, z / width, z % width);
    assert(x == cx * width + xi && 0 <= xi < width && 0 <= cx < cells) by (nonlinear_arith)
        requires
            cx == x / width,
            xi == x % width,
            0 <= x < cells * width,
            width > 0,
    ;
    assert(z == cz * width + zi && 0 <= zi < width && 0 <= cz < cells) by (nonlinear_arith)
        requires
            cz == z / width,
            zi == z % width,
            0 <= z < cells * width,
            width > 0,
    ;
    let b = cx * cells + cz;
    let a = b * width + xi;
    let k = a * width + zi;
    lemma_digits(a, zi, width);
    lemma_digits(b, xi, width);
    lemma_digits(cx, cz, cells);
    assert(0 <= b < cells * cells) by (nonlinear_arith)
        requires
            b == cx * cells + cz,
            0 <= cx < cells,
            0 <= cz < cells,
    ;
    assert(0 <= a < cells * cells * width) by (nonlinear_arith)
        requires
            a == b * width + xi,
            0 <= b < cells * cells,
            0 <= xi < width,
    ;
    assert(0 <= k < cells * cells * width * width) by (nonlinear_arith)
        requires
            k == a * width + zi,
            0 <= a < cells * cells * width,
            0 <= zi < width,
    ;
    assert(cells * width * (cells * width) == cells * cells * width * width) by (nonlinear_arith);
    assert forall|j: int|
        0 <= j < cells * width * (cells * width) && #[trigger] column_x(j, cells, width) == x
            && column_z(j, cells, width) == z implies j == column_number(x, z, cells, width) by {
        lemma_column(j, cells, width);
    }
}

/// The run of a cell at the `k`-th column.
pub open spec fn run_of(chunk: NoiseChunk, k: int, cell_y: int, beard: bool) -> BlockRun {
    let cells = chunk.cell_count_xz as int;
    let width = chunk.settings.cell_width as int;
    let x = column_x(k, cells, width);
    let z = column_z(k, cells, width);
    let cell_z = column_cell_z(k, cells, width);
    BlockRun {
        slice: column_cell_x(k, cells, width) as usize,
        local_x: x as usize,
        local_z: z as usize,
        x_in_cell: column_x_in_cell(k, width) as i32,
        z_in_cell: column_z_in_cell(k, width) as i32,
        world_x: (x + chunk.first_cell_x * width) as i32,
        world_z: (z + chunk.first_cell_z * width) as i32,
        beard,
        base_y: ((chunk.cell_min_y + cell_y) * chunk.settings.cell_height) as i32,
        near: corner_base(chunk.corners_y as int, cell_z, cell_y) as usize,
        far: corner_base(chunk.corners_y as int, cell_z + 1, cell_y) as usize,
    }
}

/// A run's corners lie in its slices: all eight of them, with every channel,
/// at the places where [`NoiseChunk::fill_slice_into`] keeps those corners. Its
/// blocks are those of the cell, within the column's cells.
pub proof fn a_run_reads_its_cells_corners(chunk: NoiseChunk, k: int, cell_y: int, beard: bool)
    requires
        chunk.well_formed(),
        0 <= k < chunk.columns(),
        0 <= cell_y < chunk.cell_count_y,
    ensures
        ({
            let run = run_of(chunk, k, cell_y, beard);
            let cells = chunk.cell_count_xz as int;
            let width = chunk.settings.cell_width as int;
            let cell_z = column_cell_z(k, cells, width);
            let corners = chunk.corners_y as int;
            &&& run.slice + 1 < chunk.slices@.len()
            &&& run.near == corner_base(corners, cell_z, cell_y)
            &&& run.near + MAX_INTERP == corner_base(corners, cell_z, cell_y + 1)
            &&& run.far == corner_base(corners, cell_z + 1, cell_y)
            &&& run.far + MAX_INTERP == corner_base(corners, cell_z + 1, cell_y + 1)
            &&& run.near + 2 * MAX_INTERP <= SLICE_VALUES
            &&& run.far + 2 * MAX_INTERP <= SLICE_VALUES
            &&& 0 <= run.x_in_cell < width
            &&& 0 <= run.z_in_cell < width
            &&& run.local_x == column_x(k, cells, width) < 16
            &&& run.local_z == column_z(k, cells, width) < 16
            &&& run.world_x == (chunk.first_cell_x + run.slice) * width + run.x_in_cell
            &&& run.world_z == (chunk.first_cell_z + cell_z) * width + run.z_in_cell
            &&& run.base_y == chunk.block_ys@[cell_y]
            &&& run.base_y + chunk.settings.cell_height == chunk.block_ys@[cell_y + 1]
        }),
{
    chunk.lemma_counts();
    let cells = chunk.cell_count_xz as int;
    let width = chunk.settings.cell_width as int;
    let height = chunk.settings.cell_height as int;
    assert(cells > 0) by (nonlinear_arith)
        requires
            0 <= k < cells * width * (cells * width),
            cells >= 0,
    ;
    lemma_column(k, cells, width);
    let (cx, cz) = (column_cell_x(k, cells, width), column_cell_z(k, cells, width));
    let (xi, zi) = (column_x_in_cell(k, width), column_z_in_cell(k, width));
    let corners = chunk.corners_y as int;
    lemma_corner_index(cz, cell_y, cells + 1, corners);
    lemma_corner_index(cz, cell_y + 1, cells + 1, corners);
    lemma_corner_index(cz + 1, cell_y, cells + 1, corners);
    lemma_corner_index(cz + 1, cell_y + 1, cells + 1, corners);
    assert(0 <= cx * width + xi < cells * width) by (nonlinear_arith)
        requires
            0 <= cx < cells,
            0 <= xi < width,
    ;
    assert(0 <= cz * width + zi < cells * width) by (nonlinear_arith)
        requires
            0 <= cz < cells,
            0 <= zi < width,
    ;
    let (fx, fz) = (chunk.first_cell_x as int, chunk.first_cell_z as int);
    assert((fx + cx) * width == fx * width + cx * width) by (nonlinear_arith);
    assert((fz + cz) * width == fz * width + cz * width) by (nonlinear_arith);
    assert((fx + cells) * width == fx * width + cells * width) by (nonlinear_arith);
    assert((fz + cells) * width == fz * width + cells * width) by (nonlinear_arith);
    assert(chunk.block_ys@[cell_y] == (cell_y + chunk.cell_min_y) * height);
    assert(chunk.block_ys@[cell_y + 1] == (cell_y + 1 + chunk.cell_min_y) * height);
    assert((cell_y + 1 + chunk.cell_min_y) * height == (cell_y + chunk.cell_min_y) * height
        + height) by (nonlinear_arith);
}

/// Whether a run may be dropped if its lowest channel is nowhere positive:
/// the dimension's density follows that channel, no beard adds to it, and
/// nothing is placed from the run's height on without a positive density.
pub open spec fn may_skip_run(
    base_y: int,
    beard: bool,
    air_only_above_y: Option<i32>,
    follows_channel: bool,
) -> bool {
    follows_channel && !beard && match air_only_above_y {
        Some(air_above) => base_y >= air_above,
        None => false,
    }
}

/// What decides which runs are left out.
pub struct RunChoice {
    /// For every column, whether a structure's beard reaches it.
    pub beards: Seq<bool>,
    /// For every cell of every column, whether the channel that the density
    /// follows is nowhere positive in it.
    pub quiet: Seq<bool>,
    pub air_only_above_y: Option<i32>,
    pub follows_channel: bool,
}

/// A cell's run is left out.
pub open spec fn is_skipped(chunk: NoiseChunk, choice: RunChoice, k: int, cell_y: int) -> bool {
    &&& may_skip_run(
        (chunk.cell_min_y + cell_y) * chunk.settings.cell_height,
        choice.beards[k],
        choice.air_only_above_y,
        choice.follows_channel,
    )
    &&& choice.quiet[k * chunk.cell_count_y + cell_y]
}

/// The runs of the topmost `done` cells of a column, from the top.
pub open spec fn column_runs(chunk: NoiseChunk, choice: RunChoice, k: int, done: int) -> Seq<
    BlockRun,
>
    decreases done,
{
    if done <= 0 {
        Seq::empty()
    } else {
        let before = column_runs(chunk, choice, k, done - 1);
        let cell_y = chunk.cell_count_y - done;
        if is_skipped(chunk, choice, k, cell_y) {
            before
        } else {
            before.push(run_of(chunk, k, cell_y, choice.beards[k]))
        }
    }
}

/// The runs of the first `columns` columns.
pub open spec fn chunk_runs(chunk: NoiseChunk, choice: RunChoice, columns: int) -> Seq<BlockRun>
    decreases columns,
{
    if columns <= 0 {
        Seq::empty()
    } else {
        chunk_runs(chunk, choice, columns - 1) + column_runs(
            chunk,
            choice,
            columns - 1,
            chunk.cell_count_y as int,
        )
    }
}

proof fn lemma_column_run(chunk: NoiseChunk, choice: RunChoice, k: int, cell_y: int, done: int)
    requires
        chunk.cell_count_y - done <= cell_y < chunk.cell_count_y,
        !is_skipped(chunk, choice, k, cell_y),
    ensures
        column_runs(chunk, choice, k, done).contains(
            run_of(chunk, k, cell_y, choice.beards[k]),
        ),
    decreases done,
{
    let now = column_runs(chunk, choice, k, done);
    let wanted = run_of(chunk, k, cell_y, choice.beards[k]);
    if cell_y == chunk.cell_count_y - done {
        assert(now.last() == wanted);
        assert(now[now.len() - 1] == wanted);
    } else {
        lemma_column_run(chunk, choice, k, cell_y, done - 1);
        let before = column_runs(chunk, choice, k, done - 1);
        let i = choose|i: int| 0 <= i < before.len() && before[i] == wanted;
        assert(now[i] == wanted);
    }
}

/// Every cell of every column is either left out for a reason or filled.
pub proof fn every_cell_is_filled_or_skipped(
    chunk: NoiseChunk,
    choice: RunChoice,
    columns: int,
    k: int,
    cell_y: int,
)
    requires
        0 <= k < columns,
        0 <= cell_y < chunk.cell_count_y,
    ensures
        is_skipped(chunk, choice, k, cell_y) || chunk_runs(chunk, choice, columns).contains(
            run_of(chunk, k, cell_y, choice.beards[k]),
        ),
    decreases columns,
{
    if !is_skipped(chunk, choice, k, cell_y) {
        let now = chunk_runs(chunk, choice, columns);
        let before = chunk_runs(chunk, choice, columns - 1);
        let last = column_runs(chunk, choice, columns - 1, chunk.cell_count_y as int);
        let wanted = run_of(chunk, k, cell_y, choice.beards[k]);
        if k == columns - 1 {
            lemma_column_run(chunk, choice, k, cell_y, chunk.cell_count_y as int);
            let i = choose|i: int| 0 <= i < last.len() && last[i] == wanted;
            assert(now[before.len() + i] == wanted);
        } else {
            every_cell_is_filled_or_skipped(chunk, choice, columns - 1, k, cell_y);
            let i = choose|i: int| 0 <= i < before.len() && before[i] == wanted;
            assert(now[i] == wanted);
        }
    }
}

impl NoiseChunk {
    /// The run of a cell at the `k`-th column in filling order.
    pub fn run_at(&self, k: usize, cell_y: usize, beard: bool) -> (r: BlockRun)
        requires
            self.well_formed(),
            k < self.columns(),
            cell_y < self.cell_count_y,
        ensures
            r == run_of(*self, k as int, cell_y as int, beard),
    {
        let width: i32 = self.settings.cell_width;
        let cells: usize = self.cell_count_xz;
        proof {
            self.lemma_counts();
            a_run_reads_its_cells_corners(*self, k as int, cell_y as int, beard);
            let (c, w) = (cells as int, width as int);
            assert(c > 0) by (nonlinear_arith)
                requires
                    0 <= k < c * w * (c * w),
                    c >= 0,
            ;
            lemma_column(k as int, c, w);
            assert(w <= 16) by (nonlinear_arith)
                requires
                    c * w <= 16,
                    c >= 1,
                    w > 0,
            ;
        }
        let side: usize = width as usize;
        let z_in_cell: usize = k % side;
        let x_in_cell: usize = k / side % side;
        let cell: usize = k / side / side;
        let cell_z: usize = cell % cells;
        let cell_x: usize = cell / cells;
        proof {
            let (cx, cz, w, c) = (cell_x as int, cell_z as int, width as int, cells as int);
            assert(cx == column_cell_x(k as int, c, w));
            assert(cz == column_cell_z(k as int, c, w));
            assert(0 <= cx * w <= c * w && 0 <= cz * w <= c * w) by (nonlinear_arith)
                requires
                    0 <= cx < c,
                    0 <= cz < c,
                    w > 0,
            ;
            lemma_corner_index(cz, cell_y as int, c + 1, self.corners_y as int);
            lemma_corner_index(cz + 1, cell_y as int, c + 1, self.corners_y as int);
            let (fx, fz) = (self.first_cell_x as int, self.first_cell_z as int);
            assert((fx + cx) * w == fx * w + cx * w) by (nonlinear_arith);
            assert((fz + cz) * w == fz * w + cz * w) by (nonlinear_arith);
            assert((fx + c) * w == fx * w + c * w) by (nonlinear_arith);
            assert((fz + c) * w == fz * w + c * w) by (nonlinear_arith);
            assert(cz * self.corners_y >= 0) by (nonlinear_arith)
                requires
                    cz >= 0,
                    self.corners_y >= 0,
            ;
            assert((cz + 1) * self.corners_y >= 0) by (nonlinear_arith)
                requires
                    cz >= 0,
                    self.corners_y >= 0,
            ;
        }
        let local_x: usize = cell_x * side + x_in_cell;
        let local_z: usize = cell_z * side + z_in_cell;
        assert(self.block_ys@[cell_y as int] == (cell_y + self.cell_min_y)
            * self.settings.cell_height);
        BlockRun {
            slice: cell_x,
            local_x,
            local_z,
            x_in_cell: x_in_cell as i32,
            z_in_cell: z_in_cell as i32,
            world_x: local_x as i32 + self.first_cell_x * width,
            world_z: local_z as i32 + self.first_cell_z * width,
            beard,
            base_y: self.block_ys[cell_y],
            near: (cell_z * self.corners_y + cell_y) * MAX_INTERP,
            far: ((cell_z + 1) * self.corners_y + cell_y) * MAX_INTERP,
        }
    }

    /// Whether a run may be dropped if its lowest channel is nowhere positive.
    pub fn may_skip(
        &self,
        cell_y: usize,
        beard: bool,
        air_only_above_y: Option<i32>,
        follows_channel: bool,
    ) -> (r: bool)
        requires
            self.well_formed(),
            cell_y < self.cell_count_y,
        ensures
            r == may_skip_run(
                (self.cell_min_y + cell_y) * self.settings.cell_height,
                beard,
                air_only_above_y,
                follows_channel,
            ),
    {
        assert(self.block_ys@[cell_y as int] == (cell_y + self.cell_min_y)
            * self.settings.cell_height);
        match air_only_above_y {
            Some(air_above) => follows_channel && !beard && self.block_ys[cell_y] >= air_above,
            None => false,
        }
    }

    /// The runs that fill the chunk, in order: column by column, and in each
    /// column from the top cell down.
    ///
    /// `beards` says of every column whether a structure's beard reaches it,
    /// and `quiet` of every cell of every column whether the channel that the
    /// density follows is nowhere positive in it.
    pub fn fill(
        &self,
        beards: &Vec<bool>,
        quiet: &Vec<bool>,
        air_only_above_y: Option<i32>,
        follows_channel: bool,
    ) -> (r: Vec<BlockRun>)
        requires
            self.well_formed(),
            beards@.len() == self.columns(),
            quiet@.len() == self.columns() * self.cell_count_y,
        ensures
            r@ == chunk_runs(
                *self,
                RunChoice {
                    beards: beards@,
                    quiet: quiet@,
                    air_only_above_y,
                    follows_channel,
                },
                self.columns(),
            ),
    {
        let ghost choice = RunChoice {
            beards: beards@,
            quiet: quiet@,
            air_only_above_y,
            follows_channel,
        };
        let mut runs: Vec<BlockRun> = Vec::new();
        let mut k: usize = 0;
        while k < beards.len()
            invariant
                self.well_formed(),
                beards@.len() == self.columns(),
                quiet@.len() == self.columns() * self.cell_count_y,
                choice == (RunChoice {
                    beards: beards@,
                    quiet: quiet@,
                    air_only_above_y,
                    follows_channel,
                }),
                k <= beards@.len(),
                runs@ == chunk_runs(*self, choice, k as int),
            decreases beards@.len() - k,
        {
            let beard: bool = beards[k];
            let ghost before = runs@;
            let mut done: usize = 0;
            assert(before + column_runs(*self, choice, k as int, 0) =~= before);
            while done < self.cell_count_y
                invariant
                    self.well_formed(),
                    beards@.len() == self.columns(),
                    quiet@.len() == self.columns() * self.cell_count_y,
                    choice == (RunChoice {
                        beards: beards@,
                        quiet: quiet@,
                        air_only_above_y,
                        follows_channel,
                    }),
                    k < beards@.len(),
                    beard == beards@[k as int],
                    done <= self.cell_count_y,
                    runs@ == before + column_runs(*self, choice, k as int, done as int),
                decreases self.cell_count_y - done,
            {
                let cell_y: usize = self.cell_count_y - 1 - done;
                proof {
                    let (j, n, c, y) = (
                        k as int,
                        self.columns(),
                        self.cell_count_y as int,
                        cell_y as int,
                    );
                    assert(0 <= j * c && j * c + y < n * c) by (nonlinear_arith)
                        requires
                            0 <= j < n,
                            0 <= y < c,
                    ;
                    assert(quiet.len() == quiet@.len());
                }
                if self.may_skip(cell_y, beard, air_only_above_y, follows_channel) && quiet[k
                    * self.cell_count_y + cell_y] {
                } else {
                    runs.push(self.run_at(k, cell_y, beard));
                }
                done += 1;
                assert(runs@ =~= before + column_runs(*self, choice, k as int, done as int));
            }
            k += 1;
        }
        runs
    }
}

} // verus!
