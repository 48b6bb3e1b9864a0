//! How a square area is cut into windows, and in which order they are taken.

use crate::pos::ChunkPos;
use std::collections::VecDeque;
use vstd::prelude::*;

verus! {

#[derive(Clone, Copy, Debug, PartialEq, Eq, Structural)]
pub struct PregenWindow {
    pub min_x: i32,
    pub max_x: i32,
    pub min_z: i32,
    pub max_z: i32,
}

#[derive(Clone, Copy, Debug, PartialEq, Eq, Structural)]
pub struct PregenRect {
    pub min_x: i32,
    pub max_x: i32,
    pub min_z: i32,
    pub max_z: i32,
}

/// The rectangles have a chunk in common.
pub open spec fn rects_overlap(a: PregenRect, b: PregenRect) -> bool {
    a.min_x <= b.max_x && a.max_x >= b.min_x && a.min_z <= b.max_z && a.max_z >= b.min_z
}

impl PregenRect {
    pub fn overlaps(self, other: PregenRect) -> (r: bool)
        ensures
            r == rects_overlap(self, other),
    {
        self.min_x <= other.max_x && self.max_x >= other.min_x && self.min_z <= other.max_z
            && self.max_z >= other.min_z
    }
}

impl PregenWindow {
    /// The window is a rectangle whose chunks can be counted.
    pub open spec fn valid(self) -> bool {
        &&& self.min_x <= self.max_x
        &&& self.min_z <= self.max_z
        &&& self.max_x - self.min_x + 1 <= i32::MAX
        &&& self.max_z - self.min_z + 1 <= i32::MAX
        &&& self.area() <= i32::MAX
        &&& self.area() <= usize::MAX
    }

    /// The number of chunks in the window.
    pub open spec fn area(self) -> int {
        (self.max_x - self.min_x + 1) * (self.max_z - self.min_z + 1)
    }

    /// The window grown by the dependency halo stays in range.
    pub open spec fn halo_fits(self, halo: int) -> bool {
        &&& 0 <= halo
        &&& i32::MIN <= self.min_x - halo
        &&& self.max_x + halo <= i32::MAX
        &&& i32::MIN <= self.min_z - halo
        &&& self.max_z + halo <= i32::MAX
    }

    /// The window grown by the dependency halo.
    pub open spec fn grown(self, halo: int) -> PregenRect {
        PregenRect {
            min_x: (self.min_x - halo) as i32,
            max_x: (self.max_x + halo) as i32,
            min_z: (self.min_z - halo) as i32,
            max_z: (self.max_z + halo) as i32,
        }
    }

    /// The chunk at place `i` of the window, row by row.
    pub open spec fn position(self, i: int) -> ChunkPos {
        let width = self.max_x - self.min_x + 1;
        ChunkPos { x: (self.min_x + i % width) as i32, z: (self.min_z + i / width) as i32 }
    }

    pub fn width(self) -> (r: i32)
        requires
            self.valid(),
        ensures
            r == self.max_x - self.min_x + 1,
    {
        self.max_x - self.min_x + 1
    }

    pub fn height(self) -> (r: i32)
        requires
            self.valid(),
        ensures
            r == self.max_z - self.min_z + 1,
    {
        self.max_z - self.min_z + 1
    }

    pub fn chunk_count(self) -> (r: usize)
        requires
            self.valid(),
        ensures
            r == self.area(),
    {
        let width: i32 = self.width();
        let height: i32 = self.height();
        assert(0 <= width * height) by (nonlinear_arith)
            requires
                width >= 1,
                height >= 1,
        ;
        (width * height) as usize
    }

    /// The window's chunks, row by row.
    pub fn positions(self) -> (r: Vec<ChunkPos>)
        requires
            self.valid(),
        ensures
            r@ == Seq::new(self.area() as nat, |i: int| self.position(i)),
    {
        let width: i32 = self.width();
        let height: i32 = self.height();
        let mut positions: Vec<ChunkPos> = Vec::with_capacity(self.chunk_count());
        let mut row: i32 = 0;
        proof {
            assert(0 * width == 0) by (nonlinear_arith);
        }
        while row < height
            invariant
                self.valid(),
                width == self.max_x - self.min_x + 1,
                height == self.max_z - self.min_z + 1,
                0 <= row <= height,
                positions@.len() == row * width,
                forall|i: int| 0 <= i < positions@.len() ==> positions@[i] == self.position(i),
            decreases height - row,
        {
            let mut column: i32 = 0;
            while column < width
                invariant
                    self.valid(),
                    width == self.max_x - self.min_x + 1,
                    height == self.max_z - self.min_z + 1,
                    0 <= row < height,
                    0 <= column <= width,
                    positions@.len() == row * width + column,
                    forall|i: int|
                        0 <= i < positions@.len() ==> positions@[i] == self.position(i),
                decreases width - column,
            {
                let ghost n = positions@.len() as int;
                let x: i32 = self.min_x + column;
                let z: i32 = self.min_z + row;
                proof {
                    vstd::arithmetic::div_mod::lemma_fundamental_div_mod_converse(
                        n,
                        width as int,
                        row as int,
                        column as int,
                    );
                    assert(self.position(n) == (ChunkPos { x, z }));
                }
                positions.push(ChunkPos::new(x, z));
                column += 1;
            }
            proof {
                assert((row + 1) * width == row * width + width) by (nonlinear_arith);
            }
            row += 1;
        }
        proof {
            assert(height * width == width * height) by (nonlinear_arith);
        }
        assert(positions@ =~= Seq::new(self.area() as nat, |i: int| self.position(i)));
        positions
    }

    pub fn protected_rect(self, halo: i32) -> (r: PregenRect)
        requires
            self.halo_fits(halo as int),
        ensures
            r == self.grown(halo as int),
    {
        PregenRect {
            min_x: self.min_x - halo,
            max_x: self.max_x + halo,
            min_z: self.min_z - halo,
            max_z: self.max_z + halo,
        }
    }
}

// ---------------------------------------------------------------------------
// Ranges
// ---------------------------------------------------------------------------
/// A run of chunks along one axis, both ends included.
pub type Range = (i32, i32);

/// The ranges that cover `start` to `max` in steps of `size`.
pub open spec fn ranges_from(start: int, max: int, size: int) -> Seq<Range>
    decreases max - start + 1,
{
    if size < 1 || start > max {
        Seq::empty()
    } else {
        let end = if start + size - 1 <= max {
            start + size - 1
        } else {
            max
        };
        seq![(start as i32, end as i32)] + ranges_from(end + 1, max, size)
    }
}

/// Cuts an axis into ranges of `window_size`, the last one possibly shorter.
pub fn pregen_window_ranges(min: i32, max: i32, window_size: i32) -> (r: Vec<Range>)
    requires
        window_size >= 1,
        max < i32::MAX,
    ensures
        r@ == ranges_from(min as int, max as int, window_size as int),
{
    let mut ranges: Vec<Range> = Vec::new();
    let mut start: i32 = min;
    assert(ranges@ + ranges_from(min as int, max as int, window_size as int) == ranges_from(
        min as int,
        max as int,
        window_size as int,
    ));
    while start <= max
        invariant
            window_size >= 1,
            max < i32::MAX,
            start <= max + 1 || start == min,
            ranges@ + ranges_from(start as int, max as int, window_size as int) == ranges_from(
                min as int,
                max as int,
                window_size as int,
            ),
        decreases max - start + 1,
    {
        let reach: i64 = start as i64 + (window_size as i64 - 1);
        let end: i32 = if reach <= max as i64 {
            reach as i32
        } else {
            max
        };
        let ghost before = ranges@;
        ranges.push((start, end));
        proof {
            let rest = ranges_from(end + 1, max as int, window_size as int);
            assert(ranges_from(start as int, max as int, window_size as int) == seq![
                (start, end),
            ] + rest);
            assert(before + (seq![(start, end)] + rest) == before.push((start, end)) + rest);
        }
        start = end + 1;
    }
    assert(ranges@ + Seq::<Range>::empty() == ranges@);
    ranges
}

// ---------------------------------------------------------------------------
// Window order
// ---------------------------------------------------------------------------
pub open spec fn window_at(x: Range, z: Range) -> PregenWindow {
    PregenWindow { min_x: x.0, max_x: x.1, min_z: z.0, max_z: z.1 }
}

/// The windows of one column of a strip.
pub open spec fn column(x: Range, rows: Seq<Range>) -> Seq<PregenWindow> {
    Seq::new(rows.len(), |k: int| window_at(x, rows[k]))
}

/// The windows of the first `n` columns of a strip.
pub open spec fn strip_columns(xs: Seq<Range>, rows: Seq<Range>, n: nat) -> Seq<PregenWindow>
    decreases n,
{
    if n == 0 {
        Seq::empty()
    } else {
        strip_columns(xs, rows, (n - 1) as nat) + column(xs[n - 1], rows)
    }
}

/// The columns of strip `s` in the order they are taken: there and back.
pub open spec fn column_order(xs: Seq<Range>, s: int) -> Seq<Range> {
    if s % 2 == 0 {
        xs
    } else {
        xs.reverse()
    }
}

/// The rows of strip `s`: two, or one at the end.
pub open spec fn strip_rows(zs: Seq<Range>, s: int) -> Seq<Range> {
    zs.subrange(2 * s, if 2 * s + 2 <= zs.len() { 2 * s + 2 } else { zs.len() as int })
}

/// The windows of the first `n` strips.
pub open spec fn strips(xs: Seq<Range>, zs: Seq<Range>, n: nat) -> Seq<PregenWindow>
    decreases n,
{
    if n == 0 {
        Seq::empty()
    } else {
        strips(xs, zs, (n - 1) as nat) + strip_columns(
            column_order(xs, n - 1),
            strip_rows(zs, n - 1),
            xs.len(),
        )
    }
}

/// How many strips of two rows there are.
pub open spec fn strip_count(rows: nat) -> nat {
    (rows + 1) / 2
}

/// The windows of the square of the given radius, in a two-row serpentine.
pub open spec fn serpentine(center: ChunkPos, radius: int, window_size: int) -> Seq<PregenWindow> {
    let xs = ranges_from(center.x - radius, center.x + radius, window_size);
    let zs = ranges_from(center.z - radius, center.z + radius, window_size);
    strips(xs, zs, strip_count(zs.len()))
}

/// The square around the center stays in range.
pub open spec fn square_fits(center: ChunkPos, radius: int) -> bool {
    &&& 0 <= radius
    &&& i32::MIN <= center.x - radius
    &&& center.x + radius < i32::MAX
    &&& i32::MIN <= center.z - radius
    &&& center.z + radius < i32::MAX
}

/// Cuts the square around a center into windows.
///
/// A two-row serpentine keeps the bounded active set spatially local while
/// reusing one of every two dependency boundaries between window rows.
pub fn build_pregen_windows(center_chunk: ChunkPos, radius: i32, window_size: i32) -> (r: VecDeque<
    PregenWindow,
>)
    requires
        square_fits(center_chunk, radius as int),
        window_size >= 1,
    ensures
        r@ == serpentine(center_chunk, radius as int, window_size as int),
{
    let x_ranges = pregen_window_ranges(
        center_chunk.x - radius,
        center_chunk.x + radius,
        window_size,
    );
    let z_ranges = pregen_window_ranges(
        center_chunk.z - radius,
        center_chunk.z + radius,
        window_size,
    );
    let ghost xs = x_ranges@;
    let ghost zs = z_ranges@;
    let mut windows: VecDeque<PregenWindow> = VecDeque::new();
    let mut row: usize = 0;
    let mut strip: usize = 0;
    assert(windows@ == strips(xs, zs, 0));
    while row < z_ranges.len()
        invariant
            xs == x_ranges@,
            zs == z_ranges@,
            strip <= strip_count(zs.len()),
            row == if 2 * strip <= zs.len() {
                2 * strip
            } else {
                zs.len() as int
            },
            windows@ == strips(xs, zs, strip as nat),
        decreases zs.len() - row,
    {
        let end: usize = if z_ranges.len() - row >= 2 {
            row + 2
        } else {
            z_ranges.len()
        };
        let ghost rows = strip_rows(zs, strip as int);
        let ghost order = column_order(xs, strip as int);
        assert(rows == zs.subrange(row as int, end as int));
        let ghost before = windows@;
        let mut c: usize = 0;
        assert(before + strip_columns(order, rows, 0) == before);
        while c < x_ranges.len()
            invariant
                c <= xs.len(),
                xs == x_ranges@,
                zs == z_ranges@,
                order == column_order(xs, strip as int),
                rows == zs.subrange(row as int, end as int),
                row < end <= zs.len(),
                windows@ == before + strip_columns(order, rows, c as nat),
            decreases xs.len() - c,
        {
            let x = if strip % 2 == 0 {
                x_ranges[c]
            } else {
                x_ranges[x_ranges.len() - 1 - c]
            };
            assert(x == order[c as int]);
            let ghost taken = windows@;
            let mut k: usize = row;
            assert(taken + column(x, rows).subrange(0, 0) == taken);
            while k < end
                invariant
                    row <= k <= end <= zs.len(),
                    zs == z_ranges@,
                    rows == zs.subrange(row as int, end as int),
                    windows@ == taken + column(x, rows).subrange(0, k - row),
                decreases end - k,
            {
                let z = z_ranges[k];
                windows.push_back(
                    PregenWindow { min_x: x.0, max_x: x.1, min_z: z.0, max_z: z.1 },
                );
                assert(rows[k - row] == z);
                assert(column(x, rows).subrange(0, k + 1 - row) == column(x, rows).subrange(
                    0,
                    k - row,
                ).push(window_at(x, z)));
                k += 1;
                assert(windows@ == taken + column(x, rows).subrange(0, k - row));
            }
            proof {
                assert(column(x, rows).subrange(0, end - row) == column(x, rows));
                assert(windows@ == before + (strip_columns(order, rows, c as nat) + column(
                    x,
                    rows,
                )));
            }
            c += 1;
        }
        row = end;
        strip += 1;
    }
    windows
}

// ---------------------------------------------------------------------------
// Laws
// ---------------------------------------------------------------------------
/// The sum of a weight over ranges.
pub open spec fn range_sum(ranges: Seq<Range>, weight: spec_fn(Range) -> int) -> int
    decreases ranges.len(),
{
    if ranges.len() == 0 {
        0
    } else {
        range_sum(ranges.drop_last(), weight) + weight(ranges.last())
    }
}

/// The sum over windows of the product of a weight of each side.
pub open spec fn window_sum(
    windows: Seq<PregenWindow>,
    wide: spec_fn(Range) -> int,
    deep: spec_fn(Range) -> int,
) -> int
    decreases windows.len(),
{
    if windows.len() == 0 {
        0
    } else {
        let w = windows.last();
        window_sum(windows.drop_last(), wide, deep) + wide((w.min_x, w.max_x)) * deep(
            (w.min_z, w.max_z),
        )
    }
}

proof fn lemma_window_sum_append(
    a: Seq<PregenWindow>,
    b: Seq<PregenWindow>,
    wide: spec_fn(Range) -> int,
    deep: spec_fn(Range) -> int,
)
    ensures
        window_sum(a + b, wide, deep) == window_sum(a, wide, deep) + window_sum(b, wide, deep),
    decreases b.len(),
{
    if b.len() == 0 {
        assert(a + b == a);
    } else {
        assert((a + b).drop_last() == a + b.drop_last());
        assert((a + b).last() == b.last());
        lemma_window_sum_append(a, b.drop_last(), wide, deep);
    }
}

proof fn lemma_column_sum(
    x: Range,
    rows: Seq<Range>,
    wide: spec_fn(Range) -> int,
    deep: spec_fn(Range) -> int,
)
    ensures
        window_sum(column(x, rows), wide, deep) == wide(x) * range_sum(rows, deep),
    decreases rows.len(),
{
    if rows.len() == 0 {
        assert(wide(x) * 0 == 0) by (nonlinear_arith);
    } else {
        let all = column(x, rows);
        assert(all.drop_last() == column(x, rows.drop_last()));
        let w = all.last();
        assert((w.min_x, w.max_x) == x);
        assert((w.min_z, w.max_z) == rows.last());
        lemma_column_sum(x, rows.drop_last(), wide, deep);
        let a = wide(x);
        let b = range_sum(rows.drop_last(), deep);
        let c = deep(rows.last());
        assert(a * (b + c) == a * b + a * c) by (nonlinear_arith);
    }
}

proof fn lemma_strip_sum(
    xs: Seq<Range>,
    rows: Seq<Range>,
    n: nat,
    wide: spec_fn(Range) -> int,
    deep: spec_fn(Range) -> int,
)
    requires
        n <= xs.len(),
    ensures
        window_sum(strip_columns(xs, rows, n), wide, deep) == range_sum(
            xs.subrange(0, n as int),
            wide,
        ) * range_sum(rows, deep),
    decreases n,
{
    let height = range_sum(rows, deep);
    if n == 0 {
        assert(range_sum(xs.subrange(0, 0), wide) == 0);
        assert(0 * height == 0) by (nonlinear_arith);
    } else {
        let m = (n - 1) as nat;
        lemma_strip_sum(xs, rows, m, wide, deep);
        lemma_window_sum_append(
            strip_columns(xs, rows, m),
            column(xs[n - 1], rows),
            wide,
            deep,
        );
        lemma_column_sum(xs[n - 1], rows, wide, deep);
        let longer = xs.subrange(0, n as int);
        assert(longer.drop_last() == xs.subrange(0, m as int));
        assert(longer.last() == xs[n - 1]);
        let a = range_sum(xs.subrange(0, m as int), wide);
        let b = wide(xs[n - 1]);
        assert((a + b) * height == a * height + b * height) by (nonlinear_arith);
    }
}

proof fn lemma_range_sum_append(a: Seq<Range>, b: Seq<Range>, weight: spec_fn(Range) -> int)
    ensures
        range_sum(a + b, weight) == range_sum(a, weight) + range_sum(b, weight),
    decreases b.len(),
{
    if b.len() == 0 {
        assert(a + b == a);
    } else {
        assert((a + b).drop_last() == a + b.drop_last());
        assert((a + b).last() == b.last());
        lemma_range_sum_append(a, b.drop_last(), weight);
    }
}

proof fn lemma_range_sum_reverse(a: Seq<Range>, weight: spec_fn(Range) -> int)
    ensures
        range_sum(a.reverse(), weight) == range_sum(a, weight),
    decreases a.len(),
{
    if a.len() > 0 {
        let rest = a.drop_last();
        assert(a.reverse() == seq![a.last()] + rest.reverse());
        lemma_range_sum_append(seq![a.last()], rest.reverse(), weight);
        lemma_range_sum_reverse(rest, weight);
        let one = seq![a.last()];
        assert(one.drop_last() == Seq::<Range>::empty());
        assert(range_sum(one, weight) == range_sum(one.drop_last(), weight) + weight(one.last()));
    }
}

proof fn lemma_strips_sum(
    xs: Seq<Range>,
    zs: Seq<Range>,
    n: nat,
    wide: spec_fn(Range) -> int,
    deep: spec_fn(Range) -> int,
)
    requires
        n <= strip_count(zs.len()),
    ensures
        window_sum(strips(xs, zs, n), wide, deep) == range_sum(xs, wide) * range_sum(
            zs.subrange(0, if 2 * n <= zs.len() { 2 * n as int } else { zs.len() as int }),
            deep,
        ),
    decreases n,
{
    let width = range_sum(xs, wide);
    if n == 0 {
        assert(range_sum(zs.subrange(0, 0), deep) == 0);
        assert(width * 0 == 0) by (nonlinear_arith);
    } else {
        let m = (n - 1) as nat;
        let order = column_order(xs, m as int);
        let rows = strip_rows(zs, m as int);
        let end = if 2 * n <= zs.len() {
            2 * n as int
        } else {
            zs.len() as int
        };
        lemma_strips_sum(xs, zs, m, wide, deep);
        lemma_window_sum_append(
            strips(xs, zs, m),
            strip_columns(order, rows, xs.len()),
            wide,
            deep,
        );
        lemma_strip_sum(order, rows, xs.len(), wide, deep);
        assert(order.subrange(0, xs.len() as int) == order);
        lemma_range_sum_reverse(xs, wide);
        assert(zs.subrange(0, 2 * m as int) + rows == zs.subrange(0, end));
        lemma_range_sum_append(zs.subrange(0, 2 * m as int), rows, deep);
        let a = range_sum(zs.subrange(0, 2 * m as int), deep);
        let b = range_sum(rows, deep);
        assert(width * (a + b) == width * a + width * b) by (nonlinear_arith);
    }
}

/// The length of a range.
pub open spec fn range_length(r: Range) -> int {
    r.1 - r.0 + 1
}

/// One where the coordinate lies in the range, else zero.
pub open spec fn holds_at(r: Range, at: int) -> int {
    if r.0 <= at <= r.1 {
        1
    } else {
        0
    }
}

proof fn lemma_ranges(start: int, max: int, size: int, at: int)
    requires
        size >= 1,
        i32::MIN <= start,
        max < i32::MAX,
        start <= max + 1,
    ensures
        range_sum(ranges_from(start, max, size), |r: Range| range_length(r)) == max - start + 1,
        range_sum(ranges_from(start, max, size), |r: Range| holds_at(r, at)) == (if start <= at
            <= max {
            1int
        } else {
            0int
        }),
    decreases max - start + 1,
{
    let length = |r: Range| range_length(r);
    let held = |r: Range| holds_at(r, at);
    if start <= max {
        let end = if start + size - 1 <= max {
            start + size - 1
        } else {
            max
        };
        let one: Seq<Range> = seq![(start as i32, end as i32)];
        let rest = ranges_from(end + 1, max, size);
        lemma_ranges(end + 1, max, size, at);
        lemma_range_sum_append(one, rest, length);
        lemma_range_sum_append(one, rest, held);
        assert(one.drop_last() == Seq::<Range>::empty());
        assert(range_sum(one, length) == range_sum(one.drop_last(), length) + length(one.last()));
        assert(range_sum(one, held) == range_sum(one.drop_last(), held) + held(one.last()));
        assert(range_sum(Seq::<Range>::empty(), length) == 0);
        assert(range_sum(Seq::<Range>::empty(), held) == 0);
    }
}

/// The number of chunks in the windows.
pub open spec fn area_sum(windows: Seq<PregenWindow>) -> int {
    window_sum(windows, |r: Range| range_length(r), |r: Range| range_length(r))
}

/// How many of the windows hold a chunk.
pub open spec fn holders_of(windows: Seq<PregenWindow>, x: int, z: int) -> int {
    window_sum(windows, |r: Range| holds_at(r, x), |r: Range| holds_at(r, z))
}

/// The windows hold every chunk of the square exactly once and no other chunk,
/// and together as many chunks as the square.
pub proof fn the_windows_partition_the_square(
    center: ChunkPos,
    radius: int,
    window_size: int,
    x: int,
    z: int,
)
    requires
        square_fits(center, radius),
        window_size >= 1,
    ensures
        holders_of(serpentine(center, radius, window_size), x, z) == (if center.x - radius <= x
            <= center.x + radius && center.z - radius <= z <= center.z + radius {
            1int
        } else {
            0int
        }),
        area_sum(serpentine(center, radius, window_size)) == (2 * radius + 1) * (2 * radius + 1),
{
    let xs = ranges_from(center.x - radius, center.x + radius, window_size);
    let zs = ranges_from(center.z - radius, center.z + radius, window_size);
    let n = strip_count(zs.len());
    lemma_ranges(center.x - radius, center.x + radius, window_size, x);
    lemma_ranges(center.z - radius, center.z + radius, window_size, z);
    assert(zs.subrange(0, zs.len() as int) == zs);
    lemma_strips_sum(xs, zs, n, |r: Range| range_length(r), |r: Range| range_length(r));
    lemma_strips_sum(xs, zs, n, |r: Range| holds_at(r, x), |r: Range| holds_at(r, z));
}

/// No more than one step apart along each axis.
pub open spec fn touching(a: PregenWindow, b: PregenWindow) -> bool {
    &&& a.min_x <= b.max_x + 1
    &&& b.min_x <= a.max_x + 1
    &&& a.min_z <= b.max_z + 1
    &&& b.min_z <= a.max_z + 1
}

/// Each window touches the next.
pub open spec fn chained(windows: Seq<PregenWindow>) -> bool {
    forall|i: int, j: int|
        #![trigger windows[i], windows[j]]
        0 <= i && j == i + 1 && j < windows.len() ==> touching(windows[i], windows[j])
}

/// Non-empty ranges within bounds and of at most `size`, each starting where
/// the one before it ends.
pub open spec fn tiled(ranges: Seq<Range>, start: int, max: int, size: int) -> bool {
    &&& forall|i: int|
        0 <= i < ranges.len() ==> start <= (#[trigger] ranges[i]).0 <= ranges[i].1 <= max
            && ranges[i].1 - ranges[i].0 + 1 <= size
    &&& forall|i: int, j: int|
        #![trigger ranges[i], ranges[j]]
        0 <= i && j == i + 1 && j < ranges.len() ==> ranges[i].1 + 1 == ranges[j].0
    &&& ranges.len() > 0 ==> ranges[0].0 == start
}

proof fn lemma_tiled(start: int, max: int, size: int)
    requires
        size >= 1,
        i32::MIN <= start,
        max < i32::MAX,
    ensures
        tiled(ranges_from(start, max, size), start, max, size),
        start <= max ==> ranges_from(start, max, size).len() > 0,
    decreases max - start + 1,
{
    if start <= max {
        let end = if start + size - 1 <= max {
            start + size - 1
        } else {
            max
        };
        lemma_tiled(end + 1, max, size);
        let rest = ranges_from(end + 1, max, size);
        let all = ranges_from(start, max, size);
        assert forall|i: int, j: int|
            #![trigger all[i], all[j]]
            0 <= i && j == i + 1 && j < all.len() implies all[i].1 + 1 == all[j].0 by {
            assert(all[j] == rest[j - 1]);
            if i > 0 {
                assert(all[i] == rest[i - 1]);
            }
        }
        assert forall|i: int| 0 <= i < all.len() implies start <= (#[trigger] all[i]).0 <= all[i].1
            <= max && all[i].1 - all[i].0 + 1 <= size by {
            if i > 0 {
                assert(all[i] == rest[i - 1]);
            }
        }
    }
}

proof fn lemma_chain_append(a: Seq<PregenWindow>, b: Seq<PregenWindow>)
    requires
        chained(a),
        chained(b),
        a.len() > 0 && b.len() > 0 ==> touching(a.last(), b[0]),
    ensures
        chained(a + b),
{
    let all = a + b;
    assert forall|i: int, j: int|
        #![trigger all[i], all[j]]
        0 <= i && j == i + 1 && j < all.len() implies touching(all[i], all[j]) by {
        if j < a.len() {
            assert(all[i] == a[i] && all[j] == a[j]);
        } else if i >= a.len() {
            assert(all[i] == b[i - a.len()] && all[j] == b[j - a.len()]);
        } else {
            assert(all[i] == a.last() && all[j] == b[0]);
        }
    }
}

/// One or two adjacent rows.
spec fn strip_like(rows: Seq<Range>) -> bool {
    &&& 1 <= rows.len() <= 2
    &&& rows[0].0 <= rows[0].1
    &&& rows.len() == 2 ==> rows[1].0 <= rows[1].1 && rows[0].1 + 1 == rows[1].0
}

/// Columns that each touch the next.
spec fn columns_touch(xs: Seq<Range>) -> bool {
    &&& forall|i: int| 0 <= i < xs.len() ==> (#[trigger] xs[i]).0 <= xs[i].1
    &&& forall|i: int, j: int|
        #![trigger xs[i], xs[j]]
        0 <= i && j == i + 1 && j < xs.len() ==> xs[i].0 <= xs[j].1 + 1 && xs[j].0 <= xs[i].1 + 1
}

proof fn lemma_strip_chain(xs: Seq<Range>, rows: Seq<Range>, n: nat)
    requires
        strip_like(rows),
        columns_touch(xs),
        n <= xs.len(),
    ensures
        chained(strip_columns(xs, rows, n)),
        n > 0 ==> strip_columns(xs, rows, n).len() > 0,
        n > 0 ==> strip_columns(xs, rows, n).last() == window_at(xs[n - 1], rows.last()),
        n > 0 ==> strip_columns(xs, rows, n)[0] == window_at(xs[0], rows[0]),
    decreases n,
{
    if n > 0 {
        let m = (n - 1) as nat;
        lemma_strip_chain(xs, rows, m);
        let before = strip_columns(xs, rows, m);
        let next = column(xs[n - 1], rows);
        assert(xs[n - 1].0 <= xs[n - 1].1);
        assert(chained(next));
        if m > 0 {
            assert(xs[m - 1].0 <= xs[m as int].1 + 1 && xs[m as int].0 <= xs[m - 1].1 + 1);
        }
        lemma_chain_append(before, next);
        if m == 0 {
            assert(before + next == next);
        }
    }
}

proof fn lemma_strips_chain(
    xs: Seq<Range>,
    zs: Seq<Range>,
    n: nat,
    low: int,
    high: int,
    size: int,
    x_low: int,
    x_high: int,
)
    requires
        tiled(xs, x_low, x_high, size),
        tiled(zs, low, high, size),
        xs.len() > 0,
        n <= strip_count(zs.len()),
    ensures
        chained(strips(xs, zs, n)),
        n > 0 ==> strips(xs, zs, n).len() > 0,
        n > 0 ==> strips(xs, zs, n).last() == window_at(
            column_order(xs, n - 1).last(),
            strip_rows(zs, n - 1).last(),
        ),
    decreases n,
{
    if n > 0 {
        let m = (n - 1) as nat;
        lemma_strips_chain(xs, zs, m, low, high, size, x_low, x_high);
        let order = column_order(xs, m as int);
        let rows = strip_rows(zs, m as int);
        assert(strip_like(rows)) by {
            assert(rows[0] == zs[2 * m as int]);
            if rows.len() == 2 {
                assert(rows[1] == zs[2 * m as int + 1]);
                assert(zs[2 * m as int].1 + 1 == zs[2 * m as int + 1].0);
            }
        }
        assert(columns_touch(order)) by {
            assert forall|i: int, j: int|
                #![trigger order[i], order[j]]
                0 <= i && j == i + 1 && j < order.len() implies order[i].0 <= order[j].1 + 1
                && order[j].0 <= order[i].1 + 1 by {
                if m % 2 == 0 {
                    assert(xs[i].1 + 1 == xs[j].0);
                } else {
                    let a = xs.len() - 1 - j;
                    assert(order[i] == xs[a + 1]);
                    assert(order[j] == xs[a]);
                    assert(xs[a].1 + 1 == xs[a + 1].0);
                }
            }
        }
        lemma_strip_chain(order, rows, xs.len());
        let before = strips(xs, zs, m);
        let next = strip_columns(order, rows, xs.len());
        if m > 0 {
            let above = strip_rows(zs, m - 1);
            assert(above.last() == zs[2 * m - 1]);
            assert(rows[0] == zs[2 * m as int]);
            assert(zs[2 * m - 1].1 + 1 == zs[2 * m as int].0);
            assert(column_order(xs, m - 1).last() == order[0]);
        }
        lemma_chain_append(before, next);
    }
}

/// Consecutive windows touch: they share an edge or a corner.
pub proof fn consecutive_windows_touch(center: ChunkPos, radius: int, window_size: int, i: int)
    requires
        square_fits(center, radius),
        window_size >= 1,
        0 <= i < serpentine(center, radius, window_size).len() - 1,
    ensures
        touching(
            serpentine(center, radius, window_size)[i],
            serpentine(center, radius, window_size)[i + 1],
        ),
{
    let xs = ranges_from(center.x - radius, center.x + radius, window_size);
    let zs = ranges_from(center.z - radius, center.z + radius, window_size);
    lemma_tiled(center.x - radius, center.x + radius, window_size);
    lemma_tiled(center.z - radius, center.z + radius, window_size);
    lemma_strips_chain(
        xs,
        zs,
        strip_count(zs.len()),
        center.z - radius,
        center.z + radius,
        window_size,
        center.x - radius,
        center.x + radius,
    );
    let windows = serpentine(center, radius, window_size);
    assert(touching(windows[i], windows[i + 1]));
}

/// The dependency areas of consecutive windows overlap, for every halo of at
/// least one chunk: the order keeps the active set local.
pub proof fn consecutive_windows_are_local(
    center: ChunkPos,
    radius: int,
    window_size: int,
    halo: int,
    i: int,
)
    requires
        square_fits(center, radius),
        window_size >= 1,
        halo >= 1,
        0 <= i < serpentine(center, radius, window_size).len() - 1,
        serpentine(center, radius, window_size)[i].halo_fits(halo),
        serpentine(center, radius, window_size)[i + 1].halo_fits(halo),
    ensures
        rects_overlap(
            serpentine(center, radius, window_size)[i].grown(halo),
            serpentine(center, radius, window_size)[i + 1].grown(halo),
        ),
{
    consecutive_windows_touch(center, radius, window_size, i);
}

/// A window of the square, with sides of at most the window size.
pub open spec fn window_in(
    window: PregenWindow,
    center: ChunkPos,
    radius: int,
    window_size: int,
) -> bool {
    &&& center.x - radius <= window.min_x <= window.max_x <= center.x + radius
    &&& center.z - radius <= window.min_z <= window.max_z <= center.z + radius
    &&& window.max_x - window.min_x + 1 <= window_size
    &&& window.max_z - window.min_z + 1 <= window_size
}

proof fn lemma_strip_members(xs: Seq<Range>, rows: Seq<Range>, n: nat, i: int) -> (at: (int, int))
    requires
        n <= xs.len(),
        0 <= i < strip_columns(xs, rows, n).len(),
    ensures
        0 <= at.0 < xs.len(),
        0 <= at.1 < rows.len(),
        strip_columns(xs, rows, n)[i] == window_at(xs[at.0], rows[at.1]),
    decreases n,
{
    let before = strip_columns(xs, rows, (n - 1) as nat);
    if i < before.len() {
        lemma_strip_members(xs, rows, (n - 1) as nat, i)
    } else {
        (n - 1, i - before.len())
    }
}

proof fn lemma_strips_members(xs: Seq<Range>, zs: Seq<Range>, n: nat, i: int) -> (at: (int, int))
    requires
        n <= strip_count(zs.len()),
        0 <= i < strips(xs, zs, n).len(),
    ensures
        0 <= at.0 < xs.len(),
        0 <= at.1 < zs.len(),
        strips(xs, zs, n)[i] == window_at(xs[at.0], zs[at.1]),
    decreases n,
{
    let m = (n - 1) as nat;
    let before = strips(xs, zs, m);
    if i < before.len() {
        lemma_strips_members(xs, zs, m, i)
    } else {
        let order = column_order(xs, m as int);
        let rows = strip_rows(zs, m as int);
        let at = lemma_strip_members(order, rows, xs.len(), i - before.len());
        let x = if m % 2 == 0 {
            at.0
        } else {
            xs.len() - 1 - at.0
        };
        assert(order[at.0] == xs[x]);
        assert(rows[at.1] == zs[2 * m + at.1]);
        (x, 2 * m + at.1)
    }
}

/// Every window lies in the square and is no larger than the window size.
pub proof fn every_window_lies_in_the_square(
    center: ChunkPos,
    radius: int,
    window_size: int,
    i: int,
)
    requires
        square_fits(center, radius),
        window_size >= 1,
        0 <= i < serpentine(center, radius, window_size).len(),
    ensures
        window_in(
            serpentine(center, radius, window_size)[i],
            center,
            radius,
            window_size,
        ),
{
    let xs = ranges_from(center.x - radius, center.x + radius, window_size);
    let zs = ranges_from(center.z - radius, center.z + radius, window_size);
    lemma_tiled(center.x - radius, center.x + radius, window_size);
    lemma_tiled(center.z - radius, center.z + radius, window_size);
    let at = lemma_strips_members(xs, zs, strip_count(zs.len()), i);
    assert(xs[at.0].0 <= xs[at.0].1);
    assert(zs[at.1].0 <= zs[at.1].1);
}

} // verus!
