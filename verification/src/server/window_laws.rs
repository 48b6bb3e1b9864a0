//! What holds of the windows of a pregeneration pass, chunk by chunk.

use crate::pos::ChunkPos;
use crate::server::windows;
use crate::server::windows::{PregenRect, PregenWindow};
use vstd::prelude::*;

verus! {

/// A chunk lies in a rectangle.
pub open spec fn lies_in(rect: PregenRect, x: int, z: int) -> bool {
    rect.min_x <= x <= rect.max_x && rect.min_z <= z <= rect.max_z
}

/// A chunk is one of a window's.
pub open spec fn holds(window: PregenWindow, x: int, z: int) -> bool {
    window.min_x <= x <= window.max_x && window.min_z <= z <= window.max_z
}

/// Two rectangles overlap exactly where some chunk lies in both.
pub proof fn overlapping_rects_share_a_chunk(a: PregenRect, b: PregenRect)
    requires
        a.min_x <= a.max_x,
        a.min_z <= a.max_z,
        b.min_x <= b.max_x,
        b.min_z <= b.max_z,
    ensures
        windows::rects_overlap(a, b) <==> exists|x: int, z: int| #[trigger]
            lies_in(a, x, z) && lies_in(b, x, z),
{
    if windows::rects_overlap(a, b) {
        let x: int = if a.min_x >= b.min_x {
            a.min_x as int
        } else {
            b.min_x as int
        };
        let z: int = if a.min_z >= b.min_z {
            a.min_z as int
        } else {
            b.min_z as int
        };
        assert(lies_in(a, x, z) && lies_in(b, x, z));
    }
}

/// The grown rectangle holds exactly the chunks that are no farther than the
/// halo from some chunk of the window, along either axis.
pub proof fn the_halo_reaches_all_around(window: PregenWindow, halo: int, x: int, z: int)
    requires
        window.min_x <= window.max_x,
        window.min_z <= window.max_z,
        window.halo_fits(halo),
    ensures
        lies_in(window.grown(halo), x, z) <==> exists|u: int, v: int|
            {
                &&& #[trigger] holds(window, u, v)
                &&& -halo <= x - u <= halo
                &&& -halo <= z - v <= halo
            },
{
    if lies_in(window.grown(halo), x, z) {
        let u: int = if x < window.min_x {
            window.min_x as int
        } else if x > window.max_x {
            window.max_x as int
        } else {
            x
        };
        let v: int = if z < window.min_z {
            window.min_z as int
        } else if z > window.max_z {
            window.max_z as int
        } else {
            z
        };
        assert(holds(window, u, v));
    }
}

/// A chunk is no farther than the halo from a window, along either axis.
pub open spec fn near(window: PregenWindow, halo: int, x: int, z: int) -> bool {
    &&& window.min_x - halo <= x <= window.max_x + halo
    &&& window.min_z - halo <= z <= window.max_z + halo
}

/// Where two grown windows overlap, some chunk is near both.
pub proof fn lemma_shared_surroundings(a: PregenWindow, b: PregenWindow, halo: int) -> (shared: (
    int,
    int,
))
    requires
        a.valid(),
        b.valid(),
        a.halo_fits(halo),
        b.halo_fits(halo),
        windows::rects_overlap(a.grown(halo), b.grown(halo)),
    ensures
        near(a, halo, shared.0, shared.1),
        near(b, halo, shared.0, shared.1),
{
    overlapping_rects_share_a_chunk(a.grown(halo), b.grown(halo));
    choose|x: int, z: int| #[trigger]
        lies_in(a.grown(halo), x, z) && lies_in(b.grown(halo), x, z)
}

/// The chunks of a window are walked row by row from its least corner: the
/// chunk at any place is that many chunks on, and every chunk of the window
/// has its turn.
pub proof fn a_window_is_walked_row_by_row(window: PregenWindow, x: int, z: int)
    requires
        window.valid(),
        holds(window, x, z),
    ensures
        ({
            let at = (z - window.min_z) * (window.max_x - window.min_x + 1) + (x - window.min_x);
            &&& 0 <= at < window.area()
            &&& window.position(at) == (ChunkPos { x: x as i32, z: z as i32 })
        }),
{
    let width = window.max_x - window.min_x + 1;
    let height = window.max_z - window.min_z + 1;
    let row = z - window.min_z;
    let across = x - window.min_x;
    let at = row * width + across;
    assert(0 <= at < width * height) by (nonlinear_arith)
        requires
            at == row * width + across,
            0 <= across < width,
            0 <= row < height,
    ;
    vstd::arithmetic::div_mod::lemma_fundamental_div_mod_converse(at, width, row, across);
}

/// Every window but the last along either axis has the full side: the first
/// stands at the least corner, and windows beyond it start one side farther.
pub proof fn ranges_step_by_the_side(start: int, max: int, size: int, i: int)
    requires
        i32::MIN <= start,
        max <= i32::MAX,
        size >= 1,
        0 <= i < windows::ranges_from(start, max, size).len(),
    ensures
        ({
            let range = windows::ranges_from(start, max, size)[i];
            &&& range.0 == start + i * size
            &&& range.1 == (if start + (i + 1) * size - 1 <= max {
                start + (i + 1) * size - 1
            } else {
                max
            })
            &&& i < windows::ranges_from(start, max, size).len() - 1 ==> range.1 - range.0 + 1
                == size
        }),
        windows::ranges_from(start, max, size).last().1 == max,
    decreases max - start + 1,
{
    let end = if start + size - 1 <= max {
        start + size - 1
    } else {
        max
    };
    let rest = windows::ranges_from(end + 1, max, size);
    let all = windows::ranges_from(start, max, size);
    assert(all =~= seq![(start as i32, end as i32)] + rest);
    if i > 0 {
        ranges_step_by_the_side(end + 1, max, size, i - 1);
        assert(all[i] == rest[i - 1]);
        assert(start + size + (i - 1) * size == start + i * size) by (nonlinear_arith);
        assert(start + size + i * size == start + (i + 1) * size) by (nonlinear_arith);
        assert(all.last() == rest.last());
    } else {
        assert(0 * size == 0 && 1 * size == size) by (nonlinear_arith);
        if rest.len() > 0 {
            ranges_step_by_the_side(end + 1, max, size, 0);
            assert(all.last() == rest.last());
        }
    }
}

/// The pass starts at the least corner of its square and goes on to the window
/// behind it before it moves on.
pub proof fn the_pass_starts_at_the_least_corner(center: ChunkPos, radius: int, size: int)
    requires
        windows::square_fits(center, radius),
        size >= 1,
    ensures
        ({
            let pass = windows::serpentine(center, radius, size);
            &&& pass.len() > 0
            &&& pass[0].min_x == center.x - radius
            &&& pass[0].min_z == center.z - radius
            &&& size <= 2 * radius ==> {
                &&& pass.len() > 1
                &&& pass[1].min_x == center.x - radius
                &&& pass[1].min_z == center.z - radius + size
            }
        }),
{
    let xs = windows::ranges_from(center.x - radius, center.x + radius, size);
    let zs = windows::ranges_from(center.z - radius, center.z + radius, size);
    let count = windows::strip_count(zs.len());
    lemma_ranges_start(center.x - radius, center.x + radius, size);
    lemma_ranges_start(center.z - radius, center.z + radius, size);
    let first = windows::strip_columns(
        windows::column_order(xs, 0),
        windows::strip_rows(zs, 0),
        xs.len(),
    );
    let rows = windows::strip_rows(zs, 0);
    lemma_columns_start(xs, rows, xs.len());
    lemma_strips_start(xs, zs, count);
    let corner = windows::column(xs[0], rows);
    assert(corner[0] == windows::window_at(xs[0], rows[0]));
    assert(rows[0] == zs[0]);
    assert(first[0] == corner[0]);
    if size <= 2 * radius {
        assert(rows[1] == zs[1]);
        assert(corner[1] == windows::window_at(xs[0], rows[1]));
        assert(first[1] == corner[1]);
    }
}

proof fn lemma_ranges_start(start: int, max: int, size: int)
    requires
        i32::MIN <= start <= max,
        max < i32::MAX,
        size >= 1,
    ensures
        ({
            let all = windows::ranges_from(start, max, size);
            &&& all.len() > 0
            &&& all[0].0 == start
            &&& start + size <= max ==> all.len() > 1 && all[1].0 == start + size
        }),
{
    reveal_with_fuel(windows::ranges_from, 2);
    let end = if start + size - 1 <= max {
        start + size - 1
    } else {
        max
    };
    let rest = windows::ranges_from(end + 1, max, size);
    assert(windows::ranges_from(start, max, size) =~= seq![(start as i32, end as i32)] + rest);
}

proof fn lemma_columns_start(
    xs: Seq<windows::Range>,
    rows: Seq<windows::Range>,
    n: nat,
)
    requires
        1 <= n <= xs.len(),
        rows.len() > 0,
    ensures
        ({
            let all = windows::strip_columns(xs, rows, n);
            &&& all.len() >= rows.len()
            &&& forall|k: int|
                0 <= k < rows.len() ==> #[trigger] all[k] == windows::window_at(xs[0], rows[k])
        }),
    decreases n,
{
    let before = windows::strip_columns(xs, rows, (n - 1) as nat);
    if n > 1 {
        lemma_columns_start(xs, rows, (n - 1) as nat);
        assert forall|k: int| 0 <= k < rows.len() implies #[trigger] windows::strip_columns(
            xs,
            rows,
            n,
        )[k] == windows::window_at(xs[0], rows[k]) by {
            assert(before[k] == windows::window_at(xs[0], rows[k]));
        }
    } else {
        assert(before =~= Seq::<PregenWindow>::empty());
        assert(windows::strip_columns(xs, rows, n) =~= windows::column(xs[0], rows));
    }
}

proof fn lemma_strips_start(xs: Seq<windows::Range>, zs: Seq<windows::Range>, n: nat)
    requires
        n >= 1,
        xs.len() > 0,
        zs.len() > 0,
    ensures
        ({
            let first = windows::strip_columns(xs, windows::strip_rows(zs, 0), xs.len());
            let all = windows::strips(xs, zs, n);
            &&& all.len() >= first.len()
            &&& forall|k: int| 0 <= k < first.len() ==> #[trigger] all[k] == first[k]
        }),
    decreases n,
{
    let before = windows::strips(xs, zs, (n - 1) as nat);
    if n > 1 {
        lemma_strips_start(xs, zs, (n - 1) as nat);
        let first = windows::strip_columns(xs, windows::strip_rows(zs, 0), xs.len());
        assert forall|k: int| 0 <= k < first.len() implies #[trigger] windows::strips(xs, zs, n)[k]
            == first[k] by {
            assert(before[k] == first[k]);
        }
    } else {
        assert(before =~= Seq::<PregenWindow>::empty());
        assert(windows::strips(xs, zs, n) =~= windows::strip_columns(
            xs,
            windows::strip_rows(zs, 0),
            xs.len(),
        ));
    }
}

} // verus!
