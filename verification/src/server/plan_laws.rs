//! What holds of the plan of a pregeneration pass, in the numbers that a
//! server's owner sets.

use crate::pos;
use crate::server::epoch_cost;
use crate::server::epoch_cost::{ChunkMapSchedulingTimings, Cost};
use crate::server::pregen;
use crate::server::pregen::{EnvValue, PregenDepth, PregenDepthBasis, PregenSettings, PregenSize};
use crate::text;
use crate::text_laws;
use vstd::prelude::*;

verus! {

/// A setting holds a number's text.
pub open spec fn says(value: EnvValue, n: int) -> bool {
    value is Text && value->Text_0@ == text::signed_decimal(n)
}

/// An odd side length has as many chunks on either side of its center; zero
/// asks for no area, and nothing else is taken.
pub proof fn an_area_has_one_center(side_length: int)
    requires
        i32::MIN <= side_length <= i32::MAX,
    ensures
        pregen::size_of(side_length) is Ok <==> side_length == 0 || (side_length > 0 && side_length
            % 2 == 1),
        pregen::size_of(side_length) is Ok ==> (pregen::size_of(side_length)->Ok_0 is None
            <==> side_length == 0),
        side_length > 0 && side_length % 2 == 1 ==> ({
            let size = pregen::size_of(side_length)->Ok_0->0;
            size.side_length == side_length && size.radius + 1 + size.radius == side_length
        }),
{
}

/// The area setting is read as a number, and an unset one asks for no area.
pub proof fn an_area_setting_is_its_side_length(value: EnvValue, n: int)
    requires
        says(value, n),
        i32::MIN <= n <= i32::MAX,
    ensures
        pregen::size_setting(value) is Ok <==> n == 0 || (n > 0 && n % 2 == 1),
        pregen::size_setting(value) is Ok && n > 0 ==> pregen::size_setting(value)->Ok_0 == Some(
            PregenSize { side_length: n as i32, radius: ((n - 1) / 2) as i32 },
        ),
        n == 0 ==> pregen::size_setting(value) == Ok::<Option<PregenSize>, Seq<char>>(None),
        pregen::size_setting(EnvValue::NotPresent) == Ok::<Option<PregenSize>, Seq<char>>(None),
        pregen::size_setting(EnvValue::NotUnicode) is Err,
{
    text_laws::a_signed_number_reads_back(n, i32::MIN as int, i32::MAX as int);
}

/// A window side is any positive number, and thirty-two where it is not set.
pub proof fn a_window_setting_is_its_side(value: EnvValue, n: int)
    requires
        says(value, n),
    ensures
        pregen::window_setting(value) is Ok <==> 0 < n <= i32::MAX,
        0 < n <= i32::MAX ==> pregen::window_setting(value)->Ok_0 == n,
        pregen::window_setting(EnvValue::NotPresent) == Ok::<i32, Seq<char>>(32),
        pregen::window_setting(EnvValue::NotUnicode) is Err,
{
    text_laws::a_signed_number_reads_back(n, i32::MIN as int, i32::MAX as int);
}

/// A watermark is any number from two on, and is left open where it is not
/// set.
pub proof fn a_watermark_setting_is_at_least_two(value: EnvValue, n: int)
    requires
        says(value, n),
        0 <= n,
    ensures
        pregen::backpressure_setting(value) is Ok <==> 2 <= n <= usize::MAX,
        2 <= n <= usize::MAX ==> pregen::backpressure_setting(value)->Ok_0 == Some(n as usize),
        pregen::backpressure_setting(EnvValue::NotPresent) == Ok::<Option<usize>, Seq<char>>(None),
        pregen::backpressure_setting(EnvValue::NotUnicode) is Err,
{
    text_laws::a_number_reads_back(n as nat, usize::MAX as int);
}

/// A depth that is set is taken as it is, whatever the memory; zero is none.
pub proof fn a_depth_that_is_set_is_taken(
    value: EnvValue,
    n: int,
    available_bytes: Option<u64>,
    window_size: int,
    high: Option<usize>,
)
    requires
        says(value, n),
        0 <= n,
    ensures
        ({
            let depth = pregen::depth_setting(value, available_bytes, window_size, high);
            &&& depth is Ok <==> 1 <= n <= usize::MAX
            &&& depth is Ok ==> depth->Ok_0.active_windows == n
            &&& depth is Ok ==> depth->Ok_0.basis is Explicit
        }),
        pregen::depth_setting(EnvValue::NotUnicode, available_bytes, window_size, high) is Err,
{
    text_laws::a_number_reads_back(n as nat, usize::MAX as int);
}

/// Windows fit below a watermark exactly where all their chunks together are
/// no more than it.
pub proof fn windows_fit_where_their_chunks_do(window_size: int, active_windows: int, high: int)
    requires
        active_windows >= 1,
        0 <= high <= usize::MAX,
    ensures
        pregen::budget_of(window_size, active_windows, high) is Fits <==> 0 <= window_size
            && window_size * window_size * active_windows <= high,
        pregen::budget_of(window_size, active_windows, high) is Exceeded <==> 0 <= window_size
            && high < window_size * window_size * active_windows <= usize::MAX,
{
    let area = window_size * window_size;
    assert(area <= area * active_windows) by (nonlinear_arith)
        requires
            area == window_size * window_size,
            active_windows >= 1,
    ;
}

/// The watermark that goes with a depth holds two full windows' worth of
/// chunks for each window, and the sixty-four thousand of thirty-two windows at
/// the least.
pub proof fn the_watermark_holds_two_of_each_window(active_windows: int)
    requires
        0 <= active_windows,
        2048 * active_windows <= usize::MAX,
    ensures
        active_windows >= 32 ==> pregen::default_high(active_windows) == 2 * (1024
            * active_windows),
        active_windows <= 32 ==> pregen::default_high(active_windows) == 2 * 32 * 32 * 32,
{
}

/// Where the watermark would be no machine number it is the largest one.
pub proof fn the_watermark_stops_at_the_largest_number(active_windows: int)
    requires
        2048 * active_windows > usize::MAX,
    ensures
        pregen::default_high(active_windows) == usize::MAX,
{
}

/// Loading starts again below half of what stops it.
pub proof fn loading_resumes_at_half(high: int)
    requires
        0 <= high <= usize::MAX,
    ensures
        pregen::watermarks(high).high == high,
        pregen::watermarks(high).low + pregen::watermarks(high).low <= high,
        high <= pregen::watermarks(high).low + pregen::watermarks(high).low + 1,
{
}

/// Sixteen more windows want a quarter of a mebibyte for each of their chunks.
pub proof fn deeper_means_sixteen_more_windows(window_size: int)
    requires
        0 <= window_size,
        window_size * window_size * 16 * 262144 <= u64::MAX,
    ensures
        4 * pregen::projected_extra(window_size) == (32 - 16) * (window_size * window_size)
            * 1048576,
{
    let area = window_size * window_size;
    assert(4 * (area * 16 * 262144) == 16 * area * 1048576) by (nonlinear_arith);
}

/// The pipeline is thirty-two windows deep exactly where that many fit below
/// the watermark and the memory is known and four times what the sixteen
/// further windows want; else it is sixteen deep. The basis names which of
/// these it was.
pub proof fn the_pipeline_deepens_only_with_room_to_spare(
    available_bytes: Option<u64>,
    window_size: int,
    backpressure_high: Option<usize>,
)
    requires
        i32::MIN <= window_size <= i32::MAX,
    ensures
        ({
            let depth = pregen::chosen_depth(available_bytes, window_size, backpressure_high);
            let high = match backpressure_high {
                Some(high) => high as int,
                None => 65536,
            };
            let chunks = window_size * window_size;
            let fits = 0 <= window_size && chunks * 32 <= high;
            let ample = available_bytes is Some && chunks * 16 * 262144 * 4 <= available_bytes->0;
            &&& depth.active_windows == (if fits && ample {
                32int
            } else {
                16int
            })
            &&& depth.basis is BudgetTooTight <==> !fits
            &&& depth.basis is MemoryUnknown <==> fits && available_bytes is None
            &&& depth.basis is MemoryTight <==> fits && available_bytes is Some && !ample
            &&& depth.basis is MemoryHeadroom <==> fits && ample
            &&& depth.basis is BudgetTooTight ==> depth.basis->watermark == high
            &&& depth.basis is MemoryTight ==> depth.basis->MemoryTight_available_bytes
                == available_bytes->0
            &&& depth.basis is MemoryHeadroom ==> depth.basis->MemoryHeadroom_available_bytes
                == available_bytes->0 && depth.basis->MemoryHeadroom_projected_extra_bytes == chunks
                * 16 * 262144
        }),
{
    let high = pregen::deep_watermark(backpressure_high) as int;
    windows_fit_where_their_chunks_do(window_size, 32, high);
    let chunks = window_size * window_size;
    assert(0 <= chunks) by (nonlinear_arith)
        requires
            chunks == window_size * window_size,
    ;
}

/// A pass that asks for no area is none, whatever else is set.
pub proof fn no_area_is_no_plan(settings: PregenSettings, available_bytes: Option<u64>)
    requires
        settings.size is NotPresent || says(settings.size, 0),
    ensures
        pregen::plan_of(settings, available_bytes) is Ok,
        pregen::plan_of(settings, available_bytes)->Ok_0 is None,
{
    if says(settings.size, 0) {
        an_area_setting_is_its_side_length(settings.size, 0);
    }
}

proof fn lemma_plan_at(size: PregenSize, window: int, depth: PregenDepth, high: usize)
    requires
        0 < window <= i32::MAX,
        0 < depth.active_windows,
    ensures
        ({
            let plan = pregen::plan_at(size, window, depth, Some(high));
            &&& plan is Ok <==> window * window * depth.active_windows <= high
            &&& plan is Ok ==> plan->Ok_0 is Some && ({
                let made = plan->Ok_0->0;
                &&& made.size == size
                &&& made.window_size == window
                &&& made.depth == depth
                &&& made.backpressure.high == high
                &&& made.backpressure.low == high as int / 2
            })
        }),
{
    windows_fit_where_their_chunks_do(window, depth.active_windows as int, high as int);
}

/// With all four settings made, the plan is exactly what they say, and there
/// is one exactly where the side is odd and all chunks of the windows stay
/// within the watermark.
pub proof fn a_plan_is_what_its_settings_say(
    settings: PregenSettings,
    available_bytes: Option<u64>,
    side: int,
    window: int,
    depth: int,
    high: int,
)
    requires
        says(settings.size, side),
        says(settings.window_size, window),
        says(settings.active_windows, depth),
        says(settings.unload_backpressure, high),
        0 < side <= i32::MAX,
        0 < window <= i32::MAX,
        0 < depth <= usize::MAX,
        2 <= high <= usize::MAX,
    ensures
        ({
            let plan = pregen::plan_of(settings, available_bytes);
            &&& plan is Ok <==> side % 2 == 1 && window * window * depth <= high
            &&& plan is Ok ==> plan->Ok_0 is Some && ({
                let made = plan->Ok_0->0;
                &&& made.size.side_length == side
                &&& 2 * made.size.radius + 1 == side
                &&& made.window_size == window
                &&& made.depth.active_windows == depth
                &&& made.depth.basis is Explicit
                &&& made.backpressure.high == high
                &&& made.backpressure.low == high / 2
            })
        }),
{
    an_area_setting_is_its_side_length(settings.size, side);
    if side % 2 == 1 {
        let size = PregenSize { side_length: side as i32, radius: ((side - 1) / 2) as i32 };
        let taken = PregenDepth {
            active_windows: depth as usize,
            basis: PregenDepthBasis::Explicit,
        };
        assert(pregen::window_setting(settings.window_size) == Ok::<i32, Seq<char>>(window as i32))
            by {
            a_window_setting_is_its_side(settings.window_size, window);
        }
        assert(pregen::backpressure_setting(settings.unload_backpressure) == Ok::<
            Option<usize>,
            Seq<char>,
        >(Some(high as usize))) by {
            a_watermark_setting_is_at_least_two(settings.unload_backpressure, high);
        }
        assert(pregen::depth_setting(
            settings.active_windows,
            available_bytes,
            window,
            Some(high as usize),
        ) == Ok::<PregenDepth, Seq<char>>(taken)) by {
            a_depth_that_is_set_is_taken(
                settings.active_windows,
                depth,
                available_bytes,
                window,
                Some(high as usize),
            );
        }
        assert(pregen::plan_of(settings, available_bytes) == pregen::plan_at(
            size,
            window,
            taken,
            Some(high as usize),
        ));
        lemma_plan_at(size, window, taken, high as usize);
    }
}

/// With only the area set, windows of thirty-two chunks are generated, as many
/// at once as the memory allows, and the watermark is that of the depth.
pub proof fn a_plan_without_further_settings(
    settings: PregenSettings,
    available_bytes: Option<u64>,
    side: int,
)
    requires
        says(settings.size, side),
        settings.window_size is NotPresent,
        settings.active_windows is NotPresent,
        settings.unload_backpressure is NotPresent,
        0 < side <= i32::MAX,
        side % 2 == 1,
    ensures
        ({
            let plan = pregen::plan_of(settings, available_bytes);
            plan is Ok && plan->Ok_0 is Some && ({
                let made = plan->Ok_0->0;
                let ample = available_bytes is Some && 32 * 32 * 16 * 1048576 <= available_bytes->0;
                &&& made.size.side_length == side
                &&& made.window_size == 32
                &&& made.depth.active_windows == (if ample {
                    32int
                } else {
                    16int
                })
                &&& made.backpressure.high == 65536
                &&& made.backpressure.low == 32768
            })
        }),
{
    an_area_setting_is_its_side_length(settings.size, side);
    the_pipeline_deepens_only_with_room_to_spare(available_bytes, 32, None);
    let depth = pregen::chosen_depth(available_bytes, 32, None);
    windows_fit_where_their_chunks_do(32, depth.active_windows as int, 65536);
}

/// An area that is asked for by its numbers has windows of thirty-two chunks
/// and sixteen of them at once where these are left open, and the watermark of
/// its depth.
pub proof fn an_area_asked_for_is_planned(
    side: int,
    window: Option<i32>,
    depth: Option<usize>,
)
    requires
        i32::MIN <= side <= i32::MAX,
        depth is Some ==> 2048 * depth->0 <= usize::MAX,
    ensures
        ({
            let plan = pregen::explicit_plan(side, window, depth);
            let wide = if window is Some {
                window->0 as int
            } else {
                32
            };
            let deep = if depth is Some {
                depth->0 as int
            } else {
                16
            };
            let high = if deep >= 32 {
                2048 * deep
            } else {
                65536
            };
            &&& plan is Ok <==> side > 0 && side % 2 == 1 && deep > 0 && 0 <= wide && wide * wide
                * deep <= high
            &&& plan is Ok ==> plan->Ok_0 is Some && ({
                let made = plan->Ok_0->0;
                &&& made.size.side_length == side
                &&& made.window_size == wide
                &&& made.depth.active_windows == deep
                &&& made.depth.basis is Explicit
                &&& made.backpressure.high == high
            })
        }),
{
    let wide = if window is Some {
        window->0 as int
    } else {
        32
    };
    let deep = if depth is Some {
        depth->0 as int
    } else {
        16
    };
    if deep > 0 {
        the_watermark_holds_two_of_each_window(deep);
        windows_fit_where_their_chunks_do(wide, deep, pregen::default_high(deep));
    }
}

/// A block lies within the sixteen blocks of its section.
pub proof fn a_block_lies_in_its_section(block: int)
    ensures
        16 * pos::section_of(block) <= block,
        block < 16 * pos::section_of(block) + 16,
{
}

/// The nine phases of an epoch, added up.
pub open spec fn nine(phases: Seq<u128>) -> int {
    phases[0] + phases[1] + phases[2] + phases[3] + phases[4] + phases[5] + phases[6] + phases[7]
        + phases[8]
}

proof fn lemma_nine(phases: Seq<u128>)
    ensures
        epoch_cost::time_sum(phases, 9) == nine(phases),
{
    reveal_with_fuel(epoch_cost::time_sum, 10);
}

/// An epoch that took no time leaves the record as it is. Any other counts
/// once, adds its time phase by phase and so to the whole, adds what it
/// scheduled, and replaces a worst figure exactly where it was worse.
pub proof fn an_epoch_adds_its_time(cost: Cost, timings: ChunkMapSchedulingTimings, i: int)
    requires
        cost.phases.len() == 9,
        cost.worst_phases.len() == 9,
        epoch_cost::record_fits(cost, timings),
        0 <= i < 9,
    ensures
        ({
            let took = nine(timings.phases@);
            let after = epoch_cost::recorded(cost, timings);
            &&& took == 0 ==> after == cost
            &&& took > 0 ==> {
                &&& after.epochs == cost.epochs + 1
                &&& after.phases[i] == cost.phases[i] + timings.phases@[i]
                &&& nine(after.phases) == nine(cost.phases) + took
                &&& after.scheduled == cost.scheduled + timings.scheduled_count
                &&& after.worst_epoch == (if took > cost.worst_epoch {
                    took
                } else {
                    cost.worst_epoch
                })
                &&& after.worst_phases[i] == (if timings.phases@[i] > cost.worst_phases[i] {
                    timings.phases@[i]
                } else {
                    cost.worst_phases[i]
                })
                &&& after.worst_batch == (if timings.scheduled_count > cost.worst_batch {
                    timings.scheduled_count as int
                } else {
                    cost.worst_batch
                })
                &&& after.ticking == (if timings.rebuilt_ticking_chunk_count > cost.ticking {
                    timings.rebuilt_ticking_chunk_count as int
                } else {
                    cost.ticking
                })
            }
        }),
{
    lemma_nine(timings.phases@);
    assert(forall|k: int| 0 <= k < 9 ==> #[trigger] cost.phases[k] + timings.phases@[k] <= u128::MAX);
}

/// A record that holds nothing took no time, phase by phase and in all.
pub proof fn a_new_record_is_empty(i: int)
    requires
        0 <= i < 9,
    ensures
        ({
            let cost = epoch_cost::no_cost();
            &&& cost.epochs == 0
            &&& cost.phases.len() == 9
            &&& cost.worst_phases.len() == 9
            &&& cost.phases[i] == 0
            &&& cost.worst_phases[i] == 0
            &&& nine(cost.phases) == 0
            &&& epoch_cost::time_sum(cost.phases, 9) == nine(cost.phases)
            &&& cost.worst_epoch == 0
            &&& cost.scheduled == 0
            &&& cost.worst_batch == 0
            &&& cost.ticking == 0
        }),
{
    lemma_nine(epoch_cost::no_cost().phases);
}

} // verus!
