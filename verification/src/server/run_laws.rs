//! What holds of a pregeneration pass as it runs, window by window.

use crate::pos::ChunkPos;
use crate::server::pregen::{PregenPlan, UnloadBackpressure};
use crate::server::pregen_run;
use crate::server::pregen_run::{ActivePregenWindow, ChunkRequestState, RunState};
use crate::server::window_laws;
use crate::server::windows;
use crate::server::windows::PregenWindow;
use vstd::prelude::*;

verus! {

/// A window is asked for anew where its request was cancelled; a pending
/// request says how many of its chunks are there, and a request that is ready
/// has them all. Whether a window was counted changes only where it starts
/// anew.
pub proof fn a_poll_says_how_far_a_window_is(active: ActivePregenWindow, state: ChunkRequestState)
    requires
        active.window.valid(),
    ensures
        ({
            let after = pregen_run::polled(active, state);
            let wide = active.window.max_x - active.window.min_x + 1;
            let deep = active.window.max_z - active.window.min_z + 1;
            &&& after.window == active.window
            &&& state is Ready ==> after.ready && after.ready_chunks == wide * deep && after.counted
                == active.counted
            &&& state is Pending ==> after.ready == active.ready && after.ready_chunks
                == state->Pending_ready && after.counted == active.counted
            &&& state is Cancelled ==> !after.ready && after.ready_chunks == 0 && !after.counted
        }),
{
}

/// Backpressure engages at the high mark and not below it, and once engaged it
/// lasts until no more chunks unload than the low mark; the change that is told
/// is the one that happened.
pub proof fn backpressure_lasts_from_high_to_low(unloading: usize, marks: UnloadBackpressure)
    ensures
        pregen_run::pressed(false, unloading, marks) <==> unloading >= marks.high,
        !pregen_run::pressed(true, unloading, marks) <==> unloading <= marks.low,
        forall|before: bool, after: bool| #[trigger]
            pregen_run::pressure_change(before, after) is Activated <==> !before && after,
        forall|before: bool, after: bool| #[trigger]
            pregen_run::pressure_change(before, after) is Released <==> before && !after,
        forall|before: bool, after: bool| #[trigger]
            pregen_run::pressure_change(before, after) is Unchanged <==> before == after,
{
}

/// One window more adds itself to what it is: to the windows still missing
/// unless it is ready, to those newly ready, with all its chunks, where it is
/// ready and was not counted, and to the progress, with what it has, unless it
/// was counted.
pub proof fn a_window_adds_what_it_is(active: Seq<ActivePregenWindow>, one: ActivePregenWindow)
    ensures
        ({
            let more = active.push(one);
            let area = (one.window.max_x - one.window.min_x + 1) * (one.window.max_z
                - one.window.min_z + 1);
            &&& pregen_run::incomplete(more) - pregen_run::incomplete(active) == (if one.ready {
                0int
            } else {
                1int
            })
            &&& pregen_run::newly_ready(more) - pregen_run::newly_ready(active) == (if one.ready
                && !one.counted {
                1int
            } else {
                0int
            })
            &&& pregen_run::newly_ready_chunks(more) - pregen_run::newly_ready_chunks(active) == (
            if one.ready && !one.counted {
                area
            } else {
                0
            })
            &&& pregen_run::ready_in_active(more) - pregen_run::ready_in_active(active) == (
            if one.counted {
                0
            } else {
                one.ready_chunks as int
            })
        }),
        pregen_run::incomplete(Seq::empty()) == 0,
        pregen_run::newly_ready(Seq::empty()) == 0,
        pregen_run::newly_ready_chunks(Seq::empty()) == 0,
        pregen_run::ready_in_active(Seq::empty()) == 0,
{
    assert(active.push(one).drop_last() =~= active);
}

/// All windows of a pass that were not released, the requested ones first.
pub open spec fn in_order(st: RunState) -> Seq<PregenWindow> {
    Seq::new(st.active.len(), |i: int| st.active[i].window) + st.pending
}

/// Windows are admitted in their order: none is lost, none moves, as many are
/// admitted as were asked for and are there, and each starts with nothing
/// ready.
pub proof fn windows_are_admitted_in_order(st: RunState, count: int, i: int)
    requires
        0 <= count,
    ensures
        ({
            let after = pregen_run::admitted(st, count);
            let moved = st.pending.len() - after.pending.len();
            &&& in_order(after) == in_order(st)
            &&& moved == (if count <= st.pending.len() {
                count
            } else {
                st.pending.len() as int
            })
            &&& after.active.len() == st.active.len() + moved
            &&& 0 <= i < st.active.len() ==> after.active[i] == st.active[i]
            &&& st.active.len() <= i < after.active.len() ==> !after.active[i].ready
                && !after.active[i].counted && after.active[i].ready_chunks == 0
            &&& after.completed == st.completed
        }),
{
    let after = pregen_run::admitted(st, count);
    assert(in_order(after) =~= in_order(st));
}

proof fn lemma_fresh_are_missing(active: Seq<ActivePregenWindow>, list: Seq<PregenWindow>)
    ensures
        pregen_run::incomplete(active + pregen_run::all_fresh(list)) == pregen_run::incomplete(
            active,
        ) + list.len(),
    decreases list.len(),
{
    let all = active + pregen_run::all_fresh(list);
    if list.len() == 0 {
        assert(all =~= active);
    } else {
        lemma_fresh_are_missing(active, list.drop_last());
        assert(all.drop_last() =~= active + pregen_run::all_fresh(list.drop_last()));
        assert(all.last() == pregen_run::fresh(list.last()));
    }
}

/// Filling up a pass that has room leaves as many windows missing as its limit
/// allows, or none that wait.
pub proof fn filling_up_reaches_the_limit(st: RunState, limit: int)
    requires
        pregen_run::incomplete(st.active) <= limit,
    ensures
        ({
            let after = pregen_run::filled(st, limit);
            &&& pregen_run::incomplete(after.active) == limit || after.pending.len() == 0
            &&& pregen_run::incomplete(after.active) <= limit
            &&& in_order(after) == in_order(st)
        }),
{
    let count = limit - pregen_run::incomplete(st.active);
    windows_are_admitted_in_order(st, count, 0);
    let n = if count <= st.pending.len() {
        count
    } else {
        st.pending.len() as int
    };
    lemma_fresh_are_missing(st.active, st.pending.subrange(0, n));
}

/// A step under backpressure asks for no window; the peak is the most that was
/// seen unloading.
pub proof fn a_step_under_backpressure_admits_nothing(
    st: RunState,
    states: Seq<ChunkRequestState>,
    unloading: usize,
    marks: UnloadBackpressure,
    limit: int,
)
    requires
        states.len() == st.active.len(),
    ensures
        ({
            let after = pregen_run::advanced(st, states, unloading, marks, limit);
            &&& after.blocked == (if st.blocked {
                unloading > marks.low
            } else {
                unloading >= marks.high
            })
            &&& after.blocked ==> after.pending == st.pending && after.active.len()
                == st.active.len()
            &&& after.peak >= st.peak && after.peak >= unloading
            &&& after.peak == st.peak || after.peak == unloading
        }),
{
}

/// A step completes the chunks of the windows that its poll finds ready and
/// that were not counted, and no others.
pub proof fn a_step_completes_what_became_ready(
    st: RunState,
    states: Seq<ChunkRequestState>,
    unloading: usize,
    marks: UnloadBackpressure,
    limit: int,
)
    requires
        states.len() == st.active.len(),
    ensures
        pregen_run::advanced(st, states, unloading, marks, limit).completed - st.completed
            == pregen_run::newly_ready_chunks(pregen_run::all_polled(st.active, states)),
{
    let seen = pregen_run::observed(st, unloading, marks);
    let polled = RunState { active: pregen_run::all_polled(seen.active, states), ..seen };
    if !polled.blocked {
        let count = pregen_run::newly_ready(polled.active) as int;
        let n = if count <= polled.pending.len() {
            count
        } else {
            polled.pending.len() as int
        };
        lemma_fresh_complete_nothing(polled.active, polled.pending.subrange(0, n));
    }
}

proof fn lemma_fresh_complete_nothing(active: Seq<ActivePregenWindow>, list: Seq<PregenWindow>)
    ensures
        pregen_run::newly_ready_chunks(active + pregen_run::all_fresh(list))
            == pregen_run::newly_ready_chunks(active),
    decreases list.len(),
{
    let all = active + pregen_run::all_fresh(list);
    if list.len() == 0 {
        assert(all =~= active);
    } else {
        lemma_fresh_complete_nothing(active, list.drop_last());
        assert(all.drop_last() =~= active + pregen_run::all_fresh(list.drop_last()));
        assert(all.last() == pregen_run::fresh(list.last()));
    }
}

/// Some window that is not ready has a chunk of its surroundings in common
/// with the surroundings of this one.
pub open spec fn borders_on_work(
    active: Seq<ActivePregenWindow>,
    halo: int,
    window: PregenWindow,
) -> bool {
    exists|j: int, x: int, z: int|
        #![trigger window_laws::near(active[j].window, halo, x, z)]
        0 <= j < active.len() && !active[j].ready && window_laws::near(
            active[j].window,
            halo,
            x,
            z,
        ) && window_laws::near(window, halo, x, z)
}

proof fn lemma_kept(active: Seq<ActivePregenWindow>, halo: int, i: int)
    requires
        0 <= i < active.len(),
        forall|k: int|
            0 <= k < active.len() ==> pregen_run::sound_window((#[trigger] active[k]).window, halo),
        0 <= halo,
    ensures
        pregen_run::kept(active, halo, i) <==> !active[i].ready || borders_on_work(
            active,
            halo,
            active[i].window,
        ),
{
    let window = active[i].window;
    assert(pregen_run::sound_window(active[i].window, halo));
    assert forall|j: int|
        0 <= j < active.len() && !(#[trigger] active[j]).ready && windows::rects_overlap(
            window.grown(halo),
            active[j].window.grown(halo),
        ) implies borders_on_work(active, halo, window) by {
        assert(pregen_run::sound_window(active[j].window, halo));
        let (x, z) = window_laws::lemma_shared_surroundings(window, active[j].window, halo);
        assert(window_laws::near(active[j].window, halo, x, z));
    }
    if borders_on_work(active, halo, window) {
        let (j, x, z) = choose|j: int, x: int, z: int|
            #![trigger window_laws::near(active[j].window, halo, x, z)]
            0 <= j < active.len() && !active[j].ready && window_laws::near(
                active[j].window,
                halo,
                x,
                z,
            ) && window_laws::near(window, halo, x, z);
        assert(pregen_run::sound_window(active[j].window, halo));
        assert(windows::rects_overlap(window.grown(halo), active[j].window.grown(halo)));
        assert(pregen_run::still_needed(window, active, halo));
    }
}

proof fn lemma_retained(active: Seq<ActivePregenWindow>, halo: int, n: nat)
    requires
        n <= active.len(),
    ensures
        forall|one: ActivePregenWindow| #[trigger]
            pregen_run::retained(active, halo, n).contains(one) <==> exists|i: int|
                0 <= i < n && #[trigger] active[i] == one && pregen_run::kept(active, halo, i),
    decreases n,
{
    if n > 0 {
        let shorter = (n - 1) as nat;
        lemma_retained(active, halo, shorter);
        let before = pregen_run::retained(active, halo, shorter);
        let after = pregen_run::retained(active, halo, n);
        let last = active[n - 1];
        assert forall|one: ActivePregenWindow| #[trigger] after.contains(one) <==> exists|i: int|
            0 <= i < n && #[trigger] active[i] == one && pregen_run::kept(active, halo, i) by {
            if pregen_run::kept(active, halo, n - 1) {
                assert(after == before.push(last));
                assert(after[before.len() as int] == last);
                if after.contains(one) {
                    let k = choose|k: int| 0 <= k < after.len() && after[k] == one;
                    if k < before.len() {
                        assert(before[k] == one);
                        assert(before.contains(one));
                        let i = choose|i: int|
                            0 <= i < shorter && #[trigger] active[i] == one && pregen_run::kept(
                                active,
                                halo,
                                i,
                            );
                        assert(active[i] == one);
                    } else {
                        assert(active[n - 1] == one);
                    }
                }
                if exists|i: int|
                    0 <= i < n && #[trigger] active[i] == one && pregen_run::kept(active, halo, i) {
                    let i = choose|i: int|
                        0 <= i < n && #[trigger] active[i] == one && pregen_run::kept(
                            active,
                            halo,
                            i,
                        );
                    if i < shorter {
                        assert(before.contains(one));
                        let k = choose|k: int| 0 <= k < before.len() && before[k] == one;
                        assert(after[k] == one);
                    }
                }
            } else {
                assert(after == before);
                if before.contains(one) {
                    let i = choose|i: int|
                        0 <= i < shorter && #[trigger] active[i] == one && pregen_run::kept(
                            active,
                            halo,
                            i,
                        );
                    assert(active[i] == one);
                }
            }
        }
    }
}

/// A window is released exactly where it is ready and no window that is not
/// has a chunk of its surroundings among its own; all others stay requested.
pub proof fn only_finished_windows_are_released(
    st: RunState,
    halo: int,
    one: ActivePregenWindow,
)
    requires
        0 <= halo,
        pregen_run::sound_run(st, halo),
        st.active.contains(one),
    ensures
        pregen_run::released(st, halo).active.contains(one) <==> !one.ready || borders_on_work(
            st.active,
            halo,
            one.window,
        ),
        pregen_run::released(st, halo).pending == st.pending,
        pregen_run::released(st, halo).completed == st.completed,
{
    lemma_retained(st.active, halo, st.active.len());
    let k = choose|k: int| 0 <= k < st.active.len() && st.active[k] == one;
    lemma_kept(st.active, halo, k);
    if pregen_run::released(st, halo).active.contains(one) {
        let i = choose|i: int|
            0 <= i < st.active.len() && #[trigger] st.active[i] == one && pregen_run::kept(
                st.active,
                halo,
                i,
            );
        lemma_kept(st.active, halo, i);
    }
}

/// A pass starts with the first windows of its square, as many as its depth
/// allows.
pub proof fn a_pass_starts_with_its_first_windows(
    plan: PregenPlan,
    center: ChunkPos,
)
    ensures
        ({
            let start = pregen_run::start_state(plan, center);
            let all = windows::serpentine(
                center,
                plan.size.radius as int,
                plan.window_size as int,
            );
            &&& in_order(start) == all
            &&& start.completed == 0
            &&& !start.blocked
            &&& start.active.len() == (if plan.depth.active_windows <= all.len() {
                plan.depth.active_windows as nat
            } else {
                all.len()
            })
        }),
{
    let all = windows::serpentine(center, plan.size.radius as int, plan.window_size as int);
    let none = RunState {
        pending: all,
        active: Seq::empty(),
        completed: 0,
        blocked: false,
        peak: 0,
    };
    windows_are_admitted_in_order(none, plan.depth.active_windows as int, 0);
    assert(in_order(none) =~= all);
}

/// The requests that are made anew are those that were cancelled, in order.
pub proof fn cancelled_requests_are_made_anew(states: Seq<ChunkRequestState>, n: nat, i: usize)
    requires
        n <= states.len(),
        n <= usize::MAX,
    ensures
        pregen_run::cancelled(states, n).contains(i) <==> i < n && states[i as int] is Cancelled,
        forall|a: int, b: int|
            0 <= a < b < pregen_run::cancelled(states, n).len() ==> pregen_run::cancelled(
                states,
                n,
            )[a] < pregen_run::cancelled(states, n)[b],
        forall|a: int|
            0 <= a < pregen_run::cancelled(states, n).len() ==> #[trigger] pregen_run::cancelled(
                states,
                n,
            )[a] < n,
    decreases n,
{
    if n > 0 {
        let shorter = (n - 1) as nat;
        cancelled_requests_are_made_anew(states, shorter, i);
        let before = pregen_run::cancelled(states, shorter);
        let after = pregen_run::cancelled(states, n);
        if states[n - 1] is Cancelled {
            assert(after == before.push((n - 1) as usize));
            assert(after[before.len() as int] == n - 1);
            if before.contains(i) {
                let k = choose|k: int| 0 <= k < before.len() && before[k] == i;
                assert(after[k] == i);
            }
            if after.contains(i) {
                let k = choose|k: int| 0 <= k < after.len() && after[k] == i;
                if k < before.len() {
                    assert(before[k] == i);
                }
            }
        }
    }
}

/// A pass with more windows missing than its limit asks for none.
pub proof fn a_pass_over_its_limit_admits_nothing(st: RunState, limit: int)
    requires
        pregen_run::incomplete(st.active) >= limit,
    ensures
        pregen_run::filled(st, limit).pending == st.pending,
        pregen_run::filled(st, limit).active == st.active,
{
    let count = limit - pregen_run::incomplete(st.active);
    assert(st.pending.subrange(0, st.pending.len() as int) =~= st.pending);
    assert(st.active + pregen_run::all_fresh(st.pending.subrange(0, 0)) =~= st.active);
}

} // verus!
