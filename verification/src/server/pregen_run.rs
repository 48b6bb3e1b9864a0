//! The pregeneration pass: which windows are requested, counted and released.
//!
//! The pass is driven from outside: each step is told how many chunks wait to
//! unload and how each active request stands, and answers with the requests to
//! make and the windows to let go.

use crate::pos::ChunkPos;
use crate::server::pregen;
use crate::server::pregen::{PregenPlan, UnloadBackpressure};
use crate::server::windows;
use crate::server::windows::{build_pregen_windows, PregenWindow};
use std::collections::VecDeque;
use vstd::prelude::*;

verus! {

/// How a chunk request stands.
#[derive(Clone, Copy, Debug, PartialEq, Eq, Structural)]
pub enum ChunkRequestState {
    Ready,
    Pending { ready: usize },
    Cancelled,
}

#[derive(Clone, Copy, Debug, PartialEq, Eq, Structural)]
pub struct ActivePregenWindow {
    pub window: PregenWindow,
    pub ready_chunks: usize,
    pub ready: bool,
    pub counted: bool,
}

/// A window whose request was just made.
pub open spec fn fresh(window: PregenWindow) -> ActivePregenWindow {
    ActivePregenWindow { window, ready_chunks: 0, ready: false, counted: false }
}

/// What a request's state makes of its window; a cancelled request is made anew.
pub open spec fn polled(active: ActivePregenWindow, state: ChunkRequestState) -> ActivePregenWindow {
    match state {
        ChunkRequestState::Ready => ActivePregenWindow {
            ready_chunks: active.window.area() as usize,
            ready: true,
            ..active
        },
        ChunkRequestState::Pending { ready } => ActivePregenWindow {
            ready_chunks: ready,
            ..active
        },
        ChunkRequestState::Cancelled => fresh(active.window),
    }
}

impl ActivePregenWindow {
    pub fn new(window: PregenWindow) -> (r: Self)
        ensures
            r == fresh(window),
    {
        ActivePregenWindow { window, ready_chunks: 0, ready: false, counted: false }
    }

    /// Takes in how the window's request stands; whether the request is to be
    /// made anew.
    pub fn poll(&mut self, state: ChunkRequestState) -> (renew: bool)
        requires
            old(self).window.valid(),
        ensures
            *final(self) == polled(*old(self), state),
            renew == (state is Cancelled),
    {
        match state {
            ChunkRequestState::Ready => {
                self.ready_chunks = self.window.chunk_count();
                self.ready = true;
                false
            },
            ChunkRequestState::Pending { ready } => {
                self.ready_chunks = ready;
                false
            },
            ChunkRequestState::Cancelled => {
                self.ready_chunks = 0;
                self.ready = false;
                self.counted = false;
                true
            },
        }
    }
}

/// The number of chunks of a square area.
pub fn total_chunks(side_length: i32) -> (r: usize)
    requires
        side_length * side_length <= usize::MAX,
    ensures
        r == side_length * side_length,
{
    let side: i64 = side_length as i64;
    assert(0 <= side * side <= 0x8000_0000 * 0x8000_0000) by (nonlinear_arith)
        requires
            -0x8000_0000 <= side <= 0x7fff_ffff,
    ;
    (side * side) as usize
}

/// What a step changed about the unload backpressure.
#[derive(Clone, Copy, Debug, PartialEq, Eq, Structural)]
pub enum BackpressureChange {
    Unchanged,
    Activated,
    Released,
}

/// Backpressure engages at the high watermark and is released at the low one.
pub open spec fn pressed(engaged: bool, unloading: usize, marks: UnloadBackpressure) -> bool {
    if engaged {
        unloading > marks.low
    } else {
        unloading >= marks.high
    }
}

pub open spec fn pressure_change(before: bool, after: bool) -> BackpressureChange {
    if before == after {
        BackpressureChange::Unchanged
    } else if after {
        BackpressureChange::Activated
    } else {
        BackpressureChange::Released
    }
}

/// Takes in the unload backlog.
pub fn update_unload_backpressure(
    unload_backpressure: &mut bool,
    unloading_chunks: usize,
    watermarks: UnloadBackpressure,
) -> (r: BackpressureChange)
    ensures
        *final(unload_backpressure) == pressed(
            *old(unload_backpressure),
            unloading_chunks,
            watermarks,
        ),
        r == pressure_change(*old(unload_backpressure), *final(unload_backpressure)),
{
    if *unload_backpressure {
        if unloading_chunks <= watermarks.low {
            *unload_backpressure = false;
            return BackpressureChange::Released;
        }
        return BackpressureChange::Unchanged;
    }
    if unloading_chunks >= watermarks.high {
        *unload_backpressure = true;
        return BackpressureChange::Activated;
    }
    BackpressureChange::Unchanged
}

/// Between the watermarks backpressure stays as it is: it has hysteresis.
pub proof fn backpressure_has_hysteresis(engaged: bool, unloading: usize, marks: UnloadBackpressure)
    requires
        marks.low < unloading < marks.high,
    ensures
        pressed(engaged, unloading, marks) == engaged,
{
}

// ---------------------------------------------------------------------------
// The state of a pass
// ---------------------------------------------------------------------------
/// How many of the windows are still generating.
pub open spec fn incomplete(active: Seq<ActivePregenWindow>) -> nat
    decreases active.len(),
{
    if active.len() == 0 {
        0
    } else {
        incomplete(active.drop_last()) + if active.last().ready {
            0nat
        } else {
            1nat
        }
    }
}

/// How many of the windows are ready and not counted yet.
pub open spec fn newly_ready(active: Seq<ActivePregenWindow>) -> nat
    decreases active.len(),
{
    if active.len() == 0 {
        0
    } else {
        newly_ready(active.drop_last()) + if active.last().ready && !active.last().counted {
            1nat
        } else {
            0nat
        }
    }
}

/// The chunks of the windows that are ready and not counted yet.
pub open spec fn newly_ready_chunks(active: Seq<ActivePregenWindow>) -> int
    decreases active.len(),
{
    if active.len() == 0 {
        0
    } else {
        newly_ready_chunks(active.drop_last()) + if active.last().ready && !active.last().counted {
            active.last().window.area()
        } else {
            0
        }
    }
}

/// The chunks that are ready in windows not counted yet.
pub open spec fn ready_in_active(active: Seq<ActivePregenWindow>) -> int
    decreases active.len(),
{
    if active.len() == 0 {
        0
    } else {
        ready_in_active(active.drop_last()) + if active.last().counted {
            0
        } else {
            active.last().ready_chunks as int
        }
    }
}

/// Every window after its poll.
pub open spec fn all_polled(
    active: Seq<ActivePregenWindow>,
    states: Seq<ChunkRequestState>,
) -> Seq<ActivePregenWindow> {
    Seq::new(active.len(), |i: int| polled(active[i], states[i]))
}

/// Every ready window counted.
pub open spec fn all_counted(active: Seq<ActivePregenWindow>) -> Seq<ActivePregenWindow> {
    Seq::new(
        active.len(),
        |i: int|
            ActivePregenWindow { counted: active[i].counted || active[i].ready, ..active[i] },
    )
}

/// The windows with requests just made.
pub open spec fn all_fresh(list: Seq<PregenWindow>) -> Seq<ActivePregenWindow> {
    Seq::new(list.len(), |i: int| fresh(list[i]))
}

/// A completed window is still needed: an incomplete one's dependency area
/// overlaps its own.
pub open spec fn still_needed(
    window: PregenWindow,
    active: Seq<ActivePregenWindow>,
    halo: int,
) -> bool {
    exists|j: int|
        0 <= j < active.len() && !(#[trigger] active[j]).ready && windows::rects_overlap(
            window.grown(halo),
            active[j].window.grown(halo),
        )
}

/// The window is kept: it is incomplete or still needed.
pub open spec fn kept(active: Seq<ActivePregenWindow>, halo: int, i: int) -> bool {
    !active[i].ready || still_needed(active[i].window, active, halo)
}

/// The first `n` windows without those that are let go.
pub open spec fn retained(active: Seq<ActivePregenWindow>, halo: int, n: nat) -> Seq<
    ActivePregenWindow,
>
    decreases n,
{
    if n == 0 {
        Seq::empty()
    } else {
        let before = retained(active, halo, (n - 1) as nat);
        if kept(active, halo, n - 1) {
            before.push(active[n - 1])
        } else {
            before
        }
    }
}

/// A pass in progress.
pub struct PregenRun {
    /// Windows not requested yet, in order.
    pub pending_windows: VecDeque<PregenWindow>,
    /// Windows with a request.
    pub active_windows: Vec<ActivePregenWindow>,
    pub active_window_limit: usize,
    pub total_chunks: usize,
    pub completed: usize,
    pub unload_backpressure: bool,
    pub watermarks: UnloadBackpressure,
    pub peak_unloading_chunks: usize,
    /// How far a chunk's dependencies reach.
    pub halo: i32,
}

/// A pass as mathematical values.
#[verifier::ext_equal]
pub struct RunState {
    pub pending: Seq<PregenWindow>,
    pub active: Seq<ActivePregenWindow>,
    pub completed: int,
    pub blocked: bool,
    pub peak: usize,
}

impl View for PregenRun {
    type V = RunState;

    open spec fn view(&self) -> RunState {
        RunState {
            pending: self.pending_windows@,
            active: self.active_windows@,
            completed: self.completed as int,
            blocked: self.unload_backpressure,
            peak: self.peak_unloading_chunks,
        }
    }
}

/// A window that can be counted and grown by the halo.
pub open spec fn sound_window(window: PregenWindow, halo: int) -> bool {
    window.valid() && window.halo_fits(halo)
}

/// The windows of a pass can all be counted and grown.
pub open spec fn sound_run(st: RunState, halo: int) -> bool {
    &&& forall|i: int|
        0 <= i < st.pending.len() ==> sound_window(#[trigger] st.pending[i], halo)
    &&& forall|i: int|
        0 <= i < st.active.len() ==> sound_window((#[trigger] st.active[i]).window, halo)
}

/// `count` more windows requested, as far as there are any.
pub open spec fn admitted(st: RunState, count: int) -> RunState {
    let n = if count < 0 {
        0
    } else if count <= st.pending.len() {
        count
    } else {
        st.pending.len() as int
    };
    RunState {
        pending: st.pending.subrange(n, st.pending.len() as int),
        active: st.active + all_fresh(st.pending.subrange(0, n)),
        ..st
    }
}

/// Requests made until `limit` windows are generating.
pub open spec fn filled(st: RunState, limit: int) -> RunState {
    admitted(st, limit - incomplete(st.active))
}

/// The backlog taken in.
pub open spec fn observed(st: RunState, unloading: usize, marks: UnloadBackpressure) -> RunState {
    RunState {
        peak: if st.peak >= unloading {
            st.peak
        } else {
            unloading
        },
        blocked: pressed(st.blocked, unloading, marks),
        ..st
    }
}

/// The first half of a step: the backlog and the requests' states are taken in;
/// unless backpressure holds, each newly ready window admits another; ready
/// windows are counted; and the pipeline is filled up.
pub open spec fn advanced(
    st: RunState,
    states: Seq<ChunkRequestState>,
    unloading: usize,
    marks: UnloadBackpressure,
    limit: int,
) -> RunState {
    let seen = observed(st, unloading, marks);
    let after_poll = RunState { active: all_polled(seen.active, states), ..seen };
    let replaced = if after_poll.blocked {
        after_poll
    } else {
        admitted(after_poll, newly_ready(after_poll.active) as int)
    };
    let counted = RunState {
        active: all_counted(replaced.active),
        completed: replaced.completed + newly_ready_chunks(replaced.active),
        ..replaced
    };
    if counted.blocked {
        counted
    } else {
        filled(counted, limit)
    }
}

/// Completed windows that nothing needs let go.
pub open spec fn released(st: RunState, halo: int) -> RunState {
    RunState { active: retained(st.active, halo, st.active.len()), ..st }
}

/// The area, window size and halo keep every count and coordinate in range. A
/// window is no wider than the area.
pub open spec fn run_fits(
    center: ChunkPos,
    radius: int,
    window_size: int,
    halo: int,
) -> bool {
    &&& 0 <= radius
    &&& 0 <= halo
    &&& 1 <= window_size
    &&& pregen::least(window_size, 2 * radius + 1) * pregen::least(window_size, 2 * radius + 1)
        <= i32::MAX
    &&& windows::square_fits(center, radius)
    &&& i32::MIN <= center.x - radius - halo
    &&& center.x + radius + halo <= i32::MAX
    &&& i32::MIN <= center.z - radius - halo
    &&& center.z + radius + halo <= i32::MAX
    &&& (2 * radius + 1) * (2 * radius + 1) <= usize::MAX
}

/// The state at the start of a pass: the first windows requested.
pub open spec fn start_state(plan: PregenPlan, center: ChunkPos) -> RunState {
    filled(
        RunState {
            pending: windows::serpentine(center, plan.size.radius as int, plan.window_size as int),
            active: Seq::empty(),
            completed: 0,
            blocked: false,
            peak: 0,
        },
        plan.depth.active_windows as int,
    )
}

/// What the first half of a step asks for.
pub struct StepActions {
    /// Active windows whose requests are to be made anew.
    pub renew: Vec<usize>,
    /// How many windows were appended to the active ones and want a request.
    pub activated: usize,
    pub backpressure: BackpressureChange,
}

/// The indices below `n` whose request was cancelled.
pub open spec fn cancelled(states: Seq<ChunkRequestState>, n: nat) -> Seq<usize>
    decreases n,
{
    if n == 0 {
        Seq::empty()
    } else {
        let before = cancelled(states, (n - 1) as nat);
        if states[n - 1] is Cancelled {
            before.push((n - 1) as usize)
        } else {
            before
        }
    }
}

fn count_incomplete(active: &Vec<ActivePregenWindow>) -> (r: usize)
    ensures
        r == incomplete(active@),
        r <= active@.len(),
{
    let mut count: usize = 0;
    let mut i: usize = 0;
    assert(active@.subrange(0, 0) == Seq::<ActivePregenWindow>::empty());
    while i < active.len()
        invariant
            i <= active@.len(),
            count <= i,
            count == incomplete(active@.subrange(0, i as int)),
        decreases active@.len() - i,
    {
        proof {
            let longer = active@.subrange(0, i + 1);
            assert(longer.drop_last() == active@.subrange(0, i as int));
            assert(longer.last() == active@[i as int]);
        }
        if !active[i].ready {
            count += 1;
        }
        i += 1;
    }
    assert(active@.subrange(0, active@.len() as int) == active@);
    count
}

fn count_newly_ready(active: &Vec<ActivePregenWindow>) -> (r: usize)
    ensures
        r == newly_ready(active@),
{
    let mut count: usize = 0;
    let mut i: usize = 0;
    assert(active@.subrange(0, 0) == Seq::<ActivePregenWindow>::empty());
    while i < active.len()
        invariant
            i <= active@.len(),
            count <= i,
            count == newly_ready(active@.subrange(0, i as int)),
        decreases active@.len() - i,
    {
        proof {
            let longer = active@.subrange(0, i + 1);
            assert(longer.drop_last() == active@.subrange(0, i as int));
            assert(longer.last() == active@[i as int]);
        }
        if active[i].ready && !active[i].counted {
            count += 1;
        }
        i += 1;
    }
    assert(active@.subrange(0, active@.len() as int) == active@);
    count
}

impl PregenRun {
    /// Starts a pass: the area is cut into windows and the first are requested.
    /// Every active window wants a request.
    pub fn new(plan: PregenPlan, center_chunk: ChunkPos, halo: i32) -> (r: Self)
        requires
            run_fits(
                center_chunk,
                plan.size.radius as int,
                plan.window_size as int,
                halo as int,
            ),
            plan.size.side_length == 2 * plan.size.radius + 1,
        ensures
            r@ == start_state(plan, center_chunk),
            r.active_window_limit == plan.depth.active_windows,
            r.watermarks == plan.backpressure,
            r.total_chunks == plan.size.side_length * plan.size.side_length,
            r.halo == halo,
            sound_run(r@, halo as int),
    {
        let ghost radius = plan.size.radius as int;
        let ghost size = plan.window_size as int;
        let mut run = PregenRun {
            pending_windows: build_pregen_windows(
                center_chunk,
                plan.size.radius,
                plan.window_size,
            ),
            active_windows: Vec::new(),
            active_window_limit: plan.depth.active_windows,
            total_chunks: total_chunks(plan.size.side_length),
            completed: 0,
            unload_backpressure: false,
            watermarks: plan.backpressure,
            peak_unloading_chunks: 0,
            halo,
        };
        proof {
            let list = windows::serpentine(center_chunk, radius, size);
            assert forall|i: int| 0 <= i < list.len() implies sound_window(
                #[trigger] list[i],
                halo as int,
            ) by {
                windows::every_window_lies_in_the_square(center_chunk, radius, size, i);
                let w = list[i];
                let a = w.max_x - w.min_x + 1;
                let b = w.max_z - w.min_z + 1;
                let side = pregen::least(size, 2 * radius + 1);
                assert(a * b <= side * side) by (nonlinear_arith)
                    requires
                        1 <= a <= side,
                        1 <= b <= side,
                ;
            }
        }
        let _ = run.fill_active_windows();
        run
    }

    /// Requests the next window, if there is one.
    pub fn activate_next_window(&mut self) -> (r: bool)
        requires
            sound_run(old(self)@, old(self).halo as int),
        ensures
            r == (old(self)@.pending.len() > 0),
            final(self)@ == admitted(old(self)@, 1),
            final(self).unchanging() == old(self).unchanging(),
            sound_run(final(self)@, final(self).halo as int),
    {
        let ghost before = self@;
        match self.pending_windows.pop_front() {
            None => {
                proof {
                    assert(self@ == admitted(before, 1));
                }
                false
            },
            Some(window) => {
                self.active_windows.push(ActivePregenWindow::new(window));
                proof {
                    let one = before.pending.subrange(0, 1);
                    assert(one == seq![window]);
                    assert(all_fresh(one) == seq![fresh(window)]);
                    assert(self@ == admitted(before, 1));
                    assert(sound_window(before.pending[0], self.halo as int));
                    assert forall|i: int| 0 <= i < self@.pending.len() implies sound_window(
                        #[trigger] self@.pending[i],
                        self.halo as int,
                    ) by {
                        assert(self@.pending[i] == before.pending[i + 1]);
                    }
                    assert forall|i: int| 0 <= i < self@.active.len() implies sound_window(
                        (#[trigger] self@.active[i]).window,
                        self.halo as int,
                    ) by {
                        if i < before.active.len() {
                            assert(self@.active[i] == before.active[i]);
                        }
                    }
                }
                true
            },
        }
    }

    /// What no step changes.
    pub open spec fn unchanging(&self) -> (usize, usize, UnloadBackpressure, i32) {
        (self.active_window_limit, self.total_chunks, self.watermarks, self.halo)
    }

    /// Requests up to `count` windows; how many there were.
    fn activate(&mut self, count: usize) -> (r: usize)
        requires
            sound_run(old(self)@, old(self).halo as int),
        ensures
            final(self)@ == admitted(old(self)@, count as int),
            r == final(self)@.active.len() - old(self)@.active.len(),
            final(self).unchanging() == old(self).unchanging(),
            sound_run(final(self)@, final(self).halo as int),
    {
        let ghost start = self@;
        let mut done: usize = 0;
        proof {
            assert(start.active + all_fresh(start.pending.subrange(0, 0)) == start.active);
            assert(self@ == admitted(start, 0));
        }
        while done < count
            invariant
                done <= count,
                done <= start.pending.len(),
                start == old(self)@,
                self@ == admitted(start, done as int),
                self.unchanging() == old(self).unchanging(),
                sound_run(self@, self.halo as int),
            decreases count - done,
        {
            let ghost before = self@;
            if !self.activate_next_window() {
                proof {
                    assert(before.pending.len() == 0);
                    assert(done == start.pending.len());
                    assert(admitted(before, 1) == before);
                    assert(self@ == admitted(start, count as int));
                }
                return done;
            }
            proof {
                assert(before.pending[0] == start.pending[done as int]);
                assert(all_fresh(start.pending.subrange(0, done + 1)) == all_fresh(
                    start.pending.subrange(0, done as int),
                ).push(fresh(start.pending[done as int])));
                assert(all_fresh(before.pending.subrange(0, 1)) == seq![
                    fresh(start.pending[done as int]),
                ]);
                assert(self@ == admitted(start, done + 1));
            }
            done += 1;
        }
        done
    }

    /// Requests windows until the pipeline is at its depth, or none is left;
    /// how many were requested.
    pub fn fill_active_windows(&mut self) -> (r: usize)
        requires
            sound_run(old(self)@, old(self).halo as int),
        ensures
            final(self)@ == filled(old(self)@, old(self).active_window_limit as int),
            r == final(self)@.active.len() - old(self)@.active.len(),
            final(self).unchanging() == old(self).unchanging(),
            sound_run(final(self)@, final(self).halo as int),
    {
        let generating: usize = count_incomplete(&self.active_windows);
        let room: usize = if generating < self.active_window_limit {
            self.active_window_limit - generating
        } else {
            0
        };
        let ghost before = self@;
        let r = self.activate(room);
        proof {
            if room == 0 {
                assert(admitted(before, 0) == admitted(
                    before,
                    self.active_window_limit - incomplete(before.active),
                ));
            }
        }
        r
    }

    /// Takes in how many chunks wait to unload: the peak so far, and whether
    /// backpressure holds.
    pub fn observe(&mut self, unloading_chunks: usize) -> (r: BackpressureChange)
        ensures
            final(self)@ == observed(old(self)@, unloading_chunks, old(self).watermarks),
            r == pressure_change(old(self)@.blocked, final(self)@.blocked),
            final(self).unchanging() == old(self).unchanging(),
    {
        if unloading_chunks > self.peak_unloading_chunks {
            self.peak_unloading_chunks = unloading_chunks;
        }
        update_unload_backpressure(
            &mut self.unload_backpressure,
            unloading_chunks,
            self.watermarks,
        )
    }

    fn poll_all(&mut self, states: &Vec<ChunkRequestState>) -> (renew: Vec<usize>)
        requires
            sound_run(old(self)@, old(self).halo as int),
            states@.len() == old(self)@.active.len(),
        ensures
            final(self)@ == (RunState {
                active: all_polled(old(self)@.active, states@),
                ..old(self)@
            }),
            renew@ == cancelled(states@, states@.len()),
            final(self).unchanging() == old(self).unchanging(),
            sound_run(final(self)@, final(self).halo as int),
    {
        let ghost before = self@;
        let mut renew: Vec<usize> = Vec::new();
        let mut i: usize = 0;
        while i < self.active_windows.len()
            invariant
                i <= self.active_windows@.len(),
                self.active_windows@.len() == before.active.len(),
                states@.len() == before.active.len(),
                sound_run(before, self.halo as int),
                self@ == (RunState { active: self.active_windows@, ..before }),
                self.unchanging() == old(self).unchanging(),
                forall|j: int|
                    0 <= j < i ==> self.active_windows@[j] == polled(before.active[j], states@[j]),
                forall|j: int|
                    i <= j < before.active.len() ==> self.active_windows@[j] == before.active[j],
                renew@ == cancelled(states@, i as nat),
            decreases self.active_windows@.len() - i,
        {
            assert(sound_window(before.active[i as int].window, self.halo as int));
            let mut one = self.active_windows[i];
            if one.poll(states[i]) {
                renew.push(i);
            }
            self.active_windows.set(i, one);
            i += 1;
        }
        proof {
            assert(self.active_windows@ == all_polled(before.active, states@));
            assert forall|j: int| 0 <= j < self@.active.len() implies sound_window(
                (#[trigger] self@.active[j]).window,
                self.halo as int,
            ) by {
                assert(sound_window(before.active[j].window, self.halo as int));
            }
        }
        renew
    }

    fn count_completed(&mut self)
        requires
            sound_run(old(self)@, old(self).halo as int),
            old(self)@.completed + newly_ready_chunks(old(self)@.active) <= usize::MAX,
        ensures
            final(self)@ == (RunState {
                active: all_counted(old(self)@.active),
                completed: old(self)@.completed + newly_ready_chunks(old(self)@.active),
                ..old(self)@
            }),
            final(self).unchanging() == old(self).unchanging(),
            sound_run(final(self)@, final(self).halo as int),
    {
        let ghost before = self@;
        let mut i: usize = 0;
        assert(before.active.subrange(0, 0) == Seq::<ActivePregenWindow>::empty());
        assert(before.active.subrange(0, before.active.len() as int) == before.active);
        while i < self.active_windows.len()
            invariant
                i <= self.active_windows@.len(),
                self.active_windows@.len() == before.active.len(),
                sound_run(before, self.halo as int),
                before.completed + newly_ready_chunks(before.active) <= usize::MAX,
                self.completed == before.completed + newly_ready_chunks(
                    before.active.subrange(0, i as int),
                ),
                self@ == (RunState {
                    active: self.active_windows@,
                    completed: self.completed as int,
                    ..before
                }),
                self.unchanging() == old(self).unchanging(),
                forall|j: int|
                    0 <= j < i ==> self.active_windows@[j] == all_counted(before.active)[j],
                forall|j: int|
                    i <= j < before.active.len() ==> self.active_windows@[j] == before.active[j],
            decreases self.active_windows@.len() - i,
        {
            proof {
                assert(sound_window(before.active[i as int].window, self.halo as int));
                let longer = before.active.subrange(0, i + 1);
                assert(longer.drop_last() == before.active.subrange(0, i as int));
                assert(longer.last() == before.active[i as int]);
                lemma_newly_ready_grows(before.active, i + 1, self.halo as int, before);
            }
            let mut one = self.active_windows[i];
            if one.ready && !one.counted {
                self.completed = self.completed + one.window.chunk_count();
                one.counted = true;
            }
            self.active_windows.set(i, one);
            i += 1;
        }
        proof {
            assert(before.active.subrange(0, before.active.len() as int) == before.active);
            assert(self.active_windows@ == all_counted(before.active));
            assert forall|j: int| 0 <= j < self@.active.len() implies sound_window(
                (#[trigger] self@.active[j]).window,
                self.halo as int,
            ) by {
                assert(sound_window(before.active[j].window, self.halo as int));
            }
        }
    }

    /// The first half of a step, with how many chunks wait to unload and how each
    /// active request stands.
    ///
    /// In the second half, what is no longer needed is let go and, once the
    /// scheduler has seen that, the backlog is taken in again.
    pub fn advance(&mut self, states: &Vec<ChunkRequestState>, unloading_chunks: usize) -> (r:
        StepActions)
        requires
            sound_run(old(self)@, old(self).halo as int),
            states@.len() == old(self)@.active.len(),
            old(self)@.completed + newly_ready_chunks(all_polled(old(self)@.active, states@))
                <= usize::MAX,
        ensures
            final(self)@ == advanced(
                old(self)@,
                states@,
                unloading_chunks,
                old(self).watermarks,
                old(self).active_window_limit as int,
            ),
            r.renew@ == cancelled(states@, states@.len()),
            r.activated == final(self)@.active.len() - old(self)@.active.len(),
            r.backpressure == pressure_change(
                old(self)@.blocked,
                pressed(old(self)@.blocked, unloading_chunks, old(self).watermarks),
            ),
            final(self).unchanging() == old(self).unchanging(),
            sound_run(final(self)@, final(self).halo as int),
    {
        let backpressure = self.observe(unloading_chunks);
        let renew = self.poll_all(states);
        let ghost after_poll = self@;
        let mut activated: usize = 0;
        if !self.unload_backpressure {
            let ready: usize = count_newly_ready(&self.active_windows);
            activated = self.activate(ready);
            proof {
                lemma_fresh_not_ready(after_poll, ready as int);
            }
        }
        self.count_completed();
        let ghost mid = self@.active.len();
        if !self.unload_backpressure {
            let more: usize = self.fill_active_windows();
            assert(self.active_windows.len() == self.active_windows@.len());
            activated = activated + more;
        }
        StepActions { renew, activated, backpressure }
    }

    /// Lets go of completed windows that no incomplete one needs; whether each
    /// window was kept.
    pub fn release_unneeded_completed_windows(&mut self) -> (r: Vec<bool>)
        requires
            sound_run(old(self)@, old(self).halo as int),
        ensures
            final(self)@ == released(old(self)@, old(self).halo as int),
            r@ == Seq::new(
                old(self)@.active.len(),
                |i: int| kept(old(self)@.active, old(self).halo as int, i),
            ),
            final(self).unchanging() == old(self).unchanging(),
            sound_run(final(self)@, final(self).halo as int),
    {
        let ghost before = self@;
        let mut left: Vec<ActivePregenWindow> = Vec::new();
        let mut flags: Vec<bool> = Vec::new();
        let mut i: usize = 0;
        while i < self.active_windows.len()
            invariant
                i <= self.active_windows@.len(),
                self@ == before,
                self.unchanging() == old(self).unchanging(),
                sound_run(before, self.halo as int),
                left@ == retained(before.active, self.halo as int, i as nat),
                flags@.len() == i,
                forall|j: int|
                    0 <= j < i ==> #[trigger] flags@[j] == kept(
                        before.active,
                        self.halo as int,
                        j,
                    ),
                forall|j: int|
                    0 <= j < left@.len() ==> sound_window(
                        (#[trigger] left@[j]).window,
                        self.halo as int,
                    ),
            decreases self.active_windows@.len() - i,
        {
            assert(sound_window(before.active[i as int].window, self.halo as int));
            let keep = !self.active_windows[i].ready || self.is_needed(
                self.active_windows[i].window,
            );
            if keep {
                left.push(self.active_windows[i]);
            }
            flags.push(keep);
            i += 1;
        }
        self.active_windows = left;
        proof {
            assert forall|j: int| 0 <= j < self@.active.len() implies sound_window(
                (#[trigger] self@.active[j]).window,
                self.halo as int,
            ) by {
                assert(self@.active[j] == left@[j]);
            }
        }
        flags
    }

    /// Whether an incomplete window's dependency area overlaps the window's.
    fn is_needed(&self, window: PregenWindow) -> (r: bool)
        requires
            sound_run(self@, self.halo as int),
            sound_window(window, self.halo as int),
        ensures
            r == still_needed(window, self@.active, self.halo as int),
    {
        let protected = window.protected_rect(self.halo);
        let mut j: usize = 0;
        while j < self.active_windows.len()
            invariant
                j <= self.active_windows@.len(),
                sound_run(self@, self.halo as int),
                protected == window.grown(self.halo as int),
                forall|k: int|
                    0 <= k < j ==> (#[trigger] self@.active[k]).ready || !windows::rects_overlap(
                        window.grown(self.halo as int),
                        self@.active[k].window.grown(self.halo as int),
                    ),
            decreases self.active_windows@.len() - j,
        {
            assert(sound_window(self@.active[j as int].window, self.halo as int));
            if !self.active_windows[j].ready && protected.overlaps(
                self.active_windows[j].window.protected_rect(self.halo),
            ) {
                return true;
            }
            j += 1;
        }
        false
    }

    /// Whether chunks of the area are left to complete.
    pub fn has_chunks_left(&self) -> (r: bool)
        ensures
            r == (self@.completed < self.total_chunks),
    {
        self.completed < self.total_chunks
    }

    /// Whether every chunk of the area is complete, and none was counted twice.
    pub fn is_finished(&self) -> (r: bool)
        ensures
            r == (self@.completed == self.total_chunks),
    {
        self.completed == self.total_chunks
    }

    /// Lets go of every window.
    pub fn release_all_windows(&mut self)
        ensures
            final(self)@ == (RunState { active: Seq::empty(), ..old(self)@ }),
            final(self).unchanging() == old(self).unchanging(),
    {
        self.active_windows.clear();
    }

    /// The number of chunks done so far, those of unfinished windows included.
    pub fn progress(&self) -> (r: usize)
        requires
            self@.completed + ready_in_active(self@.active) <= usize::MAX,
        ensures
            r == pregen::least(
                self@.completed + ready_in_active(self@.active),
                self.total_chunks as int,
            ),
    {
        let ghost all = self@.active;
        let mut sum: usize = self.completed;
        let mut i: usize = 0;
        assert(all.subrange(0, 0) == Seq::<ActivePregenWindow>::empty());
        assert(all.subrange(0, all.len() as int) == all);
        while i < self.active_windows.len()
            invariant
                i <= self.active_windows@.len(),
                all == self.active_windows@,
                self.completed + ready_in_active(all) <= usize::MAX,
                sum == self.completed + ready_in_active(all.subrange(0, i as int)),
            decreases self.active_windows@.len() - i,
        {
            proof {
                let longer = all.subrange(0, i + 1);
                assert(longer.drop_last() == all.subrange(0, i as int));
                assert(longer.last() == all[i as int]);
                lemma_ready_grows(all, i + 1);
            }
            if !self.active_windows[i].counted {
                sum = sum + self.active_windows[i].ready_chunks;
            }
            i += 1;
        }
        assert(all.subrange(0, all.len() as int) == all);
        if sum <= self.total_chunks {
            sum
        } else {
            self.total_chunks
        }
    }
}

proof fn lemma_ready_grows(active: Seq<ActivePregenWindow>, i: int)
    requires
        0 <= i <= active.len(),
    ensures
        ready_in_active(active.subrange(0, i)) <= ready_in_active(active),
    decreases active.len() - i,
{
    if i == active.len() {
        assert(active.subrange(0, i) == active);
    } else {
        let longer = active.subrange(0, i + 1);
        assert(longer.drop_last() == active.subrange(0, i));
        lemma_ready_grows(active, i + 1);
    }
}

proof fn lemma_newly_ready_grows(active: Seq<ActivePregenWindow>, i: int, halo: int, st: RunState)
    requires
        0 <= i <= active.len(),
        active == st.active,
        sound_run(st, halo),
    ensures
        newly_ready_chunks(active.subrange(0, i)) <= newly_ready_chunks(active),
    decreases active.len() - i,
{
    if i == active.len() {
        assert(active.subrange(0, i) == active);
    } else {
        let longer = active.subrange(0, i + 1);
        assert(longer.drop_last() == active.subrange(0, i));
        assert(longer.last() == active[i]);
        assert(sound_window(st.active[i].window, halo));
        let w = active[i].window;
        assert((w.max_x - w.min_x + 1) * (w.max_z - w.min_z + 1) >= 0) by (nonlinear_arith)
            requires
                w.max_x >= w.min_x,
                w.max_z >= w.min_z,
        ;
        lemma_newly_ready_grows(active, i + 1, halo, st);
    }
}

/// Windows just requested are not ready: admitting some changes neither what is
/// newly ready nor its chunks.
proof fn lemma_fresh_not_ready(st: RunState, count: int)
    ensures
        newly_ready_chunks(admitted(st, count).active) == newly_ready_chunks(st.active),
        newly_ready(admitted(st, count).active) == newly_ready(st.active),
{
    let n = if count < 0 {
        0
    } else if count <= st.pending.len() {
        count
    } else {
        st.pending.len() as int
    };
    lemma_append_fresh(st.active, st.pending.subrange(0, n));
}

proof fn lemma_append_fresh(active: Seq<ActivePregenWindow>, list: Seq<PregenWindow>)
    ensures
        newly_ready_chunks(active + all_fresh(list)) == newly_ready_chunks(active),
        newly_ready(active + all_fresh(list)) == newly_ready(active),
        incomplete(active + all_fresh(list)) == incomplete(active) + list.len(),
    decreases list.len(),
{
    let all = active + all_fresh(list);
    if list.len() == 0 {
        assert(all == active);
    } else {
        let rest = list.drop_last();
        assert(all.drop_last() == active + all_fresh(rest));
        assert(all.last() == fresh(list.last()));
        lemma_append_fresh(active, rest);
    }
}

// ---------------------------------------------------------------------------
// Laws
// ---------------------------------------------------------------------------
/// The chunks of the windows.
pub open spec fn window_chunks(list: Seq<PregenWindow>) -> int
    decreases list.len(),
{
    if list.len() == 0 {
        0
    } else {
        window_chunks(list.drop_last()) + list.last().area()
    }
}

/// The chunks of the active windows not counted yet.
pub open spec fn uncounted_chunks(active: Seq<ActivePregenWindow>) -> int
    decreases active.len(),
{
    if active.len() == 0 {
        0
    } else {
        uncounted_chunks(active.drop_last()) + if active.last().counted {
            0
        } else {
            active.last().window.area()
        }
    }
}

/// Every chunk of the area is complete, in an active window not counted yet, or
/// still to be requested; and only ready windows are counted.
pub open spec fn accounted(st: RunState, total: int) -> bool {
    &&& st.completed + uncounted_chunks(st.active) + window_chunks(st.pending) == total
    &&& forall|i: int|
        0 <= i < st.active.len() ==> (#[trigger] st.active[i]).counted ==> st.active[i].ready
}

/// No request of a window that is already counted is cancelled.
pub open spec fn counted_requests_stand(
    active: Seq<ActivePregenWindow>,
    states: Seq<ChunkRequestState>,
) -> bool {
    forall|i: int|
        0 <= i < active.len() ==> (#[trigger] active[i]).counted ==> !(states[i] is Cancelled)
}

proof fn lemma_uncounted_append(active: Seq<ActivePregenWindow>, list: Seq<PregenWindow>)
    ensures
        uncounted_chunks(active + all_fresh(list)) == uncounted_chunks(active) + window_chunks(
            list,
        ),
    decreases list.len(),
{
    let all = active + all_fresh(list);
    if list.len() == 0 {
        assert(all == active);
    } else {
        assert(all.drop_last() == active + all_fresh(list.drop_last()));
        assert(all.last() == fresh(list.last()));
        lemma_uncounted_append(active, list.drop_last());
    }
}

proof fn lemma_window_chunks_append(a: Seq<PregenWindow>, b: Seq<PregenWindow>)
    ensures
        window_chunks(a + b) == window_chunks(a) + window_chunks(b),
    decreases b.len(),
{
    if b.len() == 0 {
        assert(a + b == a);
    } else {
        assert((a + b).drop_last() == a + b.drop_last());
        assert((a + b).last() == b.last());
        lemma_window_chunks_append(a, b.drop_last());
    }
}

proof fn lemma_admitted_accounted(st: RunState, count: int, total: int)
    requires
        accounted(st, total),
    ensures
        accounted(admitted(st, count), total),
{
    let n = if count < 0 {
        0
    } else if count <= st.pending.len() {
        count
    } else {
        st.pending.len() as int
    };
    let taken = st.pending.subrange(0, n);
    let left = st.pending.subrange(n, st.pending.len() as int);
    assert(taken + left == st.pending);
    lemma_window_chunks_append(taken, left);
    lemma_uncounted_append(st.active, taken);
    let after = admitted(st, count);
    assert forall|i: int|
        0 <= i < after.active.len() && (#[trigger] after.active[i]).counted implies after.active[i].ready by {
        if i < st.active.len() {
            assert(after.active[i] == st.active[i]);
        }
    }
}

proof fn lemma_polled_uncounted(active: Seq<ActivePregenWindow>, states: Seq<ChunkRequestState>)
    requires
        states.len() == active.len(),
        counted_requests_stand(active, states),
    ensures
        uncounted_chunks(all_polled(active, states)) == uncounted_chunks(active),
    decreases active.len(),
{
    if active.len() > 0 {
        let after = all_polled(active, states);
        let rest = active.drop_last();
        let rest_states = states.drop_last();
        assert(after.drop_last() == all_polled(rest, rest_states));
        assert forall|i: int| 0 <= i < rest.len() && (#[trigger] rest[i]).counted implies !(
        rest_states[i] is Cancelled) by {
            assert(rest[i] == active[i]);
        }
        lemma_polled_uncounted(rest, rest_states);
        assert(after.last() == polled(active.last(), states.last()));
        assert(active[active.len() - 1].counted ==> !(states[active.len() - 1] is Cancelled));
    }
}

proof fn lemma_counted_uncounted(active: Seq<ActivePregenWindow>)
    ensures
        uncounted_chunks(all_counted(active)) == uncounted_chunks(active) - newly_ready_chunks(
            active,
        ),
    decreases active.len(),
{
    if active.len() > 0 {
        let after = all_counted(active);
        assert(after.drop_last() == all_counted(active.drop_last()));
        lemma_counted_uncounted(active.drop_last());
    }
}

proof fn lemma_retained_uncounted(active: Seq<ActivePregenWindow>, halo: int, n: nat)
    requires
        n <= active.len(),
        forall|i: int|
            0 <= i < active.len() ==> ((#[trigger] active[i]).ready ==> active[i].counted),
    ensures
        uncounted_chunks(retained(active, halo, n)) == uncounted_chunks(
            active.subrange(0, n as int),
        ),
        forall|i: int|
            0 <= i < retained(active, halo, n).len() ==> exists|j: int|
                0 <= j < active.len() && (#[trigger] retained(active, halo, n)[i]) == active[j],
    decreases n,
{
    if n > 0 {
        let m = (n - 1) as nat;
        lemma_retained_uncounted(active, halo, m);
        let longer = active.subrange(0, n as int);
        assert(longer.drop_last() == active.subrange(0, m as int));
        assert(longer.last() == active[n - 1]);
        let before = retained(active, halo, m);
        let after = retained(active, halo, n);
        if kept(active, halo, n - 1) {
            assert(after.drop_last() == before);
            assert(after.last() == active[n - 1]);
        }
        assert forall|i: int| 0 <= i < after.len() implies exists|j: int|
            0 <= j < active.len() && (#[trigger] after[i]) == active[j] by {
            if i < before.len() {
                assert(after[i] == before[i]);
                let j = choose|j: int| 0 <= j < active.len() && before[i] == active[j];
                assert(after[i] == active[j]);
            } else {
                assert(after[i] == active[n - 1]);
            }
        }
    } else {
        assert(active.subrange(0, 0) == Seq::<ActivePregenWindow>::empty());
    }
}

/// As long as no counted window's request is cancelled, a step loses no chunk
/// and counts none twice.
pub proof fn a_step_accounts_for_every_chunk(
    st: RunState,
    states: Seq<ChunkRequestState>,
    unloading: usize,
    marks: UnloadBackpressure,
    limit: int,
    total: int,
)
    requires
        accounted(st, total),
        states.len() == st.active.len(),
        counted_requests_stand(st.active, states),
    ensures
        accounted(advanced(st, states, unloading, marks, limit), total),
        forall|i: int|
            0 <= i < advanced(st, states, unloading, marks, limit).active.len() ==> ((
            #[trigger] advanced(st, states, unloading, marks, limit).active[i]).ready
                ==> advanced(st, states, unloading, marks, limit).active[i].counted),
{
    let seen = observed(st, unloading, marks);
    let after_poll = RunState { active: all_polled(seen.active, states), ..seen };
    lemma_polled_uncounted(st.active, states);
    assert forall|i: int|
        0 <= i < after_poll.active.len() && (
        #[trigger] after_poll.active[i]).counted implies after_poll.active[i].ready by {
        assert(st.active[i].counted ==> st.active[i].ready);
    }
    assert(accounted(after_poll, total));
    let replaced = if after_poll.blocked {
        after_poll
    } else {
        admitted(after_poll, newly_ready(after_poll.active) as int)
    };
    lemma_admitted_accounted(after_poll, newly_ready(after_poll.active) as int, total);
    let counted = RunState {
        active: all_counted(replaced.active),
        completed: replaced.completed + newly_ready_chunks(replaced.active),
        ..replaced
    };
    lemma_counted_uncounted(replaced.active);
    assert forall|i: int|
        0 <= i < counted.active.len() && (
        #[trigger] counted.active[i]).counted implies counted.active[i].ready by {
        assert(replaced.active[i].counted ==> replaced.active[i].ready);
    }
    assert(accounted(counted, total));
    lemma_admitted_accounted(counted, limit - incomplete(counted.active), total);
    let after = advanced(st, states, unloading, marks, limit);
    assert forall|i: int|
        0 <= i < after.active.len() && (#[trigger] after.active[i]).ready implies after.active[i].counted by {
        if i < counted.active.len() {
            assert(after.active[i] == counted.active[i]);
        }
    }
}

/// Letting go of completed windows loses no chunk either, once every ready
/// window is counted, nor does taking in the backlog afterwards.
pub proof fn releasing_accounts_for_every_chunk(
    st: RunState,
    unloading: usize,
    marks: UnloadBackpressure,
    halo: int,
    total: int,
)
    requires
        accounted(st, total),
        forall|i: int|
            0 <= i < st.active.len() ==> ((#[trigger] st.active[i]).ready ==> st.active[i].counted),
    ensures
        accounted(released(st, halo), total),
        accounted(observed(released(st, halo), unloading, marks), total),
{
    lemma_retained_uncounted(st.active, halo, st.active.len());
    assert(st.active.subrange(0, st.active.len() as int) == st.active);
    let after = released(st, halo);
    assert forall|i: int|
        0 <= i < after.active.len() && (#[trigger] after.active[i]).counted implies after.active[i].ready by {
        let left = retained(st.active, halo, st.active.len());
        assert(after.active[i] == left[i]);
        let j = choose|j: int| 0 <= j < st.active.len() && left[i] == st.active[j];
        assert(st.active[j].counted ==> st.active[j].ready);
    }
}

proof fn lemma_positive_area(window: PregenWindow)
    requires
        window.valid(),
    ensures
        window.area() >= 1,
{
    assert((window.max_x - window.min_x + 1) * (window.max_z - window.min_z + 1) >= 1)
        by (nonlinear_arith)
        requires
            window.max_x >= window.min_x,
            window.max_z >= window.min_z,
    ;
}

proof fn lemma_chunks_left(list: Seq<PregenWindow>)
    requires
        forall|i: int| 0 <= i < list.len() ==> (#[trigger] list[i]).valid(),
    ensures
        window_chunks(list) >= 0,
        list.len() > 0 ==> window_chunks(list) > 0,
    decreases list.len(),
{
    if list.len() > 0 {
        let rest = list.drop_last();
        assert forall|i: int| 0 <= i < rest.len() implies (#[trigger] rest[i]).valid() by {
            assert(rest[i] == list[i]);
        }
        lemma_chunks_left(rest);
        assert(list[list.len() - 1].valid());
        lemma_positive_area(list.last());
    }
}

proof fn lemma_uncounted_left(active: Seq<ActivePregenWindow>)
    requires
        forall|i: int| 0 <= i < active.len() ==> (#[trigger] active[i]).window.valid(),
    ensures
        uncounted_chunks(active) >= 0,
        (exists|i: int| 0 <= i < active.len() && !(#[trigger] active[i]).counted)
            ==> uncounted_chunks(active) > 0,
    decreases active.len(),
{
    if active.len() > 0 {
        let rest = active.drop_last();
        assert forall|i: int| 0 <= i < rest.len() implies (#[trigger] rest[i]).window.valid() by {
            assert(rest[i] == active[i]);
        }
        lemma_uncounted_left(rest);
        assert(active[active.len() - 1].window.valid());
        lemma_positive_area(active.last().window);
        if exists|i: int| 0 <= i < active.len() && !(#[trigger] active[i]).counted {
            let i = choose|i: int| 0 <= i < active.len() && !(#[trigger] active[i]).counted;
            if i < rest.len() {
                assert(!rest[i].counted);
            }
        }
    }
}

/// A pass is finished exactly when no window waits and every active one is
/// counted.
pub proof fn a_pass_finishes_when_every_window_is_counted(st: RunState, halo: int, total: int)
    requires
        accounted(st, total),
        sound_run(st, halo),
    ensures
        st.completed <= total,
        st.completed == total <==> st.pending.len() == 0 && forall|i: int|
            0 <= i < st.active.len() ==> (#[trigger] st.active[i]).counted,
{
    assert forall|i: int| 0 <= i < st.pending.len() implies (#[trigger] st.pending[i]).valid() by {
        assert(sound_window(st.pending[i], halo));
    }
    assert forall|i: int| 0 <= i < st.active.len() implies (
    #[trigger] st.active[i]).window.valid() by {
        assert(sound_window(st.active[i].window, halo));
    }
    lemma_chunks_left(st.pending);
    lemma_uncounted_left(st.active);
    if st.pending.len() == 0 && forall|i: int|
        0 <= i < st.active.len() ==> (#[trigger] st.active[i]).counted {
        lemma_all_counted(st.active);
    }
}

proof fn lemma_all_counted(active: Seq<ActivePregenWindow>)
    requires
        forall|i: int| 0 <= i < active.len() ==> (#[trigger] active[i]).counted,
    ensures
        uncounted_chunks(active) == 0,
    decreases active.len(),
{
    if active.len() > 0 {
        let rest = active.drop_last();
        assert forall|i: int| 0 <= i < rest.len() implies (#[trigger] rest[i]).counted by {
            assert(rest[i] == active[i]);
        }
        assert(active[active.len() - 1].counted);
        lemma_all_counted(rest);
    }
}

proof fn lemma_area_sums_agree(list: Seq<PregenWindow>)
    ensures
        windows::area_sum(list) == window_chunks(list),
    decreases list.len(),
{
    if list.len() > 0 {
        lemma_area_sums_agree(list.drop_last());
    }
}

/// A pass starts with every chunk of the area accounted for, and at most as
/// many windows generating as the pipeline is deep.
pub proof fn a_pass_starts_accounted(plan: PregenPlan, center: ChunkPos)
    requires
        windows::square_fits(center, plan.size.radius as int),
        plan.window_size >= 1,
        plan.size.side_length == 2 * plan.size.radius + 1,
    ensures
        accounted(
            start_state(plan, center),
            plan.size.side_length * plan.size.side_length,
        ),
        incomplete(start_state(plan, center).active) <= plan.depth.active_windows,
{
    let radius = plan.size.radius as int;
    let list = windows::serpentine(center, radius, plan.window_size as int);
    windows::the_windows_partition_the_square(center, radius, plan.window_size as int, 0, 0);
    lemma_area_sums_agree(list);
    let bare = RunState {
        pending: list,
        active: Seq::empty(),
        completed: 0,
        blocked: false,
        peak: 0,
    };
    assert(accounted(bare, plan.size.side_length * plan.size.side_length));
    lemma_admitted_accounted(
        bare,
        plan.depth.active_windows as int,
        plan.size.side_length * plan.size.side_length,
    );
    lemma_filled_bound(bare, plan.depth.active_windows as int);
}

proof fn lemma_filled_bound(st: RunState, limit: int)
    requires
        limit >= 0,
    ensures
        incomplete(filled(st, limit).active) <= limit || incomplete(filled(st, limit).active)
            == incomplete(st.active),
{
    let count = limit - incomplete(st.active);
    let n = if count < 0 {
        0
    } else if count <= st.pending.len() {
        count
    } else {
        st.pending.len() as int
    };
    lemma_append_fresh(st.active, st.pending.subrange(0, n));
}

/// No request of a ready window is cancelled.
pub open spec fn ready_requests_stand(
    active: Seq<ActivePregenWindow>,
    states: Seq<ChunkRequestState>,
) -> bool {
    forall|i: int|
        0 <= i < active.len() ==> (#[trigger] active[i]).ready ==> !(states[i] is Cancelled)
}

proof fn lemma_polled_incomplete(active: Seq<ActivePregenWindow>, states: Seq<ChunkRequestState>)
    requires
        states.len() == active.len(),
        ready_requests_stand(active, states),
        forall|i: int|
            0 <= i < active.len() ==> ((#[trigger] active[i]).ready ==> active[i].counted),
    ensures
        incomplete(all_polled(active, states)) + newly_ready(all_polled(active, states))
            <= incomplete(active),
    decreases active.len(),
{
    if active.len() > 0 {
        let after = all_polled(active, states);
        let rest = active.drop_last();
        let rest_states = states.drop_last();
        assert(after.drop_last() == all_polled(rest, rest_states));
        assert forall|i: int| 0 <= i < rest.len() && (#[trigger] rest[i]).ready implies !(
        rest_states[i] is Cancelled) by {
            assert(rest[i] == active[i]);
        }
        assert forall|i: int|
            0 <= i < rest.len() && (#[trigger] rest[i]).ready implies rest[i].counted by {
            assert(rest[i] == active[i]);
        }
        lemma_polled_incomplete(rest, rest_states);
        assert(after.last() == polled(active.last(), states.last()));
        assert(active[active.len() - 1].ready ==> !(states[active.len() - 1] is Cancelled));
        assert(active[active.len() - 1].ready ==> active[active.len() - 1].counted);
    }
}

proof fn lemma_counted_incomplete(active: Seq<ActivePregenWindow>)
    ensures
        incomplete(all_counted(active)) == incomplete(active),
    decreases active.len(),
{
    if active.len() > 0 {
        assert(all_counted(active).drop_last() == all_counted(active.drop_last()));
        lemma_counted_incomplete(active.drop_last());
    }
}

/// The number of windows generating never exceeds the pipeline's depth, as long
/// as no ready window's request is cancelled.
pub proof fn the_pipeline_keeps_its_depth(
    st: RunState,
    states: Seq<ChunkRequestState>,
    unloading: usize,
    marks: UnloadBackpressure,
    limit: int,
)
    requires
        limit >= 0,
        incomplete(st.active) <= limit,
        states.len() == st.active.len(),
        ready_requests_stand(st.active, states),
        forall|i: int|
            0 <= i < st.active.len() ==> ((#[trigger] st.active[i]).ready ==> st.active[i].counted),
    ensures
        incomplete(advanced(st, states, unloading, marks, limit).active) <= limit,
{
    let seen = observed(st, unloading, marks);
    let after_poll = RunState { active: all_polled(seen.active, states), ..seen };
    lemma_polled_incomplete(st.active, states);
    let wanted = newly_ready(after_poll.active) as int;
    let n = if wanted <= after_poll.pending.len() {
        wanted
    } else {
        after_poll.pending.len() as int
    };
    lemma_append_fresh(after_poll.active, after_poll.pending.subrange(0, n));
    let replaced = if after_poll.blocked {
        after_poll
    } else {
        admitted(after_poll, wanted)
    };
    lemma_counted_incomplete(replaced.active);
    let counted = RunState {
        active: all_counted(replaced.active),
        completed: replaced.completed + newly_ready_chunks(replaced.active),
        ..replaced
    };
    lemma_filled_bound(counted, limit);
}

} // verus!
