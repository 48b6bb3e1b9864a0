//! Running cost of the scheduling epochs driven by a pregeneration.

use vstd::prelude::*;

verus! {

/// The longest representable duration, in nanoseconds.
pub const MAX_DURATION: u128 = 18_446_744_073_709_551_615_999_999_999;

/// The phases of an epoch.
pub const PHASES: usize = 9;

/// What one scheduling epoch took, in nanoseconds per phase: ticket updates,
/// scheduling, running, unloads, readiness reconciliation, lifecycle commit,
/// readiness demotions, block-entity unloads, ticking-snapshot rebuild.
pub struct ChunkMapSchedulingTimings {
    pub phases: [u128; 9],
    pub scheduled_count: usize,
    pub rebuilt_ticking_chunk_count: usize,
}

/// Running cost of the scheduling epochs.
///
/// Every chunk has to pass through an epoch's single-threaded phases to be
/// created and to retire, so their cost bounds throughput. Tracking the maximum
/// as well as the total matters: one long epoch stalls task creation outright.
pub struct EpochCost {
    pub epochs: u64,
    /// Total time per phase.
    pub phases: [u128; 9],
    pub worst_epoch: u128,
    /// Worst single occurrence of each phase.
    pub worst_phases: [u128; 9],
    pub scheduled: usize,
    /// Largest single epoch's scheduling batch.
    pub worst_scheduled_batch: usize,
    pub ticking_chunks: usize,
}

/// The cost as mathematical values.
#[verifier::ext_equal]
pub struct Cost {
    pub epochs: int,
    pub phases: Seq<u128>,
    pub worst_epoch: int,
    pub worst_phases: Seq<u128>,
    pub scheduled: int,
    pub worst_batch: int,
    pub ticking: int,
}

impl View for EpochCost {
    type V = Cost;

    open spec fn view(&self) -> Cost {
        Cost {
            epochs: self.epochs as int,
            phases: self.phases@,
            worst_epoch: self.worst_epoch as int,
            worst_phases: self.worst_phases@,
            scheduled: self.scheduled as int,
            worst_batch: self.worst_scheduled_batch as int,
            ticking: self.ticking_chunks as int,
        }
    }
}

/// The sum of the first `n` durations.
pub open spec fn time_sum(phases: Seq<u128>, n: nat) -> int
    decreases n,
{
    if n == 0 {
        0
    } else {
        time_sum(phases, (n - 1) as nat) + phases[n - 1]
    }
}

pub open spec fn larger(a: int, b: int) -> int {
    if a >= b {
        a
    } else {
        b
    }
}

/// The cost with one more epoch recorded. An epoch that took no time is none.
pub open spec fn recorded(cost: Cost, timings: ChunkMapSchedulingTimings) -> Cost {
    let total = time_sum(timings.phases@, 9);
    if total == 0 {
        cost
    } else {
        Cost {
            epochs: cost.epochs + 1,
            phases: Seq::new(9, |i: int| (cost.phases[i] + timings.phases@[i]) as u128),
            worst_epoch: larger(cost.worst_epoch, total),
            worst_phases: Seq::new(
                9,
                |i: int|
                    if cost.worst_phases[i] >= timings.phases@[i] {
                        cost.worst_phases[i]
                    } else {
                        timings.phases@[i]
                    },
            ),
            scheduled: cost.scheduled + timings.scheduled_count,
            worst_batch: larger(cost.worst_batch, timings.scheduled_count as int),
            ticking: larger(cost.ticking, timings.rebuilt_ticking_chunk_count as int),
        }
    }
}

/// No sum exceeds what a duration or a counter can hold.
pub open spec fn record_fits(cost: Cost, timings: ChunkMapSchedulingTimings) -> bool {
    &&& time_sum(timings.phases@, 9) <= MAX_DURATION
    &&& cost.epochs < u64::MAX
    &&& cost.scheduled + timings.scheduled_count <= usize::MAX
    &&& forall|i: int|
        0 <= i < 9 ==> (#[trigger] cost.phases[i]) + timings.phases@[i] <= MAX_DURATION
}

pub open spec fn no_cost() -> Cost {
    Cost {
        epochs: 0,
        phases: Seq::new(9, |i: int| 0u128),
        worst_epoch: 0,
        worst_phases: Seq::new(9, |i: int| 0u128),
        scheduled: 0,
        worst_batch: 0,
        ticking: 0,
    }
}

proof fn lemma_sum_grows(phases: Seq<u128>, n: nat, k: nat)
    requires
        n <= k,
    ensures
        0 <= time_sum(phases, n) <= time_sum(phases, k),
    decreases k,
{
    if n < k {
        lemma_sum_grows(phases, n, (k - 1) as nat);
    } else if n > 0 {
        lemma_sum_grows(phases, (n - 1) as nat, (n - 1) as nat);
    }
}

fn sum_of(phases: &[u128; 9]) -> (r: u128)
    requires
        time_sum(phases@, 9) <= MAX_DURATION,
    ensures
        r == time_sum(phases@, 9),
{
    let mut total: u128 = 0;
    let mut i: usize = 0;
    while i < PHASES
        invariant
            i <= 9,
            time_sum(phases@, 9) <= MAX_DURATION,
            total == time_sum(phases@, i as nat),
        decreases 9 - i,
    {
        proof {
            lemma_sum_grows(phases@, (i + 1) as nat, 9);
        }
        total = total + phases[i];
        i += 1;
    }
    total
}

impl EpochCost {
    pub fn new() -> (r: Self)
        ensures
            r@ == no_cost(),
    {
        let r = EpochCost {
            epochs: 0,
            phases: [0, 0, 0, 0, 0, 0, 0, 0, 0],
            worst_epoch: 0,
            worst_phases: [0, 0, 0, 0, 0, 0, 0, 0, 0],
            scheduled: 0,
            worst_scheduled_batch: 0,
            ticking_chunks: 0,
        };
        assert(r@ =~= no_cost());
        r
    }

    /// Records one epoch: every phase, not a subset, so that the shares and the
    /// worst epoch are no undercounts.
    pub fn record(&mut self, timings: &ChunkMapSchedulingTimings)
        requires
            record_fits(old(self)@, *timings),
        ensures
            final(self)@ == recorded(old(self)@, *timings),
    {
        let ghost before = self@;
        let total: u128 = sum_of(&timings.phases);
        if total == 0 {
            return;
        }
        self.epochs = self.epochs + 1;
        self.scheduled = self.scheduled + timings.scheduled_count;
        if timings.scheduled_count > self.worst_scheduled_batch {
            self.worst_scheduled_batch = timings.scheduled_count;
        }
        if timings.rebuilt_ticking_chunk_count > self.ticking_chunks {
            self.ticking_chunks = timings.rebuilt_ticking_chunk_count;
        }
        if total > self.worst_epoch {
            self.worst_epoch = total;
        }
        let mut phases = self.phases;
        let mut worst = self.worst_phases;
        let mut i: usize = 0;
        while i < PHASES
            invariant
                i <= 9,
                record_fits(before, *timings),
                forall|j: int|
                    0 <= j < i ==> phases@[j] == before.phases[j] + timings.phases@[j],
                forall|j: int| i <= j < 9 ==> phases@[j] == before.phases[j],
                forall|j: int|
                    0 <= j < i ==> worst@[j] == if before.worst_phases[j] >= timings.phases@[j] {
                        before.worst_phases[j]
                    } else {
                        timings.phases@[j]
                    },
                forall|j: int| i <= j < 9 ==> worst@[j] == before.worst_phases[j],
            decreases 9 - i,
        {
            assert(before.phases[i as int] + timings.phases@[i as int] <= MAX_DURATION);
            phases[i] = phases[i] + timings.phases[i];
            if timings.phases[i] > worst[i] {
                worst[i] = timings.phases[i];
            }
            i += 1;
        }
        self.phases = phases;
        self.worst_phases = worst;
        assert(self@ =~= recorded(before, *timings));
    }

    /// The time of all phases together.
    pub fn total(&self) -> (r: u128)
        requires
            time_sum(self@.phases, 9) <= MAX_DURATION,
        ensures
            r == time_sum(self@.phases, 9),
    {
        sum_of(&self.phases)
    }

    /// The mean scheduling batch, rounded down.
    pub fn mean_batch(&self) -> (r: u64)
        ensures
            r == self@.scheduled / larger(self@.epochs, 1),
    {
        let epochs: u64 = if self.epochs >= 1 {
            self.epochs
        } else {
            1
        };
        self.scheduled as u64 / epochs
    }
}

/// The name of a phase in reports.
pub open spec fn phase_words(phase: int) -> Seq<char> {
    if phase == 0 {
        "tickets"@
    } else if phase == 1 {
        "schedule"@
    } else if phase == 2 {
        "refill"@
    } else if phase == 3 {
        "unloads"@
    } else if phase == 4 {
        "readiness"@
    } else if phase == 5 {
        "lifecycle"@
    } else if phase == 6 {
        "demotions"@
    } else if phase == 7 {
        "block-entities"@
    } else {
        "ticking-snapshot"@
    }
}

/// The name of a phase in reports.
pub fn phase_name(phase: usize) -> (r: &'static str)
    requires
        phase < 9,
    ensures
        r@ == phase_words(phase as int),
{
    match phase {
        0 => "tickets",
        1 => "schedule",
        2 => "refill",
        3 => "unloads",
        4 => "readiness",
        5 => "lifecycle",
        6 => "demotions",
        7 => "block-entities",
        _ => "ticking-snapshot",
    }
}

/// The worst epoch is at least as long as the one just recorded, no worst phase
/// is shorter than that epoch's, and neither ever shrinks.
pub proof fn the_worst_covers_every_epoch(cost: Cost, timings: ChunkMapSchedulingTimings, i: int)
    requires
        time_sum(timings.phases@, 9) > 0,
        0 <= i < 9,
    ensures
        recorded(cost, timings).worst_epoch >= time_sum(timings.phases@, 9),
        recorded(cost, timings).worst_epoch >= cost.worst_epoch,
        recorded(cost, timings).worst_phases[i] >= timings.phases@[i],
        recorded(cost, timings).worst_phases[i] >= cost.worst_phases[i],
{
}

} // verus!
