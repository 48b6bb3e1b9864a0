//! Affinity masks: which CPUs a thread is allowed to run on, as bits.

use vstd::prelude::*;

use crate::cpu::topology;
use crate::text;

verus! {

/// How many CPU ids a mask can hold.
pub const MASK_CAPACITY: usize = 1024;

/// How many words a mask is made of.
pub const MASK_WORDS: usize = 16;

/// A set of CPUs, one bit each, in the layout of a `cpu_set_t`.
#[derive(Debug, Clone, Copy)]
pub struct CpuMask {
    pub words: [u64; 16],
}

/// A bit of a word.
pub open spec fn bit(word: u64, at: u64) -> bool {
    (word >> at) & 1 == 1
}

impl CpuMask {
    /// The mask holds the CPU.
    pub open spec fn holds(&self, cpu: int) -> bool {
        0 <= cpu < MASK_CAPACITY && bit(self.words@[cpu / 64], (cpu % 64) as u64)
    }
}

/// Why a list of CPUs makes no mask.
#[derive(Debug, Clone, Copy, PartialEq, Eq, Structural)]
pub enum MaskError {
    /// There is no CPU in it.
    Empty,
    /// It names an id that a mask has no bit for.
    BeyondCapacity(usize),
}

impl MaskError {
    /// The error in words.
    pub open spec fn spoken(&self) -> Seq<char> {
        match *self {
            MaskError::Empty => "an empty CPU set would not be a valid affinity mask"@,
            MaskError::BeyondCapacity(cpu) => "CPU id "@ + text::decimal(cpu as nat)
                + " is beyond the 1024 ids a cpu_set_t can hold"@,
        }
    }

    /// The error in words.
    pub fn describe(&self) -> (r: String)
        ensures
            r@ == self.spoken(),
    {
        match *self {
            MaskError::Empty => "an empty CPU set would not be a valid affinity mask".to_owned(),
            MaskError::BeyondCapacity(cpu) => {
                let mut out = "CPU id ".to_owned();
                text::push_decimal(&mut out, cpu as u64);
                out.append(" is beyond the 1024 ids a cpu_set_t can hold");
                out
            },
        }
    }
}

proof fn lemma_set_bit(word: u64, at: u64, other: u64)
    by (bit_vector)
    requires
        at < 64,
        other < 64,
    ensures
        (((word | (1u64 << at)) >> other) & 1 == 1) == (((word >> other) & 1 == 1) || other == at),
{
}

proof fn lemma_no_bits(at: u64)
    by (bit_vector)
    requires
        at < 64,
    ensures
        (0u64 >> at) & 1 == 0,
{
}

fn add_cpu(mask: &mut CpuMask, cpu: usize)
    requires
        cpu < MASK_CAPACITY,
    ensures
        forall|c: int| #[trigger] final(mask).holds(c) <==> old(mask).holds(c) || c == cpu,
{
    let at: usize = cpu / 64;
    let place: u64 = (cpu % 64) as u64;
    let word: u64 = mask.words[at];
    mask.words[at] = word | (1u64 << place);
    proof {
        assert forall|c: int| #[trigger] mask.holds(c) <==> old(mask).holds(c) || c == cpu by {
            if 0 <= c < MASK_CAPACITY {
                if c / 64 == at {
                    lemma_set_bit(word, place, (c % 64) as u64);
                }
            }
        }
    }
}

/// The mask of some CPUs.
///
/// A list that names any id the mask cannot represent is refused as a whole: a
/// thread confined to a silently truncated slice of its domain is worse than
/// an unpinned one.
pub fn mask_of_cpus(cpus: &[usize]) -> (r: Result<CpuMask, MaskError>)
    ensures
        match r {
            Ok(mask) => {
                &&& cpus@.len() > 0
                &&& forall|k: int| 0 <= k < cpus@.len() ==> cpus@[k] < MASK_CAPACITY
                &&& forall|c: int| #[trigger]
                    mask.holds(c) <==> exists|k: int| 0 <= k < cpus@.len() && cpus@[k] == c
            },
            Err(MaskError::Empty) => cpus@.len() == 0,
            Err(MaskError::BeyondCapacity(cpu)) => exists|k: int|
                {
                    &&& 0 <= k < cpus@.len()
                    &&& #[trigger] cpus@[k] == cpu
                    &&& cpu >= MASK_CAPACITY
                    &&& forall|j: int| 0 <= j < k ==> cpus@[j] < MASK_CAPACITY
                },
        },
{
    if cpus.len() == 0 {
        return Err(MaskError::Empty);
    }
    let mut mask = CpuMask { words: [0u64; 16] };
    proof {
        assert forall|c: int| !#[trigger] mask.holds(c) by {
            if 0 <= c < MASK_CAPACITY {
                lemma_no_bits((c % 64) as u64);
                assert(mask.words@[c / 64] == 0);
            }
        }
    }
    let mut i: usize = 0;
    while i < cpus.len()
        invariant
            i <= cpus@.len(),
            forall|k: int| 0 <= k < i ==> cpus@[k] < MASK_CAPACITY,
            forall|c: int| #[trigger]
                mask.holds(c) <==> exists|k: int| 0 <= k < i && cpus@[k] == c,
        decreases cpus@.len() - i,
    {
        let cpu: usize = cpus[i];
        if cpu >= MASK_CAPACITY {
            assert(cpus@[i as int] == cpu);
            return Err(MaskError::BeyondCapacity(cpu));
        }
        let ghost before = mask;
        add_cpu(&mut mask, cpu);
        proof {
            assert forall|c: int| #[trigger] mask.holds(c) <==> exists|k: int|
                0 <= k < i + 1 && cpus@[k] == c by {
                assert(before.holds(c) <==> exists|k: int| 0 <= k < i && cpus@[k] == c);
                if c == cpu {
                    assert(cpus@[i as int] == c);
                }
            }
        }
        i += 1;
    }
    Ok(mask)
}

/// The CPUs a mask holds, in ascending order.
pub fn cpus_of_mask(mask: &CpuMask) -> (r: Vec<usize>)
    ensures
        topology::ascending(r@),
        forall|cpu: usize| #[trigger] r@.contains(cpu) <==> mask.holds(cpu as int),
{
    let mut r: Vec<usize> = Vec::new();
    let mut i: usize = 0;
    while i < MASK_CAPACITY
        invariant
            i <= MASK_CAPACITY,
            topology::ascending(r@),
            forall|k: int| 0 <= k < r@.len() ==> r@[k] < i && mask.holds(r@[k] as int),
            forall|cpu: usize| cpu < i && mask.holds(cpu as int) ==> #[trigger] r@.contains(cpu),
        decreases MASK_CAPACITY - i,
    {
        let ghost before = r@;
        let place: u64 = (i % 64) as u64;
        let word: u64 = mask.words[i / 64];
        if (word >> place) & 1 == 1 {
            assert(mask.holds(i as int));
            r.push(i);
            proof {
                assert forall|cpu: usize| cpu < i + 1 && mask.holds(cpu as int) implies #[trigger]
                r@.contains(cpu) by {
                    if cpu == i {
                        assert(r@[before.len() as int] == cpu);
                    } else {
                        assert(before.contains(cpu));
                        let k = choose|k: int| 0 <= k < before.len() && before[k] == cpu;
                        assert(r@[k] == cpu);
                    }
                }
            }
        }
        i += 1;
    }
    r
}

/// Pinning to a mask's own CPUs asks for exactly the mask: the CPUs of the
/// mask made from a list are the list's, each once.
pub proof fn a_mask_holds_exactly_its_cpus(cpus: Seq<usize>, mask: CpuMask, read: Seq<usize>)
    requires
        forall|c: int| #[trigger]
            mask.holds(c) <==> exists|k: int| 0 <= k < cpus.len() && cpus[k] == c,
        topology::ascending(read),
        forall|cpu: usize| #[trigger] read.contains(cpu) <==> mask.holds(cpu as int),
    ensures
        forall|cpu: usize| #[trigger] read.contains(cpu) <==> cpus.contains(cpu),
        topology::ascending(cpus) ==> read == cpus,
{
    assert forall|cpu: usize| #[trigger] read.contains(cpu) <==> cpus.contains(cpu) by {
        assert(mask.holds(cpu as int) <==> exists|k: int| 0 <= k < cpus.len() && cpus[k] == cpu);
    }
    if topology::ascending(cpus) {
        topology::lemma_ascending_unique(read, cpus);
    }
}

} // verus!
