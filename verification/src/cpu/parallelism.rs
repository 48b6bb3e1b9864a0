//! The machine's thread count, read once before this process pins anything.
//!
//! The operating system reports the affinity mask rather than the machine, so
//! a reading taken from a thread that the server itself has pinned would size
//! every pool for a few CPUs. The first reading therefore stands, and every
//! later sizing decision uses it.

use vstd::prelude::*;

verus! {

/// What to assume when the platform will not say.
pub const FALLBACK: usize = 4;

/// The hardware parallelism as of the first reading.
#[derive(Debug, Clone, Copy)]
pub struct Machine {
    reading: Option<usize>,
}

impl Machine {
    /// The reading taken, if there is one.
    pub closed spec fn taken(&self) -> Option<usize> {
        self.reading
    }

    /// No reading yet.
    pub fn new() -> (r: Self)
        ensures
            r.taken() is None,
    {
        Machine { reading: None }
    }

    /// Hardware parallelism as of the first call, whatever is available now.
    pub fn machine_parallelism(&mut self, available: Option<usize>) -> (r: usize)
        ensures
            r == match old(self).taken() {
                Some(first) => first,
                None => match available {
                    Some(now) => now,
                    None => FALLBACK,
                },
            },
            final(self).taken() == Some(r),
    {
        match self.reading {
            Some(first) => first,
            None => {
                let first: usize = match available {
                    Some(now) => now,
                    None => FALLBACK,
                };
                self.reading = Some(first);
                first
            },
        }
    }

    /// Takes the reading now, so that later calls cannot see a mask this
    /// process installed on itself.
    pub fn snapshot(&mut self, available: Option<usize>)
        ensures
            final(self).taken() == Some(
                match old(self).taken() {
                    Some(first) => first,
                    None => match available {
                        Some(now) => now,
                        None => FALLBACK,
                    },
                },
            ),
    {
        let _ = self.machine_parallelism(available);
    }
}

} // verus!
