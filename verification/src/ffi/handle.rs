//! World handle table.
//!
//! The host holds an opaque number, never a pointer. That keeps the boundary
//! free of lifetime questions and makes a stale handle a clean failure.

use rustc_hash::FxHashMap;
use vstd::prelude::*;

use crate::fx;

verus! {

/// A registered world plus whether it is still usable.
pub struct Entry<W> {
    pub world: W,
    /// Set when generation panicked inside this world: its invariants were
    /// already violated, so continuing would generate silently wrong terrain.
    pub poisoned: bool,
}

/// The handles of a process.
pub struct HandleTable<W> {
    worlds: FxHashMap<u64, Entry<W>>,
    next_handle: u64,
}

impl<W> HandleTable<W> {
    /// What is registered under which handle.
    pub closed spec fn entries(&self) -> Map<u64, Entry<W>> {
        self.worlds@
    }

    /// The handle that is given out next.
    pub closed spec fn next(&self) -> u64 {
        self.next_handle
    }

    /// Zero is no handle, and no handle is given out twice.
    pub open spec fn well_formed(&self) -> bool {
        &&& self.next() > 0
        &&& forall|handle: u64| #[trigger]
            self.entries().contains_key(handle) ==> 0 < handle < self.next()
    }

    /// The world of a handle, if it is registered and usable.
    pub open spec fn usable(&self, handle: u64) -> Option<W> {
        if self.entries().contains_key(handle) && !self.entries()[handle].poisoned {
            Some(self.entries()[handle].world)
        } else {
            None
        }
    }

    /// No worlds.
    pub fn new() -> (r: Self)
        ensures
            r.well_formed(),
            r.next() == 1,
            r.entries() == Map::<u64, Entry<W>>::empty(),
    {
        HandleTable { worlds: FxHashMap::default(), next_handle: 1 }
    }

    /// Registers `world` and returns its handle.
    pub fn insert(&mut self, world: W) -> (r: u64)
        requires
            old(self).well_formed(),
            old(self).next() < u64::MAX,
        ensures
            final(self).well_formed(),
            r == old(self).next(),
            final(self).next() == old(self).next() + 1,
            final(self).entries() == old(self).entries().insert(
                r,
                Entry { world, poisoned: false },
            ),
    {
        let handle: u64 = self.next_handle;
        self.next_handle = handle + 1;
        fx::map_insert(&mut self.worlds, handle, Entry { world, poisoned: false });
        proof {
            assert forall|known: u64| #[trigger] self.entries().contains_key(known) implies 0
                < known < self.next() by {
                assert(old(self).entries().contains_key(known) || known == handle);
            }
        }
        handle
    }

    /// Looks up a usable world.
    ///
    /// Returns `None` if the handle is unknown or poisoned.
    pub fn get(&self, handle: u64) -> (r: Option<&W>)
        ensures
            match r {
                None => self.usable(handle) is None,
                Some(world) => self.usable(handle) == Some(*world),
            },
    {
        match fx::map_get(&self.worlds, &handle) {
            None => None,
            Some(entry) => if entry.poisoned {
                None
            } else {
                Some(&entry.world)
            },
        }
    }

    /// Marks `handle` unusable. Subsequent lookups fail until it is closed.
    pub fn poison(&mut self, handle: u64)
        requires
            old(self).well_formed(),
        ensures
            final(self).well_formed(),
            final(self).next() == old(self).next(),
            final(self).entries() == if old(self).entries().contains_key(handle) {
                old(self).entries().insert(
                    handle,
                    Entry { world: old(self).entries()[handle].world, poisoned: true },
                )
            } else {
                old(self).entries()
            },
    {
        let ghost before = self.worlds@;
        if let Some(entry) = fx::map_remove(&mut self.worlds, &handle) {
            fx::map_insert(&mut self.worlds, handle, Entry { world: entry.world, poisoned: true });
            assert(self.worlds@ =~= before.insert(
                handle,
                Entry { world: before[handle].world, poisoned: true },
            ));
        } else {
            assert(self.worlds@ =~= before);
        }
        proof {
            assert forall|known: u64| #[trigger] self.entries().contains_key(known) implies 0
                < known < self.next() by {
                assert(old(self).entries().contains_key(known) || known == handle);
            }
        }
    }

    /// Removes `handle`, returning whether it existed.
    pub fn remove(&mut self, handle: u64) -> (r: bool)
        requires
            old(self).well_formed(),
        ensures
            final(self).well_formed(),
            final(self).next() == old(self).next(),
            r == old(self).entries().contains_key(handle),
            final(self).entries() == old(self).entries().remove(handle),
    {
        let removed = fx::map_remove(&mut self.worlds, &handle).is_some();
        proof {
            assert forall|known: u64| #[trigger] self.entries().contains_key(known) implies 0
                < known < self.next() by {
                assert(old(self).entries().contains_key(known));
            }
        }
        removed
    }
}

/// A new handle is none that is in use, and leads to its world.
pub proof fn a_new_handle_is_fresh<W>(before: HandleTable<W>, after: HandleTable<W>, world: W)
    requires
        before.well_formed(),
        before.next() < u64::MAX,
        after.entries() == before.entries().insert(
            before.next(),
            Entry { world, poisoned: false },
        ),
    ensures
        before.next() != 0,
        !before.entries().contains_key(before.next()),
        after.usable(before.next()) == Some(world),
        forall|other: u64|
            other != before.next() ==> #[trigger] after.usable(other) == before.usable(other),
{
}

/// A poisoned world is unusable, but its handle can still be closed; a closed
/// handle can be closed only once. Other worlds are not affected.
pub proof fn a_poisoned_world_stays_closed_off<W>(
    before: HandleTable<W>,
    poisoned: HandleTable<W>,
    closed_off: HandleTable<W>,
    handle: u64,
)
    requires
        before.entries().contains_key(handle),
        poisoned.entries() == before.entries().insert(
            handle,
            Entry { world: before.entries()[handle].world, poisoned: true },
        ),
        closed_off.entries() == poisoned.entries().remove(handle),
    ensures
        poisoned.usable(handle) is None,
        poisoned.entries().contains_key(handle),
        closed_off.usable(handle) is None,
        !closed_off.entries().contains_key(handle),
        forall|other: u64|
            other != handle ==> #[trigger] closed_off.usable(other) == before.usable(other),
{
}

} // verus!
