//! Collections whose order decides what a feature places where.

use std::collections::VecDeque;

use rustc_hash::FxHashSet;
use vstd::prelude::*;

use crate::fx;
use crate::pos::BlockPos;

verus! {

/// The key of a position: its coordinates side by side.
pub open spec fn position_key(pos: BlockPos) -> u128 {
    (pos.x as u32 as u128) | ((pos.y as u32 as u128) << 32) | ((pos.z as u32 as u128) << 64)
}

fn key_of(pos: BlockPos) -> (r: u128)
    ensures
        r == position_key(pos),
{
    (pos.x as u32 as u128) | ((pos.y as u32 as u128) << 32) | ((pos.z as u32 as u128) << 64)
}

proof fn lemma_key_unique(a: BlockPos, b: BlockPos)
    ensures
        position_key(a) == position_key(b) ==> a == b,
{
    let (ax, ay, az) = (a.x, a.y, a.z);
    let (bx, by, bz) = (b.x, b.y, b.z);
    assert(((ax as u32 as u128) | ((ay as u32 as u128) << 32) | ((az as u32 as u128) << 64)) == ((
    bx as u32 as u128) | ((by as u32 as u128) << 32) | ((bz as u32 as u128) << 64)) ==> ax == bx
        && ay == by && az == bz) by (bit_vector);
}

/// Block-position set that is walked in insertion order.
///
/// `entries` holds exactly the present positions, in insertion order: that is
/// what lets iteration skip a hash probe per element and lets the head be taken
/// directly.
pub struct JavaBlockPosSet {
    entries: VecDeque<BlockPos>,
    present: FxHashSet<u128>,
}

impl View for JavaBlockPosSet {
    type V = Seq<BlockPos>;

    closed spec fn view(&self) -> Seq<BlockPos> {
        self.entries@
    }
}

impl JavaBlockPosSet {
    /// No position occurs twice, and the hash set holds the keys of exactly the
    /// positions in the queue.
    pub closed spec fn well_formed(&self) -> bool {
        &&& self.entries@.no_duplicates()
        &&& forall|i: int|
            0 <= i < self.entries@.len() ==> self.present@.contains(
                position_key(#[trigger] self.entries@[i]),
            )
        &&& forall|key: u128| #[trigger]
            self.present@.contains(key) ==> exists|i: int|
                0 <= i < self.entries@.len() && position_key(#[trigger] self.entries@[i]) == key
    }

    /// Each position of a well-formed set is in it once.
    pub proof fn positions_are_distinct(&self)
        requires
            self.well_formed(),
        ensures
            self@.no_duplicates(),
    {
    }

    proof fn lemma_present(&self, pos: BlockPos)
        requires
            self.well_formed(),
        ensures
            self.present@.contains(position_key(pos)) <==> self@.contains(pos),
    {
        if self.present@.contains(position_key(pos)) {
            let i = choose|i: int|
                0 <= i < self.entries@.len() && position_key(#[trigger] self.entries@[i])
                    == position_key(pos);
            lemma_key_unique(self.entries@[i], pos);
        }
    }

    /// An empty set.
    pub fn new() -> (r: Self)
        ensures
            r.well_formed(),
            r@ == Seq::<BlockPos>::empty(),
    {
        JavaBlockPosSet { entries: VecDeque::new(), present: FxHashSet::default() }
    }

    /// Adds a position at the end, unless it is in the set; says whether it is
    /// new.
    pub fn insert(&mut self, pos: BlockPos) -> (r: bool)
        requires
            old(self).well_formed(),
        ensures
            final(self).well_formed(),
            r == !old(self)@.contains(pos),
            final(self)@ == if r {
                old(self)@.push(pos)
            } else {
                old(self)@
            },
    {
        proof {
            self.lemma_present(pos);
        }
        let key: u128 = key_of(pos);
        let ghost before = *self;
        if !fx::set_insert(&mut self.present, key) {
            assert(self.present@ =~= before.present@);
            return false;
        }
        self.entries.push_back(pos);
        proof {
            assert forall|i: int| 0 <= i < self.entries@.len() implies self.present@.contains(
                position_key(#[trigger] self.entries@[i]),
            ) by {
                if i < before.entries@.len() {
                    assert(self.entries@[i] == before.entries@[i]);
                }
            }
            assert forall|k: u128| #[trigger] self.present@.contains(k) implies exists|i: int|
                0 <= i < self.entries@.len() && position_key(#[trigger] self.entries@[i]) == k by {
                if k == key {
                    assert(self.entries@[before.entries@.len() as int] == pos);
                } else {
                    assert(before.present@.contains(k));
                    let i = choose|i: int|
                        0 <= i < before.entries@.len() && position_key(
                            #[trigger] before.entries@[i],
                        ) == k;
                    assert(self.entries@[i] == before.entries@[i]);
                }
            }
        }
        true
    }

    proof fn lemma_taken(before: Self, after: Self, at: int)
        requires
            before.well_formed(),
            0 <= at < before.entries@.len(),
            after.entries@ == before.entries@.remove(at),
            after.present@ == before.present@.remove(position_key(before.entries@[at])),
        ensures
            after.well_formed(),
    {
        let gone = before.entries@[at];
        assert forall|i: int, j: int|
            0 <= i < after.entries@.len() && 0 <= j < after.entries@.len() && i
                != j implies after.entries@[i] != after.entries@[j] by {
            let a = if i < at {
                i
            } else {
                i + 1
            };
            let b = if j < at {
                j
            } else {
                j + 1
            };
            assert(before.entries@[a] != before.entries@[b]);
        }
        assert forall|i: int| 0 <= i < after.entries@.len() implies after.present@.contains(
            position_key(#[trigger] after.entries@[i]),
        ) by {
            let a = if i < at {
                i
            } else {
                i + 1
            };
            assert(after.entries@[i] == before.entries@[a]);
            assert(before.entries@[a] != gone);
            lemma_key_unique(before.entries@[a], gone);
        }
        assert forall|k: u128| #[trigger] after.present@.contains(k) implies exists|i: int|
            0 <= i < after.entries@.len() && position_key(#[trigger] after.entries@[i]) == k by {
            assert(before.present@.contains(k));
            let a = choose|a: int|
                0 <= a < before.entries@.len() && position_key(#[trigger] before.entries@[a]) == k;
            if a < at {
                assert(after.entries@[a] == before.entries@[a]);
            } else {
                assert(after.entries@[a - 1] == before.entries@[a]);
            }
        }
    }

    /// Takes a position out, wherever it is; says whether it was in the set.
    pub fn remove(&mut self, pos: BlockPos) -> (r: bool)
        requires
            old(self).well_formed(),
        ensures
            final(self).well_formed(),
            r == old(self)@.contains(pos),
            final(self)@ == old(self)@.remove_value(pos),
    {
        proof {
            self.lemma_present(pos);
            self@.index_of_first_ensures(pos);
        }
        let key: u128 = key_of(pos);
        let ghost before = *self;
        if !fx::set_remove(&mut self.present, &key) {
            assert(self.present@ =~= before.present@);
            return false;
        }
        let count: usize = self.entries.len();
        let mut at: usize = 0;
        while at < count && self.entries[at] != pos
            invariant
                count == before.entries@.len(),
                self.entries@ == before.entries@,
                before.entries@.contains(pos),
                before.entries@.index_of_first(pos) is Some,
                0 <= before.entries@.index_of_first(pos)->0 < before.entries@.len(),
                before.entries@[before.entries@.index_of_first(pos)->0] == pos,
                at <= before.entries@.index_of_first(pos)->0,
                forall|j: int|
                    0 <= j < before.entries@.index_of_first(pos)->0 ==> before.entries@[j] != pos,
            decreases before.entries@.index_of_first(pos)->0 - at,
        {
            at += 1;
        }
        let _ = self.entries.remove(at);
        proof {
            Self::lemma_taken(before, *self, at as int);
        }
        true
    }

    /// Whether a position is in the set.
    pub fn contains(&self, pos: BlockPos) -> (r: bool)
        requires
            self.well_formed(),
        ensures
            r == self@.contains(pos),
    {
        proof {
            self.lemma_present(pos);
        }
        fx::set_contains(&self.present, &key_of(pos))
    }

    /// Whether there is no position in the set.
    pub fn is_empty(&self) -> (r: bool)
        ensures
            r == (self@.len() == 0),
    {
        self.entries.len() == 0
    }

    /// The positions in insertion order.
    pub fn java_ordered_positions(&self) -> (r: Vec<BlockPos>)
        ensures
            r@ == self@,
    {
        let mut r: Vec<BlockPos> = Vec::new();
        let mut i: usize = 0;
        while i < self.entries.len()
            invariant
                i <= self.entries@.len(),
                r@ == self.entries@.subrange(0, i as int),
            decreases self.entries@.len() - i,
        {
            r.push(self.entries[i]);
            i += 1;
            assert(r@ =~= self.entries@.subrange(0, i as int));
        }
        assert(r@ =~= self.entries@);
        r
    }

    /// Takes the position that was inserted first.
    pub fn pop_java_ordered_position(&mut self) -> (r: Option<BlockPos>)
        requires
            old(self).well_formed(),
        ensures
            final(self).well_formed(),
            match r {
                None => old(self)@.len() == 0 && final(self)@ == old(self)@,
                Some(pos) => old(self)@.len() > 0 && pos == old(self)@[0] && final(self)@ == old(
                    self)@.subrange(1, old(self)@.len() as int),
            },
    {
        let ghost before = *self;
        match self.entries.pop_front() {
            None => None,
            Some(pos) => {
                let _ = fx::set_remove(&mut self.present, &key_of(pos));
                proof {
                    assert(before.entries@.remove(0) =~= before.entries@.subrange(
                        1,
                        before.entries@.len() as int,
                    ));
                    Self::lemma_taken(before, *self, 0);
                }
                Some(pos)
            },
        }
    }
}

/// A position that is taken out and put in again goes to the end.
pub proof fn a_reinserted_position_goes_last(entries: Seq<BlockPos>, pos: BlockPos)
    requires
        entries.no_duplicates(),
    ensures
        !entries.remove_value(pos).contains(pos),
        entries.remove_value(pos).push(pos).last() == pos,
{
    entries.index_of_first_ensures(pos);
    let rest = entries.remove_value(pos);
    if entries.contains(pos) {
        let at = entries.index_of_first(pos)->0;
        assert(rest == entries.remove(at));
        if rest.contains(pos) {
            let i = choose|i: int| 0 <= i < rest.len() && rest[i] == pos;
            let a = if i < at {
                i
            } else {
                i + 1
            };
            assert(entries[a] == pos && entries[at] == pos);
        }
    }
}

} // verus!
