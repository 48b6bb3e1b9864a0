//! Ore veins: which positions a vein tests, and what replaces what.
//!
//! A vein is a row of spheres. The blocks within them are candidates; each is
//! tried once, in a fixed order, and a block that one of the vein's targets
//! matches is replaced by that target's state.

use vstd::prelude::*;

use crate::feature::ore_application;
use crate::pos;
use crate::pos::BlockPos;
use crate::small;
use crate::small::{Ids, Places, Words};

verus! {

// ---------------------------------------------------------------------------
// Tested positions
// ---------------------------------------------------------------------------
/// The box that a vein is looked for in, as a numbering of its positions.
#[derive(Debug, Clone, Copy)]
pub struct OreSearchVolume {
    pub size_xz: i64,
    pub size_xz_y: i64,
    pub tested_position_count: usize,
}

impl OreSearchVolume {
    /// The number of a position, from its offsets into the box.
    pub open spec fn number(&self, x: int, y: int, z: int) -> int {
        x + y * self.size_xz + z * self.size_xz_y
    }

    /// The sizes are positive, and their product is what the box counts.
    pub open spec fn well_formed(&self) -> bool {
        &&& self.size_xz > 0
        &&& self.size_xz_y > 0
        &&& self.size_xz_y * self.size_xz == self.tested_position_count
    }

    /// A box of the given sizes, unless it is empty or too large to count.
    pub fn new(size_xz: i32, size_y: i32) -> (r: Option<Self>)
        ensures
            match r {
                None => size_xz <= 0 || size_y <= 0 || size_xz * size_y * size_xz > i64::MAX
                    || size_xz * size_y * size_xz > usize::MAX,
                Some(volume) => {
                    &&& size_xz > 0 && size_y > 0
                    &&& volume.size_xz == size_xz
                    &&& volume.size_xz_y == size_xz * size_y
                    &&& volume.tested_position_count == size_xz * size_y * size_xz
                    &&& volume.well_formed()
                },
            },
    {
        if size_xz <= 0 || size_y <= 0 {
            return None;
        }
        proof {
            let (a, b) = (size_xz as int, size_y as int);
            assert(0 < a * b <= 0x7fff_ffff * 0x7fff_ffff) by (nonlinear_arith)
                requires
                    0 < a <= 0x7fff_ffff,
                    0 < b <= 0x7fff_ffff,
            ;
            let p = a * b;
            assert(0 < p * a <= 0x7fff_ffff * 0x7fff_ffff * 0x7fff_ffff) by (nonlinear_arith)
                requires
                    0 < a <= 0x7fff_ffff,
                    0 < p <= 0x7fff_ffff * 0x7fff_ffff,
            ;
        }
        let size_xz_y: i64 = size_xz as i64 * size_y as i64;
        let count: i128 = size_xz_y as i128 * size_xz as i128;
        if count > i64::MAX as i128 || count > usize::MAX as i128 {
            return None;
        }
        Some(
            OreSearchVolume {
                size_xz: size_xz as i64,
                size_xz_y,
                tested_position_count: count as usize,
            },
        )
    }

    /// The number of a position, unless it lies before the box.
    pub fn index_from_offsets(self, x_offset: i64, y_offset: i64, z_offset: i64) -> (r: Option<
        usize,
    >)
        requires
            self.well_formed(),
            x_offset >= 0 && y_offset >= 0 && z_offset >= 0 ==> self.number(
                x_offset as int,
                y_offset as int,
                z_offset as int,
            ) <= i64::MAX,
        ensures
            r == numbered(self, x_offset as int, y_offset as int, z_offset as int),
    {
        if x_offset < 0 || y_offset < 0 || z_offset < 0 {
            return None;
        }
        proof {
            let (y, z, a, b) = (
                y_offset as int,
                z_offset as int,
                self.size_xz as int,
                self.size_xz_y as int,
            );
            assert(y * a >= 0 && z * b >= 0) by (nonlinear_arith)
                requires
                    y >= 0,
                    z >= 0,
                    a > 0,
                    b > 0,
            ;
        }
        let index: i64 = x_offset + y_offset * self.size_xz + z_offset * self.size_xz_y;
        if index as u64 <= usize::MAX as u64 {
            Some(index as usize)
        } else {
            None
        }
    }
}

/// The number of a position in a box, if it has one.
pub open spec fn numbered(volume: OreSearchVolume, x: int, y: int, z: int) -> Option<usize> {
    if x < 0 || y < 0 || z < 0 || volume.number(x, y, z) > usize::MAX {
        None
    } else {
        Some(volume.number(x, y, z) as usize)
    }
}

/// The positions of a vein that were tested, by number.
pub struct OreTestedPositions {
    words: Words,
}

/// A bit of a word.
pub open spec fn word_bit(word: u64, at: u64) -> bool {
    word & (1u64 << at) != 0
}

proof fn lemma_mark(word: u64, at: u64, other: u64)
    by (bit_vector)
    requires
        at < 64,
        other < 64,
    ensures
        ((word | (1u64 << at)) & (1u64 << other) != 0) == ((word & (1u64 << other) != 0) || other
            == at),
        0u64 & (1u64 << other) == 0,
{
}

impl OreTestedPositions {
    /// The position of this number was tested.
    pub closed spec fn holds(&self, index: int) -> bool {
        0 <= index && index / 64 < small::words(self.words).len() && word_bit(
            small::words(self.words)[index / 64],
            (index % 64) as u64,
        )
    }

    /// Room for this many positions, none of them tested.
    pub fn with_capacity(bit_count: usize) -> (r: Self)
        ensures
            forall|index: int| !#[trigger] r.holds(index),
    {
        let count: usize = if bit_count % 64 == 0 {
            bit_count / 64
        } else {
            bit_count / 64 + 1
        };
        let words = small::zero_words(count);
        let r = OreTestedPositions { words };
        proof {
            assert forall|index: int| !#[trigger] r.holds(index) by {
                if 0 <= index && index / 64 < small::words(words).len() {
                    lemma_mark(0, 0, (index % 64) as u64);
                    assert(small::words(words)[index / 64] == 0);
                }
            }
        }
        r
    }

    /// Records a position's number, returning whether it had not been seen
    /// before.
    pub fn insert(&mut self, index: usize) -> (r: bool)
        ensures
            r == !old(self).holds(index as int),
            forall|other: int| #[trigger]
                final(self).holds(other) <==> old(self).holds(other) || other == index,
    {
        let at: usize = index / 64;
        let place: u64 = (index % 64) as u64;
        let mask: u64 = 1u64 << place;
        let ghost before = small::words(self.words);
        if at >= small::word_count(&self.words) {
            small::resize_words(&mut self.words, at + 1);
        }
        let word: u64 = small::word_at(&self.words, at);
        let ghost grown = small::words(self.words);
        proof {
            lemma_mark(0, 0, place);
            assert forall|other: int| #![trigger grown[other / 64]]
                0 <= other && other / 64 < grown.len() implies word_bit(
                grown[other / 64],
                (other % 64) as u64,
            ) == (other / 64 < before.len() && word_bit(
                before[other / 64],
                (other % 64) as u64,
            )) by {
                lemma_mark(0, 0, (other % 64) as u64);
            }
            assert(word == grown[index as int / 64]);
        }
        if word & mask != 0 {
            proof {
                assert forall|other: int| #[trigger] self.holds(other) <==> old(self).holds(other)
                    || other == index by {
                    if 0 <= other && other / 64 < grown.len() {
                        assert(grown[other / 64] == grown[other / 64]);
                    }
                }
            }
            return false;
        }
        small::set_word(&mut self.words, at, word | mask);
        proof {
            let after = small::words(self.words);
            assert forall|other: int| #[trigger] self.holds(other) <==> old(self).holds(other)
                || other == index by {
                if 0 <= other && other / 64 < grown.len() {
                    assert(grown[other / 64] == grown[other / 64]);
                    lemma_mark(word, place, (other % 64) as u64);
                    if other / 64 == at {
                        assert(after[other / 64] == word | mask);
                    } else {
                        assert(after[other / 64] == grown[other / 64]);
                    }
                }
            }
        }
        true
    }
}

// ---------------------------------------------------------------------------
// Positions by section
// ---------------------------------------------------------------------------
/// A section of a chunk, counted from the bottom.
#[derive(Debug, Clone, Copy, PartialEq, Eq, Structural)]
pub struct PendingOreSectionKey {
    pub chunk_x: i32,
    pub chunk_z: i32,
    pub section_index: usize,
}

/// The section that a position at or above the bottom lies in.
pub open spec fn section_key(min_y: int, pos: BlockPos) -> PendingOreSectionKey {
    PendingOreSectionKey {
        chunk_x: pos::section_of(pos.x as int) as i32,
        chunk_z: pos::section_of(pos.z as int) as i32,
        section_index: ((pos.y - min_y) / 16) as usize,
    }
}

impl PendingOreSectionKey {
    /// The section that a position at or above the bottom lies in.
    pub fn from_in_height_coords(min_y: i32, x: i32, y: i32, z: i32) -> (r: Self)
        requires
            min_y <= y,
            y - min_y <= i32::MAX,
        ensures
            r == section_key(min_y as int, BlockPos { x, y, z }),
    {
        PendingOreSectionKey {
            chunk_x: pos::block_to_section_coord(x),
            chunk_z: pos::block_to_section_coord(z),
            section_index: ((y - min_y) / 16) as usize,
        }
    }
}

/// The place of a position within its section: four bits for each coordinate,
/// height first, then depth, then width.
pub open spec fn packed_place(pos: BlockPos) -> u16 {
    (pos.y as int % 16 * 256 + pos.z as int % 16 * 16 + pos.x as int % 16) as u16
}

fn low_bits(v: i32) -> (r: u16)
    ensures
        r == v as int % 16,
        r < 16,
{
    assert(v & 15 == v as int % 16 && 0 <= v & 15 < 16) by (bit_vector);
    (v & 15) as u16
}

fn pack_place(at: BlockPos) -> (r: u16)
    ensures
        r == packed_place(at),
{
    low_bits(at.y) * 256 + low_bits(at.z) * 16 + low_bits(at.x)
}

/// Distinct positions of a section have distinct places in it.
pub proof fn places_are_distinct(min_y: int, a: BlockPos, b: BlockPos)
    requires
        min_y <= a.y,
        min_y <= b.y,
        a.y - min_y <= i32::MAX,
        b.y - min_y <= i32::MAX,
        section_key(min_y, a) == section_key(min_y, b),
        packed_place(a) == packed_place(b),
    ensures
        a == b,
{
}

/// The positions waiting to be tried in one section.
#[derive(Debug)]
pub struct PendingOreSection {
    pub key: PendingOreSectionKey,
    pub positions: Places,
}

impl PendingOreSection {
    /// The packed places that wait in the section, in order.
    pub fn places(&self) -> (r: Vec<u16>)
        ensures
            r@ == small::places(self.positions),
    {
        small::places_vec(&self.positions)
    }
}

/// Sections with what waits in them.
pub open spec fn pending(sections: Seq<PendingOreSection>) -> Seq<
    (PendingOreSectionKey, Seq<u16>),
> {
    Seq::new(sections.len(), |i: int| (sections[i].key, small::places(sections[i].positions)))
}

/// Sections no two of which are the same.
pub open spec fn distinct_sections(sections: Seq<(PendingOreSectionKey, Seq<u16>)>) -> bool {
    forall|i: int, j: int| 0 <= i < j < sections.len() ==> sections[i].0 != sections[j].0
}

/// Sections with one more place waiting in the given one, which is added at the
/// end if it is not there.
pub open spec fn with_place(
    sections: Seq<(PendingOreSectionKey, Seq<u16>)>,
    key: PendingOreSectionKey,
    place: u16,
) -> Seq<(PendingOreSectionKey, Seq<u16>)> {
    if exists|i: int| 0 <= i < sections.len() && (#[trigger] sections[i]).0 == key {
        let i = choose|i: int| 0 <= i < sections.len() && (#[trigger] sections[i]).0 == key;
        sections.update(i, (key, sections[i].1.push(place)))
    } else {
        sections.push((key, seq![place]))
    }
}

/// Puts a place among those that wait in its section.
pub fn push_pending_ore_position(
    sections: &mut Vec<PendingOreSection>,
    key: PendingOreSectionKey,
    place: u16,
)
    requires
        distinct_sections(pending(old(sections)@)),
    ensures
        pending(final(sections)@) == with_place(pending(old(sections)@), key, place),
        distinct_sections(pending(final(sections)@)),
{
    let ghost before = pending(sections@);
    let ghost start = sections@;
    let count: usize = sections.len();
    let mut at: usize = if count > 0 && sections[count - 1].key == key {
        count - 1
    } else {
        0
    };
    proof {
        if at > 0 {
            assert forall|i: int| 0 <= i < at implies sections@[i].key != key by {
                assert(before[i].0 != before[at as int].0);
            }
        }
    }
    while at < count && sections[at].key != key
        invariant
            at <= count,
            count == sections@.len(),
            sections@ == start,
            forall|i: int| 0 <= i < at ==> (#[trigger] sections@[i]).key != key,
        decreases count - at,
    {
        at += 1;
    }
    if at < count {
        small::push_place(&mut sections[at].positions, place);
        proof {
            assert(before[at as int].0 == key);
            let i = choose|i: int| 0 <= i < before.len() && (#[trigger] before[i]).0 == key;
            assert(i == at) by {
                if i < at {
                    assert(start[i].key != key);
                } else if i > at {
                    assert(before[at as int].0 != before[i].0);
                }
            }
            assert(pending(sections@) =~= with_place(before, key, place));
        }
    } else {
        let mut positions = small::no_places();
        small::push_place(&mut positions, place);
        sections.push(PendingOreSection { key, positions });
        proof {
            assert forall|i: int| 0 <= i < before.len() implies (#[trigger] before[i]).0
                != key by {
                assert(start[i].key != key);
            }
            assert(small::places(positions) =~= seq![place]);
            assert(pending(sections@) =~= with_place(before, key, place));
        }
    }
}

// ---------------------------------------------------------------------------
// Targets
// ---------------------------------------------------------------------------
/// What a target replaces: one block, or any block of a tag.
#[derive(Debug)]
pub enum ResolvedOreRuleTest {
    Block(usize),
    Tag(Ids),
}

/// A rule and the state that replaces what it matches.
#[derive(Debug)]
pub struct ResolvedOreTarget {
    pub matcher: ResolvedOreRuleTest,
    pub state: u16,
}

impl ResolvedOreTarget {
    /// The target replaces this block.
    pub open spec fn matches(&self, block_id: usize) -> bool {
        match self.matcher {
            ResolvedOreRuleTest::Block(id) => block_id == id,
            ResolvedOreRuleTest::Tag(list) => small::ids(list).contains(block_id),
        }
    }

    /// Whether the target replaces this block.
    pub fn matches_block_id(&self, block_id: usize) -> (r: bool)
        ensures
            r == self.matches(block_id),
    {
        match &self.matcher {
            ResolvedOreRuleTest::Block(id) => block_id == *id,
            ResolvedOreRuleTest::Tag(list) => small::holds_id(list, block_id),
        }
    }
}

/// A target as configured: the blocks it replaces and the state it puts there.
#[derive(Debug)]
pub enum OreRule {
    /// One block.
    BlockMatch(usize),
    /// The blocks of a tag.
    TagMatch(Vec<usize>),
}

/// The rule matches a block.
pub open spec fn rule_matches(rule: OreRule, block_id: usize) -> bool {
    match rule {
        OreRule::BlockMatch(id) => block_id == id,
        OreRule::TagMatch(list) => list@.contains(block_id),
    }
}

/// The targets of a vein, in order.
#[derive(Debug)]
pub struct ResolvedOreTargets {
    pub targets: Vec<ResolvedOreTarget>,
}

/// The first target from `from` on that replaces a block.
pub open spec fn first_match(targets: Seq<ResolvedOreTarget>, block_id: usize, from: int) -> Option<
    int,
>
    decreases targets.len() - from,
{
    if from >= targets.len() {
        None
    } else if targets[from].matches(block_id) {
        Some(from)
    } else {
        first_match(targets, block_id, from + 1)
    }
}

impl ResolvedOreTargets {
    /// What a state is replaced by, given which block each state belongs to.
    pub open spec fn replacement_of(&self, blocks: Seq<usize>, state: u16) -> Option<u16> {
        match first_match(self.targets@, blocks[state as int], 0) {
            Some(i) => Some(self.targets@[i].state),
            None => None,
        }
    }

    /// The targets of a configuration.
    pub fn from_config(config: &Vec<(OreRule, u16)>) -> (r: Self)
        ensures
            r.targets@.len() == config@.len(),
            forall|i: int|
                0 <= i < config@.len() ==> (#[trigger] r.targets@[i]).state == config@[i].1 && forall|
                    block_id: usize,
                | #[trigger]
                    r.targets@[i].matches(block_id) == rule_matches(config@[i].0, block_id),
    {
        let mut targets: Vec<ResolvedOreTarget> = Vec::new();
        let mut i: usize = 0;
        while i < config.len()
            invariant
                i <= config@.len(),
                targets@.len() == i,
                forall|k: int|
                    0 <= k < i ==> (#[trigger] targets@[k]).state == config@[k].1 && forall|
                        block_id: usize,
                    | #[trigger]
                        targets@[k].matches(block_id) == rule_matches(config@[k].0, block_id),
            decreases config@.len() - i,
        {
            let matcher = match &config[i].0 {
                OreRule::BlockMatch(id) => ResolvedOreRuleTest::Block(*id),
                OreRule::TagMatch(list) => ResolvedOreRuleTest::Tag(
                    small::ids_from(list.as_slice()),
                ),
            };
            targets.push(ResolvedOreTarget { matcher, state: config[i].1 });
            i += 1;
        }
        ResolvedOreTargets { targets }
    }

    /// The first target from `from` on that replaces a block.
    pub fn next_match(&self, block_id: usize, from: usize) -> (r: Option<usize>)
        ensures
            match r {
                None => first_match(self.targets@, block_id, from as int) is None,
                Some(i) => first_match(self.targets@, block_id, from as int) == Some(i as int)
                    && from <= i < self.targets@.len(),
            },
    {
        let mut i: usize = from;
        while i < self.targets.len()
            invariant
                from <= i,
                first_match(self.targets@, block_id, from as int) == first_match(
                    self.targets@,
                    block_id,
                    i as int,
                ),
            decreases self.targets@.len() - i,
        {
            if self.targets[i].matches_block_id(block_id) {
                return Some(i);
            }
            i += 1;
        }
        None
    }

    /// What a state is replaced by, given which block each state belongs to.
    pub fn matching_replacement(&self, state_to_block_id: &Vec<usize>, state: u16) -> (r: Option<
        u16,
    >)
        requires
            state < state_to_block_id@.len(),
        ensures
            r == self.replacement_of(state_to_block_id@, state),
    {
        match self.next_match(state_to_block_id[state as usize], 0) {
            Some(i) => Some(self.targets[i].state),
            None => None,
        }
    }
}

/// Slots of the replacement memo.
pub const MEMO_SLOTS: usize = 16;

/// The key of a slot without an answer; no state has it.
pub const MEMO_EMPTY: u32 = 0xffff_ffff;

/// Direct-mapped memo over [`ResolvedOreTargets::matching_replacement`].
pub struct OreReplacementMemo {
    /// State and answer per slot.
    entries: [(u32, Option<u16>); 16],
}

impl OreReplacementMemo {
    /// Every answer in the memo is the one the targets give.
    pub closed spec fn agrees(&self, targets: ResolvedOreTargets, blocks: Seq<usize>) -> bool {
        forall|i: int|
            0 <= i < MEMO_SLOTS && (#[trigger] self.entries@[i]).0 != MEMO_EMPTY
                ==> self.entries@[i].0 <= u16::MAX && self.entries@[i].1 == targets.replacement_of(
                blocks,
                self.entries@[i].0 as u16,
            )
    }

    /// A memo without answers.
    pub fn new() -> (r: Self)
        ensures
            forall|targets: ResolvedOreTargets, blocks: Seq<usize>| #[trigger]
                r.agrees(targets, blocks),
    {
        OreReplacementMemo { entries: [(MEMO_EMPTY, None);16] }
    }

    /// What a state is replaced by: from the memo if it is there.
    pub fn replacement(
        &mut self,
        targets: &ResolvedOreTargets,
        state_to_block_id: &Vec<usize>,
        state: u16,
    ) -> (r: Option<u16>)
        requires
            old(self).agrees(*targets, state_to_block_id@),
            state < state_to_block_id@.len(),
        ensures
            r == targets.replacement_of(state_to_block_id@, state),
            final(self).agrees(*targets, state_to_block_id@),
    {
        let key: u32 = state as u32;
        let slot: usize = state as usize % MEMO_SLOTS;
        let entry: (u32, Option<u16>) = self.entries[slot];
        assert(entry == self.entries@[slot as int]);
        if entry.0 == key {
            return entry.1;
        }
        let replacement: Option<u16> = targets.matching_replacement(state_to_block_id, state);
        self.entries[slot] = (key, replacement);
        replacement
    }
}

// ---------------------------------------------------------------------------
// Scanning a row
// ---------------------------------------------------------------------------
/// Positions that one evaluation of the sphere test covers.
pub const SCAN_LANES: u64 = 8;

/// The positions of a block of lanes whose bit is set, ascending, among the
/// first `n` lanes.
pub open spec fn set_lanes(first: int, mask: u64, n: int) -> Seq<int>
    decreases n,
{
    if n <= 0 {
        Seq::empty()
    } else {
        let before = set_lanes(first, mask, n - 1);
        if word_bit(mask, (n - 1) as u64) {
            before.push(first + n - 1)
        } else {
            before
        }
    }
}

/// The positions of a row that the sphere test does not reject, ascending,
/// among the first `n`. Each mask holds the rejections of eight positions.
pub open spec fn row_positions(z_min: int, rejected: Seq<u64>, n: int) -> Seq<int>
    decreases n,
{
    if n <= 0 {
        Seq::empty()
    } else {
        let before = row_positions(z_min, rejected, n - 1);
        if word_bit(rejected[(n - 1) / 8], ((n - 1) % 8) as u64) {
            before
        } else {
            before.push(z_min + n - 1)
        }
    }
}

/// What a scan needs or gives next.
#[derive(Debug, Clone, Copy, PartialEq, Eq, Structural)]
pub enum ZStep {
    /// The next accepted position.
    Position(i32),
    /// The sphere test is to be evaluated for eight positions from here on.
    Evaluate(i32),
    /// There is no more.
    Done,
}

/// Walks the `z` positions of one ore vein node that pass the sphere test,
/// eight at a time.
#[derive(Debug, Clone, Copy)]
pub struct OreNodeZScan {
    /// First `z` of the next block of lanes to evaluate.
    pub cursor: i32,
    /// Count of `z` from `cursor` on still to evaluate.
    pub remaining: u64,
    /// First `z` of the block whose accepted lanes are in `accepted`.
    pub block_first: i32,
    /// Accepted lanes of the current block, one bit per lane, lowest `z` first.
    pub accepted: u64,
}

proof fn lemma_clear(mask: u64, lane: u64, other: u64)
    by (bit_vector)
    requires
        lane < 64,
        other < 64,
    ensures
        ((mask & !(1u64 << lane)) & (1u64 << other) != 0) == ((mask & (1u64 << other) != 0)
            && other != lane),
        mask & !(1u64 << lane) <= mask,
{
}

proof fn lemma_lane_exists(mask: u64)
    by (bit_vector)
    requires
        0 < mask < 256,
    ensures
        mask & (1u64 << 0) != 0 || mask & (1u64 << 1) != 0 || mask & (1u64 << 2) != 0 || mask & (1u64
            << 3) != 0 || mask & (1u64 << 4) != 0 || mask & (1u64 << 5) != 0 || mask & (1u64 << 6)
            != 0 || mask & (1u64 << 7) != 0,
{
}

proof fn lemma_lowest_lane(first: int, mask: u64, lane: u64, n: int)
    requires
        lane < 8,
        word_bit(mask, lane),
        forall|i: u64| i < lane ==> !#[trigger] word_bit(mask, i),
        0 <= n <= 8,
    ensures
        set_lanes(first, mask, n) == if n > lane {
            seq![first + lane] + set_lanes(first, mask & !(1u64 << lane), n)
        } else {
            Seq::<int>::empty()
        },
        n <= lane ==> set_lanes(first, mask & !(1u64 << lane), n) == Seq::<int>::empty(),
    decreases n,
{
    if n > 0 {
        lemma_lowest_lane(first, mask, lane, n - 1);
        let at = (n - 1) as u64;
        lemma_clear(mask, lane, at);
        if at < lane {
            assert(!word_bit(mask, at));
        }
        let rest = mask & !(1u64 << lane);
        if n > lane {
            assert(set_lanes(first, mask, n) =~= seq![first + lane] + set_lanes(first, rest, n));
        }
    }
}

impl OreNodeZScan {
    /// The accepted positions of the current block, ascending.
    pub open spec fn waiting(&self) -> Seq<int> {
        set_lanes(self.block_first as int, self.accepted, 8)
    }

    /// All positions of the scan are coordinates.
    pub open spec fn well_formed(&self) -> bool {
        &&& self.accepted < 256
        &&& self.remaining > 0 ==> self.cursor + self.remaining - 1 <= i32::MAX
        &&& forall|lane: u64|
            lane < 8 && #[trigger] word_bit(self.accepted, lane) ==> self.block_first + lane
                <= i32::MAX
    }

    /// A scan from `z_min` to `z_max`.
    pub fn new(z_min: i32, z_max: i32) -> (r: Self)
        requires
            z_min <= z_max,
        ensures
            r.well_formed(),
            r.cursor == z_min,
            r.remaining == z_max - z_min + 1,
            r.accepted == 0,
    {
        proof {
            assert forall|lane: u64| lane < 8 implies !#[trigger] word_bit(0, lane) by {
                lemma_mark(0, 0, lane);
            }
        }
        OreNodeZScan {
            cursor: z_min,
            remaining: (z_max as i64 - z_min as i64 + 1) as u64,
            block_first: z_min,
            accepted: 0,
        }
    }

    /// Takes over the sphere test of the next eight positions, dropping those
    /// past the end of the span.
    pub fn evaluate_next_lanes(&mut self, rejected: u64)
        requires
            old(self).well_formed(),
            old(self).remaining > 0,
        ensures
            final(self).well_formed(),
            ({
                let covered = if old(self).remaining < SCAN_LANES {
                    old(self).remaining
                } else {
                    SCAN_LANES
                };
                &&& final(self).remaining == old(self).remaining - covered
                &&& final(self).remaining > 0 ==> final(self).cursor == old(self).cursor
                    + SCAN_LANES
                &&& final(self).block_first == old(self).cursor
                &&& forall|lane: u64|
                    lane < 64 ==> (#[trigger] word_bit(final(self).accepted, lane) <==> lane
                        < covered && !word_bit(rejected, lane))
            }),
    {
        let covered: u64 = if self.remaining < SCAN_LANES {
            self.remaining
        } else {
            SCAN_LANES
        };
        proof {
            lemma_shift(covered);
        }
        let in_span: u64 = (1u64 << covered) - 1;
        let ghost before = *self;
        self.accepted = !rejected & in_span;
        self.block_first = self.cursor;
        proof {
            let accepted = self.accepted;
            assert forall|lane: u64| lane < 64 implies (#[trigger] word_bit(accepted, lane)
                <==> lane < covered && !word_bit(rejected, lane)) by {
                lemma_span(rejected, covered, in_span, lane);
            }
            lemma_span(rejected, covered, in_span, 0);
        }
        if self.remaining > SCAN_LANES {
            self.cursor = self.cursor + 8;
        }
        self.remaining = self.remaining - covered;
    }

    /// The next step of the scan: an accepted position, or what is needed to
    /// find one.
    pub fn next(&mut self) -> (r: ZStep)
        requires
            old(self).well_formed(),
        ensures
            final(self).well_formed(),
            final(self).cursor == old(self).cursor,
            final(self).remaining == old(self).remaining,
            final(self).block_first == old(self).block_first,
            match r {
                ZStep::Position(z) => {
                    &&& old(self).waiting().len() > 0
                    &&& z == old(self).waiting()[0]
                    &&& final(self).waiting() == old(self).waiting().subrange(
                        1,
                        old(self).waiting().len() as int,
                    )
                },
                ZStep::Evaluate(z) => {
                    &&& old(self).waiting().len() == 0
                    &&& old(self).remaining > 0
                    &&& z == old(self).cursor
                    &&& *final(self) == *old(self)
                },
                ZStep::Done => old(self).waiting().len() == 0 && old(self).remaining == 0
                    && *final(self) == *old(self),
            },
    {
        if self.accepted != 0 {
            let mask: u64 = self.accepted;
            proof {
                lemma_lane_exists(mask);
                reveal_with_fuel(set_lanes, 9);
            }
            let mut lane: u64 = 0;
            while lane < 8 && mask & (1u64 << lane) == 0
                invariant
                    lane <= 8,
                    forall|i: u64| i < lane ==> !#[trigger] word_bit(mask, i),
                decreases 8 - lane,
            {
                lane += 1;
            }
            proof {
                if lane == 8 {
                    assert(!word_bit(mask, 0) && !word_bit(mask, 1) && !word_bit(mask, 2)
                        && !word_bit(mask, 3) && !word_bit(mask, 4) && !word_bit(mask, 5)
                        && !word_bit(mask, 6) && !word_bit(mask, 7));
                }
                assert(word_bit(mask, lane));
                lemma_lowest_lane(self.block_first as int, mask, lane, 8);
                lemma_clear(mask, lane, 0);
                assert forall|other: u64|
                    other < 8 && #[trigger] word_bit(mask & !(1u64 << lane), other) implies
                    self.block_first + other <= i32::MAX by {
                    lemma_clear(mask, lane, other);
                    assert(word_bit(mask, other));
                }
            }
            let ghost before = self.waiting();
            self.accepted = mask & !(1u64 << lane);
            assert(self.waiting() =~= before.subrange(1, before.len() as int));
            return ZStep::Position(self.block_first + lane as i32);
        }
        proof {
            lemma_no_lanes(self.block_first as int, 8);
        }
        if self.remaining == 0 {
            ZStep::Done
        } else {
            ZStep::Evaluate(self.cursor)
        }
    }
}

proof fn lemma_no_lanes(first: int, n: int)
    requires
        n <= 8,
    ensures
        set_lanes(first, 0, n).len() == 0,
    decreases n,
{
    if n > 0 {
        lemma_no_lanes(first, n - 1);
        lemma_mark(0, 0, (n - 1) as u64);
    }
}

proof fn lemma_span(rejected: u64, covered: u64, in_span: u64, lane: u64)
    by (bit_vector)
    requires
        covered <= 8,
        lane < 64,
        in_span == (1u64 << covered) - 1,
    ensures
        ((!rejected & in_span) & (1u64 << lane) != 0) == (lane < covered && (rejected & (1u64
            << lane) == 0)),
        !rejected & in_span < 256,
{
}

proof fn lemma_shift(covered: u64)
    by (bit_vector)
    requires
        covered <= 8,
    ensures
        1u64 << covered >= 1,
{
}

proof fn lemma_row_block(z_min: int, rejected: Seq<u64>, block: int, accepted: u64, n: int)
    requires
        block >= 0,
        0 <= n <= 8,
        forall|lane: u64|
            lane < n ==> (#[trigger] word_bit(accepted, lane) <==> !word_bit(
                rejected[block],
                lane,
            )),
    ensures
        row_positions(z_min, rejected, 8 * block + n) == row_positions(z_min, rejected, 8 * block)
            + set_lanes(z_min + 8 * block, accepted, n),
    decreases n,
{
    if n > 0 {
        lemma_row_block(z_min, rejected, block, accepted, n - 1);
        let at = 8 * block + n - 1;
        assert(at / 8 == block && at % 8 == n - 1);
        assert(word_bit(accepted, (n - 1) as u64) <==> !word_bit(
            rejected[block],
            (n - 1) as u64,
        ));
        assert(row_positions(z_min, rejected, 8 * block + n) =~= row_positions(
            z_min,
            rejected,
            8 * block,
        ) + set_lanes(z_min + 8 * block, accepted, n));
    } else {
        assert(row_positions(z_min, rejected, 8 * block) + Seq::<int>::empty() =~= row_positions(
            z_min,
            rejected,
            8 * block,
        ));
    }
}

proof fn lemma_lanes_above(first: int, mask: u64, n: int, m: int)
    requires
        0 <= n <= m <= 8,
        forall|lane: u64| n <= lane < 8 ==> !#[trigger] word_bit(mask, lane),
    ensures
        set_lanes(first, mask, m) == set_lanes(first, mask, n),
    decreases m,
{
    if m > n {
        lemma_lanes_above(first, mask, n, m - 1);
        assert(!word_bit(mask, (m - 1) as u64));
    }
}

/// The numbers of a list of coordinates.
pub open spec fn coordinates(zs: Seq<i32>) -> Seq<int> {
    Seq::new(zs.len(), |i: int| zs[i] as int)
}

/// The positions of a row that the sphere test does not reject, ascending.
pub fn accepted_positions(z_min: i32, z_max: i32, rejected: &Vec<u64>) -> (r: Vec<i32>)
    requires
        z_min <= z_max,
        z_max - z_min + 1 <= 8 * rejected@.len(),
    ensures
        coordinates(r@) == row_positions(z_min as int, rejected@, z_max - z_min + 1),
{
    let mut r: Vec<i32> = Vec::new();
    let mut scan = OreNodeZScan::new(z_min, z_max);
    let ghost total = z_max - z_min + 1;
    let ghost mut seen: int = 0;
    let mut block: usize = 0;
    proof {
        lemma_no_lanes(scan.block_first as int, 8);
        assert(coordinates(r@) + scan.waiting() =~= row_positions(z_min as int, rejected@, 0));
    }
    loop
        invariant
            total == z_max - z_min + 1,
            total <= 8 * rejected@.len(),
            scan.well_formed(),
            0 <= seen <= total,
            scan.remaining == total - seen,
            scan.remaining > 0 ==> seen == 8 * block && scan.cursor == z_min + seen,
            coordinates(r@) + scan.waiting() == row_positions(z_min as int, rejected@, seen),
        ensures
            coordinates(r@) == row_positions(z_min as int, rejected@, total),
        decreases scan.remaining, scan.waiting().len(),
    {
        let ghost before = r@;
        let ghost waiting = scan.waiting();
        match scan.next() {
            ZStep::Position(z) => {
                r.push(z);
                assert(coordinates(r@) + scan.waiting() =~= coordinates(before) + waiting);
            },
            ZStep::Evaluate(_) => {
                let ghost old_scan = scan;
                scan.evaluate_next_lanes(rejected[block]);
                proof {
                    let covered = if old_scan.remaining < 8 {
                        old_scan.remaining as int
                    } else {
                        8
                    };
                    assert forall|lane: u64| lane < covered implies (#[trigger] word_bit(
                        scan.accepted,
                        lane,
                    ) <==> !word_bit(rejected@[block as int], lane)) by {}
                    lemma_row_block(
                        z_min as int,
                        rejected@,
                        block as int,
                        scan.accepted,
                        covered,
                    );
                    lemma_lanes_above(z_min + 8 * block, scan.accepted, covered, 8);
                    assert(coordinates(r@) =~= coordinates(r@) + waiting);
                    seen = seen + covered;
                }
                if scan.remaining > 0 {
                    block += 1;
                }
            },
            ZStep::Done => {
                assert(coordinates(r@) + waiting =~= coordinates(r@));
                break;
            },
        }
    }
    r
}

// ---------------------------------------------------------------------------
// Candidates
// ---------------------------------------------------------------------------
/// The blocks that a sphere of a vein spans.
#[derive(Debug, Clone, Copy)]
pub struct OreSpan {
    pub x_min: i32,
    pub x_max: i32,
    pub y_min: i32,
    pub y_max: i32,
    pub z_min: i32,
    pub z_max: i32,
}

/// The lowest and the highest block of a sphere along each axis.
#[derive(Debug, Clone, Copy)]
pub struct OreReach {
    pub x_low: i32,
    pub x_high: i32,
    pub y_low: i32,
    pub y_high: i32,
    pub z_low: i32,
    pub z_high: i32,
}

/// The larger of two numbers.
pub open spec fn larger_of(a: int, b: int) -> int {
    if a >= b {
        a
    } else {
        b
    }
}

fn larger_i32(a: i32, b: i32) -> (r: i32)
    ensures
        r == larger_of(a as int, b as int),
{
    if a >= b {
        a
    } else {
        b
    }
}

/// The span is a reach clipped to the box that starts at `start` and, along y,
/// to the world.
pub open spec fn spans(
    span: OreSpan,
    reach: OreReach,
    start: BlockPos,
    min_y: int,
    height: int,
) -> bool {
    &&& span.x_min == larger_of(reach.x_low as int, start.x as int)
    &&& span.x_max == larger_of(reach.x_high as int, span.x_min as int)
    &&& span.z_min == larger_of(reach.z_low as int, start.z as int)
    &&& span.z_max == larger_of(reach.z_high as int, span.z_min as int)
    &&& ({
        let raw_min = larger_of(reach.y_low as int, start.y as int);
        let raw_max = larger_of(reach.y_high as int, raw_min);
        &&& span.y_min == larger_of(raw_min, min_y)
        &&& span.y_max == if raw_max <= min_y + height - 1 {
            raw_max
        } else {
            min_y + height - 1
        }
    })
}

/// The blocks of a reach that can be tested, if any lie in the world.
pub fn ore_span(reach: &OreReach, start: BlockPos, min_y: i32, height: i32) -> (r: Option<OreSpan>)
    requires
        i32::MIN <= min_y + height - 1 <= i32::MAX,
    ensures
        match r {
            Some(span) => spans(span, *reach, start, min_y as int, height as int) && span.y_min
                <= span.y_max,
            None => forall|span: OreSpan|
                spans(span, *reach, start, min_y as int, height as int) ==> span.y_min
                    > span.y_max,
        },
{
    let x_min: i32 = larger_i32(reach.x_low, start.x);
    let z_min: i32 = larger_i32(reach.z_low, start.z);
    let x_max: i32 = larger_i32(reach.x_high, x_min);
    let z_max: i32 = larger_i32(reach.z_high, z_min);
    let raw_y_min: i32 = larger_i32(reach.y_low, start.y);
    let raw_y_max: i32 = larger_i32(reach.y_high, raw_y_min);
    let y_min: i32 = larger_i32(raw_y_min, min_y);
    let top: i32 = (min_y as i64 + height as i64 - 1) as i32;
    let y_max: i32 = if raw_y_max <= top {
        raw_y_max
    } else {
        top
    };
    if y_min > y_max {
        return None;
    }
    Some(OreSpan { x_min, x_max, y_min, y_max, z_min, z_max })
}

/// A sphere of a vein: its span, and for every `x` and `y` of it the positions
/// along `z` that the sphere test rejects, or nothing if it rejects them all.
#[derive(Debug)]
pub struct OreNode {
    pub span: OreSpan,
    pub rows: Vec<Option<Vec<u64>>>,
}

impl OreNode {
    /// Blocks along y.
    pub open spec fn tall(&self) -> int {
        self.span.y_max - self.span.y_min + 1
    }

    /// The span is not empty and every row is covered.
    pub open spec fn well_formed(&self) -> bool {
        &&& self.span.x_min <= self.span.x_max
        &&& self.span.y_min <= self.span.y_max
        &&& self.span.z_min <= self.span.z_max
        &&& self.rows@.len() == (self.span.x_max - self.span.x_min + 1) * self.tall()
        &&& forall|r: int|
            0 <= r < self.rows@.len() ==> (#[trigger] self.rows@[r] matches Some(rejected)
                ==> self.span.z_max - self.span.z_min + 1 <= 8 * rejected@.len())
    }

    /// The position numbers of the node fit, seen from the start of a box whose
    /// numbers grow by `row` along y and by `layer` along z.
    pub open spec fn fits(&self, row: int, layer: int, start: BlockPos) -> bool {
        &&& start.x <= self.span.x_min
        &&& start.y <= self.span.y_min
        &&& start.z <= self.span.z_min
        &&& (self.span.x_max - start.x) + (self.span.y_max - start.y) * row + (self.span.z_max
            - start.z) * layer <= i64::MAX
    }

    /// The accepted positions of one row, along `z`.
    pub open spec fn row_candidates(&self, r: int) -> Seq<BlockPos> {
        match self.rows@[r] {
            None => Seq::empty(),
            Some(rejected) => {
                let zs = row_positions(
                    self.span.z_min as int,
                    rejected@,
                    self.span.z_max - self.span.z_min + 1,
                );
                Seq::new(
                    zs.len(),
                    |i: int|
                        BlockPos {
                            x: (self.span.x_min + r / self.tall()) as i32,
                            y: (self.span.y_min + r % self.tall()) as i32,
                            z: zs[i] as i32,
                        },
                )
            },
        }
    }

    /// The accepted positions of the first `rows` rows.
    pub open spec fn candidates(&self, rows: int) -> Seq<BlockPos>
        decreases rows,
    {
        if rows <= 0 {
            Seq::empty()
        } else {
            self.candidates(rows - 1) + self.row_candidates(rows - 1)
        }
    }
}

/// The candidates of the first `n` spheres, in order: sphere by sphere, along
/// x, then y, then z.
pub open spec fn vein_candidates(nodes: Seq<OreNode>, n: int) -> Seq<BlockPos>
    decreases n,
{
    if n <= 0 {
        Seq::empty()
    } else {
        vein_candidates(nodes, n - 1) + nodes[n - 1].candidates(nodes[n - 1].rows@.len() as int)
    }
}

/// The number of a position in a box that starts at `start`.
pub open spec fn number_of(volume: OreSearchVolume, start: BlockPos, at: BlockPos) -> Option<
    usize,
> {
    numbered(volume, at.x - start.x, at.y - start.y, at.z - start.z)
}

/// A position has a number, and none before it has the same.
pub open spec fn is_new(
    volume: OreSearchVolume,
    start: BlockPos,
    before: Seq<BlockPos>,
    at: BlockPos,
) -> bool {
    number_of(volume, start, at) is Some && forall|j: int|
        0 <= j < before.len() ==> number_of(volume, start, #[trigger] before[j]) != number_of(
            volume,
            start,
            at,
        )
}

/// The candidates that are tried: each number once, at its first occurrence.
pub open spec fn tried(volume: OreSearchVolume, start: BlockPos, all: Seq<BlockPos>) -> Seq<
    BlockPos,
>
    decreases all.len(),
{
    if all.len() == 0 {
        Seq::empty()
    } else {
        let before = tried(volume, start, all.drop_last());
        if is_new(volume, start, all.drop_last(), all.last()) {
            before.push(all.last())
        } else {
            before
        }
    }
}

/// Every number that occurs among the candidates is tried, and tried once.
pub proof fn each_number_is_tried_once(
    volume: OreSearchVolume,
    start: BlockPos,
    all: Seq<BlockPos>,
)
    ensures
        forall|i: int|
            0 <= i < all.len() && number_of(volume, start, #[trigger] all[i]) is Some ==> exists|
                k: int,
            |
                0 <= k < tried(volume, start, all).len() && number_of(
                    volume,
                    start,
                    #[trigger] tried(volume, start, all)[k],
                ) == number_of(volume, start, all[i]),
        forall|k: int, m: int|
            0 <= k < m < tried(volume, start, all).len() ==> number_of(
                volume,
                start,
                #[trigger] tried(volume, start, all)[k],
            ) != number_of(volume, start, #[trigger] tried(volume, start, all)[m]),
        forall|k: int|
            0 <= k < tried(volume, start, all).len() ==> all.contains(
                #[trigger] tried(volume, start, all)[k],
            ),
    decreases all.len(),
{
    if all.len() > 0 {
        let rest = all.drop_last();
        each_number_is_tried_once(volume, start, rest);
        let now = tried(volume, start, all);
        let before = tried(volume, start, rest);
        assert forall|i: int|
            0 <= i < all.len() && number_of(volume, start, #[trigger] all[i]) is Some implies exists|
            k: int,
        |
            0 <= k < now.len() && number_of(volume, start, #[trigger] now[k]) == number_of(
                volume,
                start,
                all[i],
            ) by {
            let j = if i < rest.len() || is_new(volume, start, rest, all.last()) {
                i
            } else {
                choose|j: int|
                    0 <= j < rest.len() && number_of(volume, start, #[trigger] rest[j])
                        == number_of(volume, start, all.last())
            };
            if j < rest.len() {
                assert(rest[j] == all[j]);
                let k = choose|k: int|
                    0 <= k < before.len() && number_of(volume, start, #[trigger] before[k])
                        == number_of(volume, start, rest[j]);
                assert(now[k] == before[k]);
            } else {
                assert(now[now.len() - 1] == all.last());
            }
        }
        assert forall|k: int| 0 <= k < now.len() implies all.contains(#[trigger] now[k]) by {
            if k < before.len() {
                assert(now[k] == before[k]);
                assert(rest.contains(before[k]));
                let j = choose|j: int| 0 <= j < rest.len() && rest[j] == before[k];
                assert(all[j] == now[k]);
            } else {
                assert(all[all.len() - 1] == now[k]);
            }
        }
        assert forall|k: int, m: int| 0 <= k < m < now.len() implies number_of(
            volume,
            start,
            #[trigger] now[k],
        ) != number_of(volume, start, #[trigger] now[m]) by {
            assert(now[k] == before[k]);
            if m < before.len() {
                assert(now[m] == before[m]);
            } else {
                assert(rest.contains(before[k]));
                let j = choose|j: int| 0 <= j < rest.len() && rest[j] == before[k];
                assert(number_of(volume, start, rest[j]) != number_of(volume, start, all.last()));
            }
        }
    }
}

/// The tested numbers are those of the candidates so far.
spec fn tested_are(
    tested: OreTestedPositions,
    volume: OreSearchVolume,
    start: BlockPos,
    all: Seq<BlockPos>,
) -> bool {
    forall|index: usize| #[trigger]
        tested.holds(index as int) <==> exists|j: int|
            0 <= j < all.len() && number_of(volume, start, #[trigger] all[j]) == Some(index)
}

proof fn lemma_position_fits(node: OreNode, volume: OreSearchVolume, start: BlockPos, at: BlockPos)
    requires
        node.well_formed(),
        node.fits(volume.size_xz as int, volume.size_xz_y as int, start),
        volume.well_formed(),
        node.span.x_min <= at.x <= node.span.x_max,
        node.span.y_min <= at.y <= node.span.y_max,
        node.span.z_min <= at.z <= node.span.z_max,
    ensures
        volume.number(at.x - start.x, at.y - start.y, at.z - start.z) <= i64::MAX,
{
    let (y, z, a, b) = (
        at.y - start.y,
        at.z - start.z,
        volume.size_xz as int,
        volume.size_xz_y as int,
    );
    let (my, mz) = (node.span.y_max - start.y, node.span.z_max - start.z);
    assert(y * a <= my * a && z * b <= mz * b) by (nonlinear_arith)
        requires
            y <= my,
            z <= mz,
            a > 0,
            b > 0,
    ;
}

/// Tries one candidate: it is kept if its number is new.
fn try_candidate(
    volume: OreSearchVolume,
    start: BlockPos,
    at: BlockPos,
    tested: &mut OreTestedPositions,
    kept: &mut Vec<BlockPos>,
    Ghost(all): Ghost<Seq<BlockPos>>,
)
    requires
        volume.well_formed(),
        at.x >= start.x && at.y >= start.y && at.z >= start.z,
        volume.number(at.x - start.x, at.y - start.y, at.z - start.z) <= i64::MAX,
        tested_are(*old(tested), volume, start, all),
        old(kept)@ == tried(volume, start, all),
    ensures
        tested_are(*final(tested), volume, start, all.push(at)),
        final(kept)@ == tried(volume, start, all.push(at)),
{
    let ghost more = all.push(at);
    let ghost before = *tested;
    proof {
        assert(more.drop_last() =~= all);
    }
    let number: Option<usize> = volume.index_from_offsets(
        at.x as i64 - start.x as i64,
        at.y as i64 - start.y as i64,
        at.z as i64 - start.z as i64,
    );
    match number {
        None => {
            proof {
                assert forall|index: usize| #[trigger] tested.holds(index as int) <==> exists|
                    j: int,
                |
                    0 <= j < more.len() && number_of(volume, start, #[trigger] more[j]) == Some(
                        index,
                    ) by {
                    lemma_push_numbers(volume, start, all, at, index);
                }
            }
        },
        Some(index) => {
            if tested.insert(index) {
                kept.push(at);
            }
            proof {
                assert forall|other: usize| #[trigger] tested.holds(other as int) <==> exists|
                    j: int,
                |
                    0 <= j < more.len() && number_of(volume, start, #[trigger] more[j]) == Some(
                        other,
                    ) by {
                    lemma_push_numbers(volume, start, all, at, other);
                    assert(before.holds(other as int) <==> exists|j: int|
                        0 <= j < all.len() && number_of(volume, start, #[trigger] all[j]) == Some(
                            other,
                        ));
                }
                assert(before.holds(index as int) <==> exists|j: int|
                    0 <= j < all.len() && number_of(volume, start, #[trigger] all[j]) == Some(
                        index,
                    ));
            }
        },
    }
}

proof fn lemma_push_numbers(
    volume: OreSearchVolume,
    start: BlockPos,
    all: Seq<BlockPos>,
    at: BlockPos,
    index: usize,
)
    ensures
        (exists|j: int|
            0 <= j < all.push(at).len() && number_of(volume, start, #[trigger] all.push(at)[j])
                == Some(index)) <==> ((exists|j: int|
            0 <= j < all.len() && number_of(volume, start, #[trigger] all[j]) == Some(index))
            || number_of(volume, start, at) == Some(index)),
{
    let more = all.push(at);
    if exists|j: int|
        0 <= j < more.len() && number_of(volume, start, #[trigger] more[j]) == Some(index) {
        let j = choose|j: int|
            0 <= j < more.len() && number_of(volume, start, #[trigger] more[j]) == Some(index);
        if j < all.len() {
            assert(all[j] == more[j]);
        }
    }
    if exists|j: int|
        0 <= j < all.len() && number_of(volume, start, #[trigger] all[j]) == Some(index) {
        let j = choose|j: int|
            0 <= j < all.len() && number_of(volume, start, #[trigger] all[j]) == Some(index);
        assert(more[j] == all[j]);
    }
    if number_of(volume, start, at) == Some(index) {
        assert(more[all.len() as int] == at);
    }
}

proof fn lemma_row_range(z_min: int, rejected: Seq<u64>, n: int)
    ensures
        forall|i: int|
            0 <= i < row_positions(z_min, rejected, n).len() ==> z_min <= #[trigger] row_positions(
                z_min,
                rejected,
                n,
            )[i] < z_min + n,
    decreases n,
{
    if n > 0 {
        lemma_row_range(z_min, rejected, n - 1);
        let before = row_positions(z_min, rejected, n - 1);
        let now = row_positions(z_min, rejected, n);
        assert forall|i: int| 0 <= i < now.len() implies z_min <= #[trigger] now[i] < z_min + n by {
            if i < before.len() {
                assert(now[i] == before[i]);
            }
        }
    }
}

proof fn lemma_row_place(r: int, wide: int, tall: int)
    requires
        0 <= r < wide * tall,
        tall > 0,
    ensures
        0 <= r / tall < wide,
        0 <= r % tall < tall,
{
    assert(0 <= r / tall < wide && 0 <= r % tall < tall) by (nonlinear_arith)
        requires
            0 <= r < wide * tall,
            tall > 0,
    ;
}

/// Collects the positions that a vein tries, in order.
pub fn collect_ore_candidates(
    volume: OreSearchVolume,
    start: BlockPos,
    nodes: &Vec<OreNode>,
) -> (r: Vec<BlockPos>)
    requires
        volume.well_formed(),
        forall|i: int|
            0 <= i < nodes@.len() ==> (#[trigger] nodes@[i]).well_formed() && nodes@[i].fits(
                volume.size_xz as int,
                volume.size_xz_y as int,
                start,
            ),
    ensures
        r@ == tried(volume, start, vein_candidates(nodes@, nodes@.len() as int)),
{
    let mut tested = OreTestedPositions::with_capacity(volume.tested_position_count);
    let mut kept: Vec<BlockPos> = Vec::new();
    let mut n: usize = 0;
    while n < nodes.len()
        invariant
            volume.well_formed(),
            forall|i: int|
                0 <= i < nodes@.len() ==> (#[trigger] nodes@[i]).well_formed() && nodes@[i].fits(
                    volume.size_xz as int,
                    volume.size_xz_y as int,
                    start,
                ),
            n <= nodes@.len(),
            tested_are(tested, volume, start, vein_candidates(nodes@, n as int)),
            kept@ == tried(volume, start, vein_candidates(nodes@, n as int)),
        decreases nodes@.len() - n,
    {
        let node = &nodes[n];
        let ghost done = vein_candidates(nodes@, n as int);
        proof {
            let (wide, tall) = (node.span.x_max - node.span.x_min + 1, node.tall());
            assert(tall <= wide * tall) by (nonlinear_arith)
                requires
                    wide >= 1,
                    tall >= 0,
            ;
            assert(node.rows.len() == node.rows@.len());
        }
        let tall: usize = (node.span.y_max as i64 - node.span.y_min as i64 + 1) as usize;
        let mut r: usize = 0;
        assert(done + node.candidates(0) =~= done);
        while r < node.rows.len()
            invariant
                volume.well_formed(),
                node.well_formed(),
                node.fits(volume.size_xz as int, volume.size_xz_y as int, start),
                tall == node.tall(),
                r <= node.rows@.len(),
                tested_are(tested, volume, start, done + node.candidates(r as int)),
                kept@ == tried(volume, start, done + node.candidates(r as int)),
            decreases node.rows@.len() - r,
        {
            let ghost so_far = done + node.candidates(r as int);
            let ghost row = node.row_candidates(r as int);
            proof {
                lemma_row_place(
                    r as int,
                    node.span.x_max - node.span.x_min + 1,
                    node.tall(),
                );
                assert(done + node.candidates(r + 1) =~= so_far + row);
            }
            if let Some(rejected) = &node.rows[r] {
                let x: i32 = (node.span.x_min as i64 + (r / tall) as i64) as i32;
                let y: i32 = (node.span.y_min as i64 + (r % tall) as i64) as i32;
                let zs: Vec<i32> = accepted_positions(
                    node.span.z_min,
                    node.span.z_max,
                    rejected,
                );
                proof {
                    lemma_row_range(
                        node.span.z_min as int,
                        rejected@,
                        node.span.z_max - node.span.z_min + 1,
                    );
                    let all = row_positions(
                        node.span.z_min as int,
                        rejected@,
                        node.span.z_max - node.span.z_min + 1,
                    );
                    assert forall|k: int| 0 <= k < zs@.len() implies node.span.z_min
                        <= #[trigger] zs@[k] <= node.span.z_max && row[k] == (BlockPos {
                        x,
                        y,
                        z: zs@[k],
                    }) by {
                        assert(coordinates(zs@)[k] == zs@[k]);
                        assert(all[k] == zs@[k]);
                    }
                    assert(zs@.len() == coordinates(zs@).len());
                }
                let mut i: usize = 0;
                assert(so_far + row.subrange(0, 0) =~= so_far);
                while i < zs.len()
                    invariant
                        volume.well_formed(),
                        node.well_formed(),
                        node.fits(volume.size_xz as int, volume.size_xz_y as int, start),
                        i <= zs@.len(),
                        row.len() == zs@.len(),
                        node.span.x_min <= x <= node.span.x_max,
                        node.span.y_min <= y <= node.span.y_max,
                        forall|k: int|
                            0 <= k < zs@.len() ==> node.span.z_min <= #[trigger] zs@[k]
                                <= node.span.z_max && row[k] == (BlockPos { x, y, z: zs@[k] }),
                        tested_are(tested, volume, start, so_far + row.subrange(0, i as int)),
                        kept@ == tried(volume, start, so_far + row.subrange(0, i as int)),
                    decreases zs@.len() - i,
                {
                    let at = BlockPos { x, y, z: zs[i] };
                    let ghost seen = so_far + row.subrange(0, i as int);
                    proof {
                        lemma_position_fits(*node, volume, start, at);
                        assert(so_far + row.subrange(0, i + 1) =~= seen.push(at));
                    }
                    try_candidate(volume, start, at, &mut tested, &mut kept, Ghost(seen));
                    i += 1;
                }
                assert(row.subrange(0, i as int) =~= row);
            } else {
                assert(so_far + row =~= so_far);
            }
            r += 1;
        }
        n += 1;
    }
    kept
}

/// Positions grouped by their sections, the sections in the order in which they
/// are met.
pub open spec fn grouped(min_y: int, positions: Seq<BlockPos>) -> Seq<
    (PendingOreSectionKey, Seq<u16>),
>
    decreases positions.len(),
{
    if positions.len() == 0 {
        Seq::empty()
    } else {
        with_place(
            grouped(min_y, positions.drop_last()),
            section_key(min_y, positions.last()),
            packed_place(positions.last()),
        )
    }
}

/// Groups positions by their sections.
pub fn pending_sections(min_y: i32, positions: &Vec<BlockPos>) -> (r: Vec<PendingOreSection>)
    requires
        forall|i: int|
            0 <= i < positions@.len() ==> min_y <= (#[trigger] positions@[i]).y && positions@[i].y
                - min_y <= i32::MAX,
    ensures
        pending(r@) == grouped(min_y as int, positions@),
        distinct_sections(pending(r@)),
{
    let mut sections: Vec<PendingOreSection> = Vec::new();
    let mut i: usize = 0;
    assert(positions@.subrange(0, 0) =~= Seq::<BlockPos>::empty());
    assert(pending(sections@) =~= Seq::<(PendingOreSectionKey, Seq<u16>)>::empty());
    while i < positions.len()
        invariant
            forall|i: int|
                0 <= i < positions@.len() ==> min_y <= (#[trigger] positions@[i]).y
                    && positions@[i].y - min_y <= i32::MAX,
            i <= positions@.len(),
            pending(sections@) == grouped(min_y as int, positions@.subrange(0, i as int)),
            distinct_sections(pending(sections@)),
        decreases positions@.len() - i,
    {
        let at = positions[i];
        assert(positions@[i as int] == at);
        let key = PendingOreSectionKey::from_in_height_coords(min_y, at.x, at.y, at.z);
        push_pending_ore_position(&mut sections, key, pack_place(at));
        proof {
            let now = positions@.subrange(0, i + 1);
            assert(now.drop_last() =~= positions@.subrange(0, i as int));
        }
        i += 1;
    }
    assert(positions@.subrange(0, i as int) =~= positions@);
    sections
}

/// What a vein does to the world.
#[derive(Debug)]
pub enum OrePlan {
    /// Nothing: there is no box to look in.
    Nothing,
    /// Replace what matches at these places, section by section.
    Sections(Vec<PendingOreSection>),
    /// Try these positions one by one, in order.
    Positions(Vec<BlockPos>),
}

/// Plans a vein: which positions are tried, and whether section by section,
/// which is possible when exposure to air does not matter. Where the bottom of
/// the world is that of a section, such a plan can be applied as it is, and
/// tries exactly the vein's positions.
pub fn do_place_ore(
    size_xz: i32,
    size_y: i32,
    start: BlockPos,
    nodes: &Vec<OreNode>,
    min_y: i32,
    batch_no_air_exposure: bool,
) -> (r: OrePlan)
    requires
        forall|i: int|
            0 <= i < nodes@.len() ==> (#[trigger] nodes@[i]).well_formed() && nodes@[i].fits(
                size_xz as int,
                size_xz * size_y,
                start,
            ),
        forall|i: int|
            0 <= i < nodes@.len() ==> min_y <= (#[trigger] nodes@[i]).span.y_min
                && nodes@[i].span.y_max - min_y <= i32::MAX,
    ensures
        match r {
            OrePlan::Nothing => size_xz <= 0 || size_y <= 0 || size_xz * size_y * size_xz
                > i64::MAX || size_xz * size_y * size_xz > usize::MAX,
            OrePlan::Sections(sections) => {
                &&& batch_no_air_exposure
                &&& exists|volume: OreSearchVolume| #[trigger]
                    boxed(volume, size_xz as int, size_y as int) && pending(sections@) == grouped(
                        min_y as int,
                        tried(volume, start, vein_candidates(nodes@, nodes@.len() as int)),
                    ) && (min_y as int % 16 == 0 ==> ore_application::plan_tries(
                        r,
                        min_y as int,
                        tried(volume, start, vein_candidates(nodes@, nodes@.len() as int)),
                    ))
                &&& min_y as int % 16 == 0 ==> ore_application::applicable(r, min_y as int)
            },
            OrePlan::Positions(positions) => {
                &&& !batch_no_air_exposure
                &&& exists|volume: OreSearchVolume| #[trigger]
                    boxed(volume, size_xz as int, size_y as int) && positions@ == tried(
                        volume,
                        start,
                        vein_candidates(nodes@, nodes@.len() as int),
                    )
            },
        },
{
    match OreSearchVolume::new(size_xz, size_y) {
        None => OrePlan::Nothing,
        Some(volume) => {
            assert(boxed(volume, size_xz as int, size_y as int));
            let positions = collect_ore_candidates(volume, start, nodes);
            if batch_no_air_exposure {
                proof {
                    let all = vein_candidates(nodes@, nodes@.len() as int);
                    each_number_is_tried_once(volume, start, all);
                    assert forall|i: int| 0 <= i < positions@.len() implies min_y <= (
                    #[trigger] positions@[i]).y && positions@[i].y - min_y <= i32::MAX by {
                        assert(all.contains(positions@[i]));
                        let j = choose|j: int| 0 <= j < all.len() && all[j] == positions@[i];
                        lemma_vein_heights(nodes@, nodes@.len() as int, j);
                    }
                }
                let sections = pending_sections(min_y, &positions);
                proof {
                    let all = vein_candidates(nodes@, nodes@.len() as int);
                    let kept = tried(volume, start, all);
                    each_number_is_tried_once(volume, start, all);
                    assert(kept.no_duplicates()) by {
                        assert forall|k: int, m: int|
                            0 <= k < kept.len() && 0 <= m < kept.len() && k != m implies kept[k]
                            != kept[m] by {
                            if k < m {
                                assert(number_of(volume, start, kept[k]) != number_of(
                                    volume,
                                    start,
                                    kept[m],
                                ));
                            } else {
                                assert(number_of(volume, start, kept[m]) != number_of(
                                    volume,
                                    start,
                                    kept[k],
                                ));
                            }
                        }
                    }
                    if min_y as int % 16 == 0 {
                        ore_application::a_grouped_plan_tries_its_positions(
                            min_y as int,
                            kept,
                            sections,
                        );
                    }
                }
                OrePlan::Sections(sections)
            } else {
                OrePlan::Positions(positions)
            }
        },
    }
}

/// A box of these sizes.
pub open spec fn boxed(volume: OreSearchVolume, size_xz: int, size_y: int) -> bool {
    &&& volume.well_formed()
    &&& volume.size_xz == size_xz
    &&& volume.size_xz_y == size_xz * size_y
}

proof fn lemma_node_heights(node: OreNode, rows: int, j: int)
    requires
        node.well_formed(),
        0 <= rows <= node.rows@.len(),
        0 <= j < node.candidates(rows).len(),
    ensures
        node.span.y_min <= node.candidates(rows)[j].y <= node.span.y_max,
    decreases rows,
{
    if rows > 0 {
        let before = node.candidates(rows - 1);
        if j < before.len() {
            lemma_node_heights(node, rows - 1, j);
            assert(node.candidates(rows)[j] == before[j]);
        } else {
            lemma_row_place(rows - 1, node.span.x_max - node.span.x_min + 1, node.tall());
        }
    }
}

proof fn lemma_vein_heights(nodes: Seq<OreNode>, n: int, j: int)
    requires
        0 <= n <= nodes.len(),
        forall|i: int| 0 <= i < nodes.len() ==> (#[trigger] nodes[i]).well_formed(),
        0 <= j < vein_candidates(nodes, n).len(),
    ensures
        exists|i: int|
            0 <= i < n && (#[trigger] nodes[i]).span.y_min <= vein_candidates(nodes, n)[j].y
                <= nodes[i].span.y_max,
    decreases n,
{
    if n > 0 {
        let before = vein_candidates(nodes, n - 1);
        if j < before.len() {
            lemma_vein_heights(nodes, n - 1, j);
            assert(vein_candidates(nodes, n)[j] == before[j]);
            let i = choose|i: int|
                0 <= i < n - 1 && (#[trigger] nodes[i]).span.y_min <= before[j].y
                    <= nodes[i].span.y_max;
            assert(nodes[i].span.y_min <= before[j].y);
        } else {
            let node = nodes[n - 1];
            lemma_node_heights(node, node.rows@.len() as int, j - before.len());
            assert(vein_candidates(nodes, n)[j] == node.candidates(node.rows@.len() as int)[j
                - before.len()]);
        }
    }
}

// ---------------------------------------------------------------------------
// The spheres of a vein
// ---------------------------------------------------------------------------
/// How the spheres of a vein lie to each other, for every pair: whether one
/// lies within the other, and whether the first is the larger.
pub struct OreOverlaps {
    pub count: usize,
    pub swallowed: Vec<bool>,
    pub larger: Vec<bool>,
}

impl OreOverlaps {
    /// There is an entry for every pair.
    pub open spec fn well_formed(&self) -> bool {
        self.swallowed@.len() == self.count * self.count && self.larger@.len() == self.count
            * self.count
    }

    /// One sphere of the pair lies within the other.
    pub open spec fn swallows(&self, i: int, j: int) -> bool {
        self.swallowed@[i * self.count + j]
    }

    /// What is left when a pair was looked at: of two spheres that are still
    /// there, one within the other, the smaller goes.
    pub open spec fn after_pair(&self, there: Seq<bool>, i: int, j: int) -> Seq<bool> {
        if there[i] && there[j] && self.swallows(i, j) {
            if self.larger@[i * self.count + j] {
                there.update(j, false)
            } else {
                there.update(i, false)
            }
        } else {
            there
        }
    }

    /// What is left when a sphere was held against those behind it, up to `j`.
    pub open spec fn after_row(&self, there: Seq<bool>, i: int, j: int) -> Seq<bool>
        decreases j,
    {
        if j <= i + 1 || j <= 0 {
            there
        } else {
            self.after_pair(self.after_row(there, i, j - 1), i, j - 1)
        }
    }

    /// What is left when the first `i` spheres were held against those behind
    /// them.
    pub open spec fn after_rows(&self, there: Seq<bool>, i: int) -> Seq<bool>
        decreases i,
    {
        if i <= 0 {
            there
        } else {
            self.after_row(self.after_rows(there, i - 1), i - 1, self.count as int)
        }
    }

    /// Drops the spheres that lie within others.
    pub fn thin(&self, there: Vec<bool>) -> (r: Vec<bool>)
        requires
            self.well_formed(),
            there@.len() == self.count,
        ensures
            r@ == self.after_rows(there@, self.count as int),
    {
        let ghost start = there@;
        let mut r = there;
        let mut i: usize = 0;
        while i < self.count
            invariant
                self.well_formed(),
                i <= self.count,
                r@.len() == self.count,
                r@ == self.after_rows(start, i as int),
            decreases self.count - i,
        {
            let ghost row = r@;
            let mut j: usize = i + 1;
            while j < self.count
                invariant
                    self.well_formed(),
                    i < j <= self.count,
                    r@.len() == self.count,
                    r@ == self.after_row(row, i as int, j as int),
                decreases self.count - j,
            {
                proof {
                    let (a, b, n) = (i as int, j as int, self.count as int);
                    assert(0 <= a * n && a * n + b < n * n) by (nonlinear_arith)
                        requires
                            0 <= a < n,
                            0 <= b < n,
                    ;
                    assert(self.swallowed.len() == self.swallowed@.len());
                }
                let at: usize = i * self.count + j;
                if r[i] && r[j] && self.swallowed[at] {
                    if self.larger[at] {
                        r.set(j, false);
                    } else {
                        r.set(i, false);
                    }
                }
                j += 1;
            }
            i += 1;
        }
        r
    }

    proof fn lemma_row_shrinks(&self, there: Seq<bool>, i: int, j: int)
        requires
            there.len() == self.count,
            0 <= i < self.count,
            j <= self.count,
        ensures
            self.after_row(there, i, j).len() == there.len(),
            forall|k: int|
                0 <= k < there.len() && #[trigger] self.after_row(there, i, j)[k] ==> there[k],
            (exists|k: int| 0 <= k < there.len() && #[trigger] there[k]) ==> exists|k: int|
                0 <= k < there.len() && #[trigger] self.after_row(there, i, j)[k],
        decreases j,
    {
        if j > i + 1 {
            self.lemma_row_shrinks(there, i, j - 1);
            let before = self.after_row(there, i, j - 1);
            let now = self.after_row(there, i, j);
            if exists|k: int| 0 <= k < there.len() && #[trigger] there[k] {
                let k = choose|k: int| 0 <= k < there.len() && #[trigger] before[k];
                if now[k] {
                } else if k == i {
                    assert(now[j - 1]);
                } else {
                    assert(now[i]);
                }
            }
        } else if exists|k: int| 0 <= k < there.len() && #[trigger] there[k] {
            let k = choose|k: int| 0 <= k < there.len() && #[trigger] there[k];
            assert(self.after_row(there, i, j)[k]);
        }
    }

    proof fn lemma_row_separates(&self, there: Seq<bool>, i: int, j: int, k: int)
        requires
            there.len() == self.count,
            0 <= i < k < j <= self.count,
            self.after_row(there, i, j)[i],
            self.after_row(there, i, j)[k],
        ensures
            !self.swallows(i, k),
        decreases j,
    {
        self.lemma_row_shrinks(there, i, j - 1);
        let before = self.after_row(there, i, j - 1);
        assert(before[i] && before[k]);
        if k < j - 1 {
            self.lemma_row_separates(there, i, j - 1, k);
        }
    }

    proof fn lemma_rows_shrink(&self, there: Seq<bool>, i: int, m: int)
        requires
            there.len() == self.count,
            0 <= i <= m <= self.count,
        ensures
            self.after_rows(there, m).len() == there.len(),
            forall|k: int|
                0 <= k < there.len() && #[trigger] self.after_rows(there, m)[k]
                    ==> self.after_rows(there, i)[k],
            (exists|k: int| 0 <= k < there.len() && #[trigger] self.after_rows(there, i)[k])
                ==> exists|k: int|
                0 <= k < there.len() && #[trigger] self.after_rows(there, m)[k],
        decreases m,
    {
        if m > 0 {
            self.lemma_rows_shrink(there, 0, m - 1);
            self.lemma_row_shrinks(self.after_rows(there, m - 1), m - 1, self.count as int);
            if i < m {
                self.lemma_rows_shrink(there, i, m - 1);
            }
        }
    }

    /// No sphere that is left lies within another that is left, and if there
    /// was a sphere, one is left.
    pub proof fn what_is_left_is_apart(&self, there: Seq<bool>, i: int, k: int)
        requires
            there.len() == self.count,
            0 <= i < k < self.count,
        ensures
            self.after_rows(there, self.count as int)[i] && self.after_rows(
                there,
                self.count as int,
            )[k] ==> !self.swallows(i, k),
            (exists|n: int| 0 <= n < there.len() && #[trigger] there[n]) ==> exists|n: int|
                0 <= n < there.len() && #[trigger] self.after_rows(there, self.count as int)[n],
    {
        let end = self.after_rows(there, self.count as int);
        self.lemma_rows_shrink(there, 0, self.count as int);
        assert(self.after_rows(there, 0) == there);
        if end[i] && end[k] {
            self.lemma_rows_shrink(there, i + 1, self.count as int);
            self.lemma_rows_shrink(there, 0, i);
            let row = self.after_rows(there, i);
            assert(self.after_rows(there, i + 1) == self.after_row(row, i, self.count as int));
            self.lemma_row_separates(row, i, self.count as int, k);
        }
        if exists|n: int| 0 <= n < there.len() && #[trigger] there[n] {
            let n = choose|n: int| 0 <= n < there.len() && #[trigger] there[n];
            assert(self.after_rows(there, 0)[n]);
        }
    }
}

// ---------------------------------------------------------------------------
// Whether the vein reaches terrain
// ---------------------------------------------------------------------------
/// The box around a vein.
#[derive(Debug, Clone, Copy)]
pub struct OreBox {
    pub start: BlockPos,
    pub size_xz: i32,
    pub size_y: i32,
}

/// The box around a vein at `origin` that spreads `spread` blocks to each side,
/// with spheres of at most `radius`.
pub open spec fn ore_box_of(origin: BlockPos, spread: int, radius: int) -> (int, int, int, int, int) {
    (
        origin.x - spread - radius,
        origin.y - 2 - radius,
        origin.z - spread - radius,
        2 * (spread + radius),
        2 * (2 + radius),
    )
}

/// The box of a vein has coordinates, if the vein has a size.
pub open spec fn ore_box_fits(size: i32, origin: BlockPos, spread: i32, radius: i32) -> bool {
    size > 0 ==> {
        let b = ore_box_of(origin, spread as int, radius as int);
        &&& 0 <= spread
        &&& 0 <= radius
        &&& i32::MIN <= b.0
        &&& i32::MIN <= b.1
        &&& i32::MIN <= b.2
        &&& b.3 <= i32::MAX
        &&& b.4 <= i32::MAX
        &&& b.0 + b.3 <= i32::MAX
        &&& b.2 + b.3 <= i32::MAX
    }
}

/// The box is that of a vein.
pub open spec fn is_ore_box(found: OreBox, origin: BlockPos, spread: i32, radius: i32) -> bool {
    (
        found.start.x as int,
        found.start.y as int,
        found.start.z as int,
        found.size_xz as int,
        found.size_y as int,
    ) == ore_box_of(origin, spread as int, radius as int)
}

/// Where a vein is looked for, unless it has no size.
pub fn ore_box(size: i32, origin: BlockPos, spread: i32, radius: i32) -> (r: Option<OreBox>)
    requires
        ore_box_fits(size, origin, spread, radius),
    ensures
        match r {
            None => size <= 0,
            Some(found) => size > 0 && is_ore_box(found, origin, spread, radius)
                && found.well_formed(),
        },
{
    if size <= 0 {
        return None;
    }
    Some(
        OreBox {
            start: BlockPos {
                x: (origin.x as i64 - spread as i64 - radius as i64) as i32,
                y: (origin.y as i64 - 2 - radius as i64) as i32,
                z: (origin.z as i64 - spread as i64 - radius as i64) as i32,
            },
            size_xz: 2 * (spread + radius),
            size_y: 2 * (2 + radius),
        },
    )
}

/// The box in which a vein is placed, if one is: the vein has a size, and some
/// column under its box is as high as the box's bottom. `heights` gives the
/// heights of the columns, row by row along x.
pub fn place_ore_feature(
    size: i32,
    origin: BlockPos,
    spread: i32,
    radius: i32,
    heights: &Vec<i32>,
) -> (r: Option<OreBox>)
    requires
        ore_box_fits(size, origin, spread, radius),
        size > 0 ==> heights@.len() == (2 * (spread + radius) + 1) * (2 * (spread + radius) + 1),
    ensures
        match r {
            None => size <= 0 || exists|found: OreBox| #[trigger]
                is_ore_box(found, origin, spread, radius) && !reaches(
                    found,
                    found.column_heights(heights@),
                ),
            Some(found) => size > 0 && is_ore_box(found, origin, spread, radius) && reaches(
                found,
                found.column_heights(heights@),
            ),
        },
{
    match ore_box(size, origin, spread, radius) {
        Some(found) => {
            if found.reaches_floor(heights) {
                Some(found)
            } else {
                assert(is_ore_box(found, origin, spread, radius));
                None
            }
        },
        None => None,
    }
}

/// The columns of one chunk that lie in a box.
#[derive(Debug, Clone, Copy, PartialEq, Eq, Structural)]
pub struct ProbeChunk {
    pub chunk_x: i32,
    pub chunk_z: i32,
    pub x_low: i32,
    pub x_high: i32,
    pub z_low: i32,
    pub z_high: i32,
}

impl OreBox {
    /// The first chunk along x.
    pub open spec fn chunk_x0(&self) -> int {
        self.start.x as int / 16
    }

    /// The first chunk along z.
    pub open spec fn chunk_z0(&self) -> int {
        self.start.z as int / 16
    }

    /// Chunks along x that the box touches.
    pub open spec fn chunks_x(&self) -> int {
        (self.start.x + self.size_xz) / 16 - self.chunk_x0() + 1
    }

    /// Chunks along z that the box touches.
    pub open spec fn chunks_z(&self) -> int {
        (self.start.z + self.size_xz) / 16 - self.chunk_z0() + 1
    }

    /// The far edges are coordinates.
    pub open spec fn well_formed(&self) -> bool {
        &&& self.size_xz >= 0
        &&& self.start.x + self.size_xz <= i32::MAX
        &&& self.start.z + self.size_xz <= i32::MAX
    }

    /// The column lies in the box.
    pub open spec fn covers(&self, x: int, z: int) -> bool {
        self.start.x <= x <= self.start.x + self.size_xz && self.start.z <= z <= self.start.z
            + self.size_xz
    }

    /// The heights of the box's columns, given row by row along x.
    pub open spec fn column_heights(&self, heights: Seq<i32>) -> spec_fn(int, int) -> int {
        |x: int, z: int|
            heights[(x - self.start.x) * (self.size_xz + 1) + (z - self.start.z)] as int
    }

    /// Whether some column under the box is as high as its bottom. `heights`
    /// gives the heights of the columns, row by row along x.
    pub fn reaches_floor(&self, heights: &Vec<i32>) -> (r: bool)
        requires
            self.well_formed(),
            heights@.len() == (self.size_xz + 1) * (self.size_xz + 1),
        ensures
            r == reaches(*self, self.column_heights(heights@)),
    {
        let ghost wide = self.size_xz + 1;
        let ghost height = self.column_heights(heights@);
        let mut i: usize = 0;
        while i < heights.len()
            invariant
                i <= heights@.len(),
                self.well_formed(),
                wide == self.size_xz + 1,
                heights@.len() == wide * wide,
                height == self.column_heights(heights@),
                forall|k: int| 0 <= k < i ==> (#[trigger] heights@[k]) < self.start.y,
            decreases heights@.len() - i,
        {
            if heights[i] >= self.start.y {
                proof {
                    let k = i as int;
                    let (x, z) = (self.start.x + k / wide, self.start.z + k % wide);
                    assert(0 <= k / wide < wide && 0 <= k % wide < wide && k / wide * wide + k
                        % wide == k) by (nonlinear_arith)
                        requires
                            0 <= k < wide * wide,
                            wide >= 1,
                    ;
                    assert(self.covers(x, z));
                    assert(height(x, z) == heights@[k]);
                }
                return true;
            }
            i += 1;
        }
        proof {
            assert forall|x: int, z: int| #[trigger] self.covers(x, z) implies !(self.start.y
                <= height(x, z)) by {
                let (a, b) = (x - self.start.x, z - self.start.z);
                assert(0 <= a * wide + b < wide * wide) by (nonlinear_arith)
                    requires
                        0 <= a < wide,
                        0 <= b < wide,
                ;
                assert(heights@[a * wide + b] < self.start.y);
            }
        }
        false
    }

    /// The columns of the `k`-th chunk, row after row, that lie in the box.
    pub open spec fn probe(&self, k: int) -> ProbeChunk {
        let chunk_x = self.chunk_x0() + k / self.chunks_z();
        let chunk_z = self.chunk_z0() + k % self.chunks_z();
        ProbeChunk {
            chunk_x: chunk_x as i32,
            chunk_z: chunk_z as i32,
            x_low: larger_of(self.start.x as int, chunk_x * 16) as i32,
            x_high: if self.start.x + self.size_xz <= chunk_x * 16 + 15 {
                (self.start.x + self.size_xz) as i32
            } else {
                (chunk_x * 16 + 15) as i32
            },
            z_low: larger_of(self.start.z as int, chunk_z * 16) as i32,
            z_high: if self.start.z + self.size_xz <= chunk_z * 16 + 15 {
                (self.start.z + self.size_xz) as i32
            } else {
                (chunk_z * 16 + 15) as i32
            },
        }
    }

    /// The chunks among the first `k` whose highest column, where it is known,
    /// is not below the box.
    pub open spec fn probes(&self, highest: Seq<Option<i32>>, k: int) -> Seq<ProbeChunk>
        decreases k,
    {
        if k <= 0 {
            Seq::empty()
        } else {
            let before = self.probes(highest, k - 1);
            if highest[k - 1] matches Some(max) && max < self.start.y {
                before
            } else {
                before.push(self.probe(k - 1))
            }
        }
    }

    /// The chunks whose columns are to be probed, in order; `highest` gives the
    /// highest column of each chunk that the box touches, where it is known.
    pub fn probe_chunks(&self, highest: &Vec<Option<i32>>) -> (r: Vec<ProbeChunk>)
        requires
            self.well_formed(),
            highest@.len() == self.chunks_x() * self.chunks_z(),
        ensures
            r@ == self.probes(highest@, highest@.len() as int),
    {
        let x_end: i32 = self.start.x + self.size_xz;
        let z_end: i32 = self.start.z + self.size_xz;
        let chunk_x0: i32 = pos::block_to_section_coord(self.start.x);
        let chunk_z0: i32 = pos::block_to_section_coord(self.start.z);
        let chunk_z1: i32 = pos::block_to_section_coord(z_end);
        let across: usize = (chunk_z1 - chunk_z0 + 1) as usize;
        let mut r: Vec<ProbeChunk> = Vec::new();
        let mut k: usize = 0;
        while k < highest.len()
            invariant
                self.well_formed(),
                highest@.len() == self.chunks_x() * self.chunks_z(),
                x_end == self.start.x + self.size_xz,
                z_end == self.start.z + self.size_xz,
                chunk_x0 == self.chunk_x0(),
                chunk_z0 == self.chunk_z0(),
                across == self.chunks_z(),
                k <= highest@.len(),
                r@ == self.probes(highest@, k as int),
            decreases highest@.len() - k,
        {
            let below: bool = match highest[k] {
                Some(max) => max < self.start.y,
                None => false,
            };
            if !below {
                proof {
                    lemma_row_place(k as int, self.chunks_x(), self.chunks_z());
                }
                let chunk_x: i32 = (chunk_x0 as i64 + (k / across) as i64) as i32;
                let chunk_z: i32 = (chunk_z0 as i64 + (k % across) as i64) as i32;
                let x_last: i32 = chunk_x * 16 + 15;
                let z_last: i32 = chunk_z * 16 + 15;
                r.push(
                    ProbeChunk {
                        chunk_x,
                        chunk_z,
                        x_low: larger_i32(self.start.x, chunk_x * 16),
                        x_high: if x_end <= x_last {
                            x_end
                        } else {
                            x_last
                        },
                        z_low: larger_i32(self.start.z, chunk_z * 16),
                        z_high: if z_end <= z_last {
                            z_end
                        } else {
                            z_last
                        },
                    },
                );
            }
            k += 1;
        }
        r
    }
}

impl ProbeChunk {
    /// The column is one of these.
    pub open spec fn covers(&self, x: int, z: int) -> bool {
        self.x_low <= x <= self.x_high && self.z_low <= z <= self.z_high
    }
}

/// A column of the box reaches up to it.
pub open spec fn reaches(found: OreBox, height: spec_fn(int, int) -> int) -> bool {
    exists|x: int, z: int| #[trigger] found.covers(x, z) && found.start.y <= height(x, z)
}

/// A column of one of the chunks reaches up to the box.
pub open spec fn probed(
    found: OreBox,
    chunks: Seq<ProbeChunk>,
    height: spec_fn(int, int) -> int,
) -> bool {
    exists|k: int, x: int, z: int|
        0 <= k < chunks.len() && #[trigger] chunks[k].covers(x, z) && found.start.y <= height(x, z)
}

proof fn lemma_probes(found: OreBox, highest: Seq<Option<i32>>, n: int, k: int)
    requires
        0 <= k < n,
        !(highest[k] matches Some(max) && max < found.start.y),
    ensures
        found.probes(highest, n).contains(found.probe(k)),
    decreases n,
{
    let now = found.probes(highest, n);
    let before = found.probes(highest, n - 1);
    if k == n - 1 {
        assert(now.last() == found.probe(k));
        assert(now[now.len() - 1] == found.probe(k));
    } else {
        lemma_probes(found, highest, n - 1, k);
        let i = choose|i: int| 0 <= i < before.len() && before[i] == found.probe(k);
        assert(now[i] == found.probe(k));
    }
}

proof fn lemma_probes_from(found: OreBox, highest: Seq<Option<i32>>, n: int, i: int)
    requires
        0 <= i < found.probes(highest, n).len(),
    ensures
        exists|k: int| 0 <= k < n && found.probes(highest, n)[i] == #[trigger] found.probe(k),
    decreases n,
{
    if n > 0 {
        let before = found.probes(highest, n - 1);
        if i < before.len() {
            lemma_probes_from(found, highest, n - 1, i);
            let k = choose|k: int| 0 <= k < n - 1 && before[i] == #[trigger] found.probe(k);
            assert(found.probes(highest, n)[i] == found.probe(k));
        } else {
            assert(found.probes(highest, n)[i] == found.probe(n - 1));
        }
    }
}

/// Leaving out the chunks that lie below the box changes nothing: the probe
/// finds a column exactly if the whole box holds one.
pub proof fn pruning_keeps_the_answer(
    found: OreBox,
    highest: Seq<Option<i32>>,
    height: spec_fn(int, int) -> int,
)
    requires
        found.well_formed(),
        highest.len() == found.chunks_x() * found.chunks_z(),
        forall|k: int, x: int, z: int|
            0 <= k < highest.len() && (highest[k] is Some) && #[trigger] found.probe(k).covers(x, z)
                ==> height(x, z) <= highest[k]->0,
    ensures
        probed(found, found.probes(highest, highest.len() as int), height) == reaches(
            found,
            height,
        ),
{
    let n = highest.len() as int;
    let chunks = found.probes(highest, n);
    let across = found.chunks_z();
    if reaches(found, height) {
        let (x, z) = choose|x: int, z: int| #[trigger]
            found.covers(x, z) && found.start.y <= height(x, z);
        let (cx, cz) = (x / 16 - found.chunk_x0(), z / 16 - found.chunk_z0());
        assert(0 <= cx < found.chunks_x() && 0 <= cz < across);
        let k = cx * across + cz;
        assert(0 <= k < n && k / across == cx && k % across == cz) by (nonlinear_arith)
            requires
                k == cx * across + cz,
                0 <= cx < found.chunks_x(),
                0 <= cz < across,
                n == found.chunks_x() * across,
        ;
        assert(found.probe(k).covers(x, z));
        lemma_probes(found, highest, n, k);
        let i = choose|i: int| 0 <= i < chunks.len() && chunks[i] == found.probe(k);
        assert(chunks[i].covers(x, z));
    }
    if probed(found, chunks, height) {
        let (i, x, z) = choose|i: int, x: int, z: int|
            0 <= i < chunks.len() && #[trigger] chunks[i].covers(x, z) && found.start.y <= height(
                x,
                z,
            );
        lemma_probes_from(found, highest, n, i);
        let k = choose|k: int| 0 <= k < n && chunks[i] == #[trigger] found.probe(k);
        assert(across >= 1);
        lemma_row_place(k, found.chunks_x(), across);
        assert(found.covers(x, z));
    }
}

} // verus!
