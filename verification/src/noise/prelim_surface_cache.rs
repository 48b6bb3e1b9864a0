//! Cross-chunk memo for preliminary surface levels.

use rustc_hash::FxHashMap;
use vstd::prelude::*;

use crate::fx;

verus! {

/// Number of independent shards.
pub const SHARDS: usize = 256;

/// Entries a shard keeps before it is cleared.
///
/// Clearing a full shard outright rather than evicting entry by entry keeps the
/// hot path free of bookkeeping, and the generation front refills it within a
/// few chunks.
pub const SHARD_CAPACITY: usize = 4096;

/// The key of a quart column: its coordinates side by side.
pub open spec fn column_key(quart_x: i32, quart_z: i32) -> u64 {
    (quart_x as u32 as u64) | ((quart_z as u32 as u64) << 32)
}

proof fn lemma_key_unique(x: i32, z: i32, other_x: i32, other_z: i32)
    ensures
        column_key(x, z) == column_key(other_x, other_z) ==> x == other_x && z == other_z,
{
    assert(((x as u32 as u64) | ((z as u32 as u64) << 32)) == ((other_x as u32 as u64) | ((
    other_z as u32 as u64) << 32)) ==> x == other_x && z == other_z) by (bit_vector);
}

/// Scrambles a key so that neighbouring columns land far apart.
pub open spec fn scrambled(key: u64) -> u64 {
    let a = key.wrapping_mul(0x9E37_79B9_7F4A_7C15);
    let b = a ^ (a >> 30);
    let c = b.wrapping_mul(0xBF58_476D_1CE4_E5B9);
    c ^ (c >> 27)
}

/// Memoizes the preliminary surface level across the chunks of one world.
///
/// The level is a function of the quart column and the world seed alone, so a
/// memo is exact rather than approximate.
pub struct PrelimSurfaceCache {
    shards: Vec<FxHashMap<u64, i32>>,
}

impl PrelimSurfaceCache {
    /// The shard that owns a quart column.
    pub open spec fn owner(quart_x: i32, quart_z: i32) -> int {
        scrambled(column_key(quart_x, quart_z)) as usize as int % SHARDS as int
    }

    /// The levels kept in a shard.
    pub closed spec fn shard(&self, index: int) -> Map<u64, i32> {
        self.shards@[index]@
    }

    /// The level kept for a quart column, if there is one.
    pub open spec fn level(&self, quart_x: i32, quart_z: i32) -> Option<i32> {
        let kept = self.shard(Self::owner(quart_x, quart_z));
        let key = column_key(quart_x, quart_z);
        if kept.contains_key(key) {
            Some(kept[key])
        } else {
            None
        }
    }

    /// There is every shard, and none holds more than its capacity.
    pub closed spec fn well_formed(&self) -> bool {
        &&& self.shards@.len() == SHARDS
        &&& forall|i: int|
            0 <= i < SHARDS ==> (#[trigger] self.shards@[i])@.dom().finite()
                && self.shards@[i]@.len() <= SHARD_CAPACITY
    }

    /// Creates an empty cache.
    #[must_use]
    pub fn new() -> (r: Self)
        ensures
            r.well_formed(),
            forall|x: i32, z: i32| #[trigger] r.level(x, z) is None,
            forall|i: int| 0 <= i < SHARDS ==> #[trigger] r.shard(i) == Map::<u64, i32>::empty(),
    {
        let mut shards: Vec<FxHashMap<u64, i32>> = Vec::new();
        while shards.len() < SHARDS
            invariant
                shards@.len() <= SHARDS,
                forall|i: int|
                    0 <= i < shards@.len() ==> (#[trigger] shards@[i])@ == Map::<u64, i32>::empty(),
            decreases SHARDS - shards@.len(),
        {
            shards.push(FxHashMap::default());
        }
        PrelimSurfaceCache { shards }
    }

    /// Which shard owns a quart column.
    ///
    /// Mixes both axes so that a row of columns spreads across shards instead of
    /// queueing on one.
    pub fn shard_of(quart_x: i32, quart_z: i32) -> (r: usize)
        ensures
            r == Self::owner(quart_x, quart_z),
            r < SHARDS,
    {
        let key: u64 = (quart_x as u32 as u64) | ((quart_z as u32 as u64) << 32);
        let a: u64 = key.wrapping_mul(0x9E37_79B9_7F4A_7C15);
        let b: u64 = a ^ (a >> 30);
        let c: u64 = b.wrapping_mul(0xBF58_476D_1CE4_E5B9);
        let hash: u64 = c ^ (c >> 27);
        (hash as usize) % SHARDS
    }

    /// The memoized level for a quart column, if it is known.
    #[must_use]
    pub fn get(&self, quart_x: i32, quart_z: i32) -> (r: Option<i32>)
        requires
            self.well_formed(),
        ensures
            r == self.level(quart_x, quart_z),
    {
        let key: u64 = (quart_x as u32 as u64) | ((quart_z as u32 as u64) << 32);
        match fx::map_get(&self.shards[Self::shard_of(quart_x, quart_z)], &key) {
            Some(level) => Some(*level),
            None => None,
        }
    }

    /// How many columns a shard keeps.
    pub fn shard_len(&self, shard: usize) -> (r: usize)
        requires
            self.well_formed(),
            shard < SHARDS,
        ensures
            r == self.shard(shard as int).len(),
    {
        fx::map_len(&self.shards[shard])
    }

    /// Records the level for a quart column.
    ///
    /// A full shard is cleared first, so the other columns of that shard may be
    /// forgotten; those of the other shards are kept.
    pub fn insert(&mut self, quart_x: i32, quart_z: i32, level: i32)
        requires
            old(self).well_formed(),
        ensures
            final(self).well_formed(),
            forall|i: int|
                0 <= i < SHARDS && i != Self::owner(quart_x, quart_z) ==> #[trigger] final(
                    self).shard(i) == old(self).shard(i),
            ({
                let owner = Self::owner(quart_x, quart_z);
                let before = old(self).shard(owner);
                final(self).shard(owner) == (if before.len() >= SHARD_CAPACITY {
                    Map::<u64, i32>::empty()
                } else {
                    before
                }).insert(column_key(quart_x, quart_z), level)
            }),
    {
        let at: usize = Self::shard_of(quart_x, quart_z);
        let key: u64 = (quart_x as u32 as u64) | ((quart_z as u32 as u64) << 32);
        let mut shard: FxHashMap<u64, i32> = FxHashMap::default();
        let ghost start = self.shards@;
        std::mem::swap(&mut shard, &mut self.shards[at]);
        if fx::map_len(&shard) >= SHARD_CAPACITY {
            shard.clear();
        }
        fx::map_insert(&mut shard, key, level);
        self.shards.set(at, shard);
        assert(self.shards@ =~= start.update(at as int, shard));
    }
}

/// A recorded level reads back, and another column never reads it: it keeps its
/// own level, or none if its shard was cleared.
pub proof fn a_recorded_level_reads_back(
    before: PrelimSurfaceCache,
    after: PrelimSurfaceCache,
    x: i32,
    z: i32,
    level: i32,
    other_x: i32,
    other_z: i32,
)
    requires
        forall|i: int|
            0 <= i < SHARDS && i != PrelimSurfaceCache::owner(x, z) ==> #[trigger] after.shard(i)
                == before.shard(i),
        ({
            let owner = PrelimSurfaceCache::owner(x, z);
            let kept = before.shard(owner);
            after.shard(owner) == (if kept.len() >= SHARD_CAPACITY {
                Map::<u64, i32>::empty()
            } else {
                kept
            }).insert(column_key(x, z), level)
        }),
    ensures
        after.level(x, z) == Some(level),
        (other_x, other_z) != (x, z) ==> after.level(other_x, other_z) is None || after.level(
            other_x,
            other_z,
        ) == before.level(other_x, other_z),
{
    lemma_key_unique(x, z, other_x, other_z);
    let owner = PrelimSurfaceCache::owner(other_x, other_z);
    assert(0 <= owner < SHARDS);
    if owner != PrelimSurfaceCache::owner(x, z) {
        assert(after.shard(owner) == before.shard(owner));
    }
}

/// No shard ever holds more than its capacity.
pub proof fn the_cache_stays_bounded(cache: PrelimSurfaceCache, shard: int)
    requires
        cache.well_formed(),
        0 <= shard < SHARDS,
    ensures
        cache.shard(shard).len() <= SHARD_CAPACITY,
{
    assert(cache.shards@[shard]@.len() <= SHARD_CAPACITY);
}

/// A column's key has its coordinates side by side, and its shard is the rest
/// by 256 of the key after two rounds of multiplying and folding down.
pub proof fn a_column_is_kept_by_its_mixed_key(x: i32, z: i32, a: u64, b: u64)
    requires
        a == column_key(x, z) * 0x9E37_79B9_7F4A_7C15 % 0x1_0000_0000_0000_0000,
        b == (a ^ (a >> 30)) * 0xBF58_476D_1CE4_E5B9 % 0x1_0000_0000_0000_0000,
    ensures
        x >= 0 && z >= 0 ==> column_key(x, z) == x + 0x1_0000_0000 * z,
        x < 0 && z >= 0 ==> column_key(x, z) == x + 0x1_0000_0000 + 0x1_0000_0000 * z,
        PrelimSurfaceCache::owner(x, z) == (b ^ (b >> 27)) % 256,
{
    assert(x >= 0 && z >= 0 ==> ((x as u32 as u64) | ((z as u32 as u64) << 32)) == x
        + 0x1_0000_0000 * z) by (bit_vector);
    assert(x < 0 && z >= 0 ==> ((x as u32 as u64) | ((z as u32 as u64) << 32)) == x + 0x1_0000_0000
        + 0x1_0000_0000 * z) by (bit_vector);
    let mixed = b ^ (b >> 27);
    assert(scrambled(column_key(x, z)) == mixed);
    assert(mixed as usize % 256 == mixed % 256) by (bit_vector);
}

} // verus!
