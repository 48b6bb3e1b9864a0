//! Chunk snapshot encoding.
//!
//! Serializes generated chunks into a compact, self-describing binary form the
//! host decodes into its own chunk objects: only what the host needs to
//! reconstruct terrain, in an encoding that is trivial to read.
//!
//! Palettes are keyed by identifier, so that the host resolves names against
//! its own registry, and an unknown name is a loud failure rather than silent
//! air.

use rustc_hash::FxHashMap;
use vstd::prelude::*;

use crate::fx;
use crate::text;

verus! {

/// Magic at the start of every snapshot buffer: `SWGS`, least byte first.
pub const SNAPSHOT_MAGIC: u32 = 0x5347_5753;

/// Snapshot format version. Bumped on any framing change.
pub const SNAPSHOT_VERSION: u16 = 1;

/// Blocks in one section.
pub const SECTION_VOLUME: usize = 4096;

/// Biome cells in one section.
pub const BIOME_CELLS: usize = 64;

/// A palette that is one repeated value.
pub const KIND_UNIFORM: u8 = 0;

/// A palette written as one index per cell.
pub const KIND_DENSE: u8 = 1;

/// Something a chunk contained that cannot be encoded.
#[derive(Debug, Clone, Copy, PartialEq, Eq, Structural)]
pub enum SnapshotError {
    /// A block state id had no registry entry.
    UnknownBlockState(u16),
    /// A biome id had no registry entry.
    UnknownBiome(u16),
    /// More distinct states or biomes in one chunk than a palette can hold.
    PaletteOverflow,
}

impl SnapshotError {
    /// The error in words.
    pub open spec fn spoken(&self) -> Seq<char> {
        match *self {
            SnapshotError::UnknownBlockState(id) => "no registry entry for block state "@
                + text::decimal(id as nat),
            SnapshotError::UnknownBiome(id) => "no registry entry for biome "@ + text::decimal(
                id as nat,
            ),
            SnapshotError::PaletteOverflow => "chunk palette exceeded u16"@,
        }
    }

    /// The error in words.
    pub fn to_string(&self) -> (r: String)
        ensures
            r@ == self.spoken(),
    {
        match *self {
            SnapshotError::UnknownBlockState(id) => {
                let mut out = "no registry entry for block state ".to_owned();
                text::push_decimal(&mut out, id as u64);
                out
            },
            SnapshotError::UnknownBiome(id) => {
                let mut out = "no registry entry for biome ".to_owned();
                text::push_decimal(&mut out, id as u64);
                out
            },
            SnapshotError::PaletteOverflow => "chunk palette exceeded u16".to_owned(),
        }
    }
}

// ---------------------------------------------------------------------------
// Bytes
// ---------------------------------------------------------------------------
/// Two bytes, the least first.
pub open spec fn le16(v: int) -> Seq<u8> {
    seq![(v % 256) as u8, (v / 256 % 256) as u8]
}

/// Four bytes, the least first.
pub open spec fn le32(v: int) -> Seq<u8> {
    le16(v % 65536) + le16(v / 65536)
}

/// A signed number as the unsigned one with the same bits.
pub open spec fn unsigned_of(v: int) -> int {
    if v >= 0 {
        v
    } else {
        v + 0x1_0000_0000
    }
}

fn put_u16(out: &mut Vec<u8>, v: u16)
    ensures
        final(out)@ == old(out)@ + le16(v as int),
{
    out.push((v % 256) as u8);
    out.push((v / 256) as u8);
    assert(out@ =~= old(out)@ + le16(v as int));
}

fn put_u32(out: &mut Vec<u8>, v: u32)
    ensures
        final(out)@ == old(out)@ + le32(v as int),
{
    put_u16(out, (v % 65536) as u16);
    put_u16(out, (v / 65536) as u16);
    assert(out@ =~= old(out)@ + le32(v as int));
}

fn put_i32(out: &mut Vec<u8>, v: i32)
    ensures
        final(out)@ == old(out)@ + le32(unsigned_of(v as int)),
{
    assert(v >= 0 ==> v as u32 == v) by (bit_vector);
    assert(v < 0 ==> v as u32 == v + 0x1_0000_0000) by (bit_vector);
    put_u32(out, v as u32);
}

/// The bytes of a text, as far as a length of two bytes can count them.
pub open spec fn text_bytes(value: Seq<char>) -> Seq<u8> {
    let bytes = vstd::utf8::encode_utf8(value);
    if bytes.len() <= u16::MAX {
        bytes
    } else {
        bytes.subrange(0, u16::MAX as int)
    }
}

/// A text behind the number of its bytes.
pub open spec fn string_bytes(value: Seq<char>) -> Seq<u8> {
    le16(text_bytes(value).len() as int) + text_bytes(value)
}

/// Appends a length-prefixed UTF-8 string.
pub fn put_string(out: &mut Vec<u8>, value: &str)
    ensures
        final(out)@ == old(out)@ + string_bytes(value@),
{
    let bytes = value.as_bytes();
    let length: u16 = if bytes.len() <= u16::MAX as usize {
        bytes.len() as u16
    } else {
        u16::MAX
    };
    put_u16(out, length);
    let ghost before = out@;
    let ghost all = text_bytes(value@);
    assert(before + all.subrange(0, 0) =~= before);
    let mut i: usize = 0;
    while i < length as usize
        invariant
            i <= length,
            length as int == all.len(),
            all == text_bytes(value@),
            bytes@ == vstd::utf8::encode_utf8(value@),
            out@ == before + all.subrange(0, i as int),
        decreases length - i,
    {
        out.push(bytes[i]);
        i += 1;
        assert(out@ =~= before + all.subrange(0, i as int));
    }
    assert(all.subrange(0, i as int) =~= all);
    assert(out@ =~= old(out)@ + string_bytes(value@));
}

/// Every cell holds the same.
pub open spec fn is_uniform(cells: Seq<u16>) -> bool {
    cells.len() > 0 && forall|i: int| 0 <= i < cells.len() ==> #[trigger] cells[i] == cells[0]
}

/// Numbers, two bytes each.
pub open spec fn numbers_bytes(cells: Seq<u16>) -> Seq<u8>
    decreases cells.len(),
{
    if cells.len() == 0 {
        Seq::empty()
    } else {
        numbers_bytes(cells.drop_last()) + le16(cells.last() as int)
    }
}

/// A cell array as either a uniform value or one index per cell.
pub open spec fn cells_bytes(cells: Seq<u16>) -> Seq<u8> {
    if is_uniform(cells) {
        seq![KIND_UNIFORM] + le16(cells[0] as int)
    } else {
        seq![KIND_DENSE] + numbers_bytes(cells)
    }
}

/// Appends the cells from `start` to `end` as either a uniform value or one
/// index per cell.
pub fn put_cells(out: &mut Vec<u8>, cells: &Vec<u16>, start: usize, end: usize)
    requires
        start <= end <= cells@.len(),
    ensures
        final(out)@ == old(out)@ + cells_bytes(cells@.subrange(start as int, end as int)),
{
    let ghost part = cells@.subrange(start as int, end as int);
    let mut uniform: bool = start < end;
    let mut i: usize = start;
    while i < end && uniform
        invariant
            start <= i <= end <= cells@.len(),
            part == cells@.subrange(start as int, end as int),
            uniform ==> start < end && forall|k: int| start <= k < i ==> #[trigger] cells@[k]
                == cells@[start as int],
            !uniform ==> !is_uniform(part),
        decreases end - i + if uniform {
            1int
        } else {
            0
        },
    {
        if cells[i] != cells[start] {
            proof {
                assert(part[i - start] == cells@[i as int]);
                assert(part[0] == cells@[start as int]);
            }
            uniform = false;
        } else {
            i += 1;
        }
    }
    if uniform {
        proof {
            assert forall|k: int| 0 <= k < part.len() implies #[trigger] part[k] == part[0] by {
                assert(part[k] == cells@[start + k]);
            }
        }
        out.push(KIND_UNIFORM);
        put_u16(out, cells[start]);
        assert(out@ =~= old(out)@ + cells_bytes(part));
        return ;
    }
    out.push(KIND_DENSE);
    let ghost before = out@;
    let mut k: usize = start;
    assert(part.subrange(0, 0) =~= Seq::<u16>::empty());
    assert(before + numbers_bytes(part.subrange(0, 0)) =~= before);
    while k < end
        invariant
            start <= k <= end <= cells@.len(),
            part == cells@.subrange(start as int, end as int),
            out@ == before + numbers_bytes(part.subrange(0, k - start)),
        decreases end - k,
    {
        proof {
            assert(part.subrange(0, k + 1 - start).drop_last() =~= part.subrange(0, k - start));
        }
        put_u16(out, cells[k]);
        k += 1;
        assert(out@ =~= before + numbers_bytes(part.subrange(0, k - start)));
    }
    assert(part.subrange(0, k - start) =~= part);
    assert(out@ =~= old(out)@ + cells_bytes(part));
}

// ---------------------------------------------------------------------------
// Palettes
// ---------------------------------------------------------------------------
/// A block state's name: its block and its properties.
#[derive(Debug)]
pub struct BlockName {
    pub key: String,
    pub properties: Vec<(String, String)>,
}

/// The first `n` properties, separated by commas.
pub open spec fn properties_text(properties: Seq<(String, String)>, n: int) -> Seq<char>
    decreases n,
{
    if n <= 0 {
        Seq::empty()
    } else {
        (if n > 1 {
            properties_text(properties, n - 1) + seq![',']
        } else {
            Seq::<char>::empty()
        }) + properties[n - 1].0@ + seq!['='] + properties[n - 1].1@
    }
}

/// A block state's name, with its properties in brackets if it has any.
pub open spec fn block_text(name: BlockName) -> Seq<char> {
    if name.properties@.len() == 0 {
        name.key@
    } else {
        name.key@ + seq!['['] + properties_text(
            name.properties@,
            name.properties@.len() as int,
        ) + seq![']']
    }
}

impl BlockName {
    /// The name as `name[key=value,key=value]`, bare without properties.
    pub fn encoded(&self) -> (r: String)
        ensures
            r@ == block_text(*self),
    {
        let mut out = self.key.clone();
        if self.properties.len() > 0 {
            out.push('[');
            let ghost before = out@;
            let mut i: usize = 0;
            assert(before + properties_text(self.properties@, 0) =~= before);
            while i < self.properties.len()
                invariant
                    i <= self.properties@.len(),
                    out@ == before + properties_text(self.properties@, i as int),
                decreases self.properties@.len() - i,
            {
                if i > 0 {
                    out.push(',');
                }
                out.append(self.properties[i].0.as_str());
                out.push('=');
                out.append(self.properties[i].1.as_str());
                i += 1;
                assert(out@ =~= before + properties_text(self.properties@, i as int));
            }
            out.push(']');
            assert(out@ =~= block_text(*self));
        }
        out
    }
}

/// The names that a registry has for block states and biomes.
#[derive(Debug)]
pub struct SnapshotNames {
    pub blocks: Vec<Option<BlockName>>,
    pub biomes: Vec<Option<String>>,
}

/// What a palette is of.
#[derive(Debug, Clone, Copy, PartialEq, Eq, Structural)]
pub enum PaletteKind {
    Blocks,
    Biomes,
}

impl SnapshotNames {
    /// The name of an id, if it has one.
    pub open spec fn name(&self, kind: PaletteKind, id: u16) -> Option<Seq<char>> {
        match kind {
            PaletteKind::Blocks => if id < self.blocks@.len() {
                match self.blocks@[id as int] {
                    Some(name) => Some(block_text(name)),
                    None => None,
                }
            } else {
                None
            },
            PaletteKind::Biomes => if id < self.biomes@.len() {
                match self.biomes@[id as int] {
                    Some(name) => Some(name@),
                    None => None,
                }
            } else {
                None
            },
        }
    }

    fn find(&self, kind: PaletteKind, id: u16) -> (r: Option<String>)
        ensures
            match r {
                None => self.name(kind, id) is None,
                Some(name) => self.name(kind, id) == Some(name@),
            },
    {
        match kind {
            PaletteKind::Blocks => if (id as usize) < self.blocks.len() {
                match &self.blocks[id as usize] {
                    Some(name) => Some(name.encoded()),
                    None => None,
                }
            } else {
                None
            },
            PaletteKind::Biomes => if (id as usize) < self.biomes.len() {
                match &self.biomes[id as usize] {
                    Some(name) => Some(name.clone()),
                    None => None,
                }
            } else {
                None
            },
        }
    }
}

/// The error for an id without a name.
pub open spec fn unknown(kind: PaletteKind, id: u16) -> SnapshotError {
    match kind {
        PaletteKind::Blocks => SnapshotError::UnknownBlockState(id),
        PaletteKind::Biomes => SnapshotError::UnknownBiome(id),
    }
}

/// The distinct ids, in the order in which they are first met.
pub open spec fn first_seen(ids: Seq<u16>) -> Seq<u16>
    decreases ids.len(),
{
    if ids.len() == 0 {
        Seq::empty()
    } else {
        let before = first_seen(ids.drop_last());
        if before.contains(ids.last()) {
            before
        } else {
            before.push(ids.last())
        }
    }
}

/// Why ids do not fit into a palette, if they do not: the first that has no
/// name, or that is one more distinct id than an index can tell apart.
pub open spec fn palette_fault(names: SnapshotNames, kind: PaletteKind, ids: Seq<u16>) -> Option<
    SnapshotError,
>
    decreases ids.len(),
{
    if ids.len() == 0 {
        None
    } else {
        match palette_fault(names, kind, ids.drop_last()) {
            Some(error) => Some(error),
            None => if names.name(kind, ids.last()) is None {
                Some(unknown(kind, ids.last()))
            } else if first_seen(ids).len() > u16::MAX {
                Some(SnapshotError::PaletteOverflow)
            } else {
                None
            },
        }
    }
}

/// A palette: names, and the ids they stand for.
pub struct Palette {
    entries: Vec<String>,
    index: FxHashMap<u16, u16>,
    order: Ghost<Seq<u16>>,
}

impl Palette {
    /// The ids in the palette, in order.
    pub closed spec fn ids(&self) -> Seq<u16> {
        self.order@
    }

    /// Every id has its name at its place, and nothing else is looked up.
    pub closed spec fn well_formed(&self, names: SnapshotNames, kind: PaletteKind) -> bool {
        &&& self.entries@.len() == self.order@.len() <= u16::MAX
        &&& self.order@.no_duplicates()
        &&& forall|i: int|
            0 <= i < self.order@.len() ==> names.name(kind, #[trigger] self.order@[i]) == Some(
                self.entries@[i]@,
            ) && self.index@.contains_key(self.order@[i]) && self.index@[self.order@[i]] == i
        &&& forall|id: u16| #[trigger] self.index@.contains_key(id) ==> self.order@.contains(id)
    }

    fn new() -> (r: Self)
        ensures
            forall|names: SnapshotNames, kind: PaletteKind| #[trigger] r.well_formed(names, kind),
            r.ids() == Seq::<u16>::empty(),
    {
        Palette { entries: Vec::new(), index: FxHashMap::default(), order: Ghost(Seq::empty()) }
    }

    /// The place of an id that is in the palette.
    fn place(&self, id: u16, Ghost(names): Ghost<SnapshotNames>, Ghost(kind): Ghost<PaletteKind>) -> (r:
        Option<u16>)
        requires
            self.well_formed(names, kind),
        ensures
            match r {
                None => !self.ids().contains(id),
                Some(at) => at < self.ids().len() && self.ids()[at as int] == id,
            },
    {
        match fx::map_get(&self.index, &id) {
            Some(at) => {
                proof {
                    let k = choose|k: int| 0 <= k < self.order@.len() && self.order@[k] == id;
                    assert(self.order@[k] == id);
                }
                Some(*at)
            },
            None => {
                proof {
                    if self.order@.contains(id) {
                        let k = choose|k: int| 0 <= k < self.order@.len() && self.order@[k] == id;
                        assert(self.index@.contains_key(self.order@[k]));
                    }
                }
                None
            },
        }
    }

    /// Interns an id, unless it is in the palette, has no name or finds the
    /// palette full.
    fn intern(&mut self, names: &SnapshotNames, kind: PaletteKind, id: u16) -> (r: Result<
        (),
        SnapshotError,
    >)
        requires
            old(self).well_formed(*names, kind),
        ensures
            match r {
                Ok(_) => {
                    &&& final(self).well_formed(*names, kind)
                    &&& names.name(kind, id) is Some
                    &&& final(self).ids() == if old(self).ids().contains(id) {
                        old(self).ids()
                    } else {
                        old(self).ids().push(id)
                    }
                },
                Err(error) => if names.name(kind, id) is None {
                    error == unknown(kind, id)
                } else {
                    &&& error == SnapshotError::PaletteOverflow
                    &&& !old(self).ids().contains(id)
                    &&& old(self).ids().len() == u16::MAX
                },
            },
    {
        if self.place(id, Ghost(*names), Ghost(kind)).is_some() {
            proof {
                let k = choose|k: int| 0 <= k < self.order@.len() && self.order@[k] == id;
                assert(names.name(kind, self.order@[k]) is Some);
            }
            return Ok(());
        }
        let name = match names.find(kind, id) {
            Some(name) => name,
            None => {
                return Err(
                    match kind {
                        PaletteKind::Blocks => SnapshotError::UnknownBlockState(id),
                        PaletteKind::Biomes => SnapshotError::UnknownBiome(id),
                    },
                );
            },
        };
        if self.entries.len() >= u16::MAX as usize {
            return Err(SnapshotError::PaletteOverflow);
        }
        let ghost before = *self;
        let at: u16 = self.entries.len() as u16;
        self.entries.push(name);
        fx::map_insert(&mut self.index, id, at);
        self.order = Ghost(before.order@.push(id));
        proof {
            assert forall|i: int| 0 <= i < self.order@.len() implies names.name(
                kind,
                #[trigger] self.order@[i],
            ) == Some(self.entries@[i]@) && self.index@.contains_key(self.order@[i])
                && self.index@[self.order@[i]] == i by {
                if i < before.order@.len() {
                    assert(self.order@[i] == before.order@[i]);
                    assert(before.index@.contains_key(before.order@[i]));
                    assert(before.order@[i] != id) by {
                        assert(before.order@.contains(before.order@[i]));
                    }
                }
            }
            assert forall|other: u16| #[trigger]
                self.index@.contains_key(other) implies self.order@.contains(other) by {
                if other == id {
                    assert(self.order@[before.order@.len() as int] == id);
                } else {
                    assert(before.order@.contains(other));
                    let k = choose|k: int| 0 <= k < before.order@.len() && before.order@[k] == other;
                    assert(self.order@[k] == other);
                }
            }
            assert(self.order@.no_duplicates()) by {
                assert forall|i: int, j: int|
                    0 <= i < self.order@.len() && 0 <= j < self.order@.len() && i
                        != j implies self.order@[i] != self.order@[j] by {
                    if i < before.order@.len() && j < before.order@.len() {
                    } else if i < before.order@.len() {
                        assert(before.order@.contains(before.order@[i]));
                    } else {
                        assert(before.order@.contains(before.order@[j]));
                    }
                }
            }
        }
        Ok(())
    }
}

/// A list of distinct ids that lacks one has at most all others.
proof fn lemma_few_ids(ids: Seq<u16>, missing: u16)
    requires
        ids.no_duplicates(),
        !ids.contains(missing),
    ensures
        ids.len() <= u16::MAX,
{
    let more = ids.push(missing).map_values(|id: u16| id as int);
    vstd::set_lib::lemma_int_range(0, 0x1_0000);
    assert(more.no_duplicates()) by {
        assert forall|i: int, j: int| 0 <= i < more.len() && 0 <= j < more.len() && i
            != j implies more[i] != more[j] by {
            if i < ids.len() && j < ids.len() {
                assert(ids[i] != ids[j]);
            } else if i < ids.len() {
                assert(ids.contains(ids[i]));
            } else {
                assert(ids.contains(ids[j]));
            }
        }
    }
    more.unique_seq_to_set();
    assert(more.to_set().subset_of(vstd::set_lib::set_int_range(0, 0x1_0000))) by {
        assert forall|v: int| more.to_set().contains(v) implies vstd::set_lib::set_int_range(
            0,
            0x1_0000,
        ).contains(v) by {
            let k = choose|k: int| 0 <= k < more.len() && more[k] == v;
            assert(more[k] == v);
        }
    }
    vstd::set_lib::lemma_len_subset(more.to_set(), vstd::set_lib::set_int_range(0, 0x1_0000));
}

// ---------------------------------------------------------------------------
// Chunks
// ---------------------------------------------------------------------------
/// What is encoded of a chunk.
#[derive(Debug)]
pub struct ChunkContents {
    pub x: i32,
    pub z: i32,
    /// Index of the status that the chunk has reached.
    pub status: usize,
    pub section_count: usize,
    /// Block state ids, at `y * 256 + z * 16 + x`.
    pub blocks: Vec<u16>,
    /// Biome ids, at `section * 64 + y * 16 + z * 4 + x`.
    pub biomes: Vec<u16>,
}

/// The place of the `s`-th block in the order in which columns are read: along
/// x, then z, then y.
pub open spec fn column_place(s: int, tall: int) -> int {
    s % tall * 256 + s / tall % 16 * 16 + s / tall / 16
}

/// The blocks in the order in which columns are read.
pub open spec fn column_order(blocks: Seq<u16>, tall: int) -> Seq<u16> {
    Seq::new((256 * tall) as nat, |s: int| blocks[column_place(s, tall)])
}

proof fn lemma_column_place(s: int, tall: int)
    requires
        tall > 0,
        0 <= s < 256 * tall,
    ensures
        0 <= column_place(s, tall) < 256 * tall,
{
    let (q, y) = (s / tall, s % tall);
    assert(0 <= q < 256 && 0 <= y < tall) by (nonlinear_arith)
        requires
            q == s / tall,
            y == s % tall,
            tall > 0,
            0 <= s < 256 * tall,
    ;
}

proof fn lemma_column_covers(p: int, tall: int)
    requires
        tall > 0,
        0 <= p < 256 * tall,
    ensures
        exists|s: int| 0 <= s < 256 * tall && #[trigger] column_place(s, tall) == p,
{
    let (x, z, y) = (p % 16, p / 16 % 16, p / 256);
    let q = x * 16 + z;
    let s = q * tall + y;
    assert(s / tall == q && s % tall == y && 0 <= s < 256 * tall) by (nonlinear_arith)
        requires
            s == q * tall + y,
            0 <= y < tall,
            0 <= q < 256,
    ;
    assert(column_place(s, tall) == p);
}

impl ChunkContents {
    /// Blocks along y.
    pub open spec fn tall(&self) -> int {
        self.section_count * 16
    }

    /// There is a block and a biome for every cell of every section.
    pub open spec fn well_formed(&self) -> bool {
        &&& self.blocks@.len() == self.section_count * SECTION_VOLUME
        &&& self.biomes@.len() == self.section_count * BIOME_CELLS
    }

    /// The ids of a palette, in the order in which they are met.
    pub open spec fn met(&self, kind: PaletteKind) -> Seq<u16> {
        match kind {
            PaletteKind::Blocks => column_order(self.blocks@, self.tall()),
            PaletteKind::Biomes => self.biomes@,
        }
    }

    /// The ids of a palette by cell.
    pub open spec fn cells(&self, kind: PaletteKind) -> Seq<u16> {
        match kind {
            PaletteKind::Blocks => self.blocks@,
            PaletteKind::Biomes => self.biomes@,
        }
    }

    /// Why the chunk cannot be encoded, if it cannot: what is wrong with its
    /// blocks, or else with its biomes.
    pub open spec fn fault(&self, names: SnapshotNames) -> Option<SnapshotError> {
        match palette_fault(names, PaletteKind::Blocks, self.met(PaletteKind::Blocks)) {
            Some(error) => Some(error),
            None => palette_fault(names, PaletteKind::Biomes, self.met(PaletteKind::Biomes)),
        }
    }
}

/// The names of ids, one behind the other.
pub open spec fn names_bytes(names: SnapshotNames, kind: PaletteKind, ids: Seq<u16>) -> Seq<u8>
    decreases ids.len(),
{
    if ids.len() == 0 {
        Seq::empty()
    } else {
        names_bytes(names, kind, ids.drop_last()) + string_bytes(names.name(kind, ids.last())->0)
    }
}

/// A palette: how many names there are, and the names.
pub open spec fn palette_bytes(names: SnapshotNames, kind: PaletteKind, ids: Seq<u16>) -> Seq<u8> {
    le32(ids.len() as int) + names_bytes(names, kind, ids)
}

/// The cells as places in a palette.
pub open spec fn placed(order: Seq<u16>, cells: Seq<u16>) -> Seq<u16> {
    Seq::new(cells.len(), |i: int| (order.index_of_first(cells[i])->0) as u16)
}

/// The first `n` sections.
pub open spec fn sections_bytes(blocks: Seq<u16>, biomes: Seq<u16>, n: int) -> Seq<u8>
    decreases n,
{
    if n <= 0 {
        Seq::empty()
    } else {
        sections_bytes(blocks, biomes, n - 1) + cells_bytes(
            blocks.subrange((n - 1) * 4096, n * 4096),
        ) + cells_bytes(biomes.subrange((n - 1) * 64, n * 64))
    }
}

/// A number that counts, or zero if it is too large to be written.
pub open spec fn counted(n: int, max: int) -> int {
    if n <= max {
        n
    } else {
        0
    }
}

/// What stands before a chunk's palettes.
pub open spec fn preamble_bytes(chunk: ChunkContents, min_y: int) -> Seq<u8> {
    le32(unsigned_of(chunk.x as int)) + le32(unsigned_of(chunk.z as int)) + seq![
        counted(chunk.status as int, u8::MAX as int) as u8,
        0u8,
        0u8,
        0u8,
    ] + le32(unsigned_of(min_y)) + le16(counted(chunk.section_count as int, u16::MAX as int))
        + le16(0)
}

/// A chunk.
pub open spec fn chunk_bytes(chunk: ChunkContents, min_y: int, names: SnapshotNames) -> Seq<u8> {
    let blocks = first_seen(chunk.met(PaletteKind::Blocks));
    let biomes = first_seen(chunk.met(PaletteKind::Biomes));
    preamble_bytes(chunk, min_y) + palette_bytes(names, PaletteKind::Blocks, blocks)
        + palette_bytes(names, PaletteKind::Biomes, biomes) + sections_bytes(
        placed(blocks, chunk.blocks@),
        placed(biomes, chunk.biomes@),
        chunk.section_count as int,
    )
}

/// The first `n` chunks.
pub open spec fn chunks_bytes(
    chunks: Seq<ChunkContents>,
    min_y: int,
    names: SnapshotNames,
    n: int,
) -> Seq<u8>
    decreases n,
{
    if n <= 0 {
        Seq::empty()
    } else {
        chunks_bytes(chunks, min_y, names, n - 1) + chunk_bytes(chunks[n - 1], min_y, names)
    }
}

/// What stands before the chunks.
pub open spec fn header_bytes(count: int) -> Seq<u8> {
    le32(SNAPSHOT_MAGIC as int) + le16(SNAPSHOT_VERSION as int) + le16(0) + le32(
        counted(count, u32::MAX as int),
    )
}

/// A snapshot.
pub open spec fn snapshot_bytes(
    chunks: Seq<ChunkContents>,
    min_y: int,
    names: SnapshotNames,
) -> Seq<u8> {
    header_bytes(chunks.len() as int) + chunks_bytes(
        chunks,
        min_y,
        names,
        chunks.len() as int,
    )
}

/// The first fault of the first `n` chunks.
pub open spec fn first_fault(chunks: Seq<ChunkContents>, names: SnapshotNames, n: int) -> Option<
    SnapshotError,
>
    decreases n,
{
    if n <= 0 {
        None
    } else {
        match first_fault(chunks, names, n - 1) {
            Some(error) => Some(error),
            None => chunks[n - 1].fault(names),
        }
    }
}

proof fn lemma_known(names: SnapshotNames, kind: PaletteKind, ids: Seq<u16>, n: int)
    requires
        0 <= n <= ids.len(),
    ensures
        palette_fault(names, kind, ids.subrange(0, n)) is Some ==> palette_fault(names, kind, ids)
            == palette_fault(names, kind, ids.subrange(0, n)),
    decreases ids.len(),
{
    if n < ids.len() {
        lemma_known(names, kind, ids.drop_last(), n);
        assert(ids.drop_last().subrange(0, n) =~= ids.subrange(0, n));
    } else {
        assert(ids.subrange(0, n) =~= ids);
    }
}

proof fn lemma_first_seen(ids: Seq<u16>)
    ensures
        first_seen(ids).no_duplicates(),
        forall|i: int| 0 <= i < ids.len() ==> first_seen(ids).contains(#[trigger] ids[i]),
        forall|i: int|
            0 <= i < first_seen(ids).len() ==> ids.contains(#[trigger] first_seen(ids)[i]),
    decreases ids.len(),
{
    if ids.len() > 0 {
        let rest = ids.drop_last();
        lemma_first_seen(rest);
        let before = first_seen(rest);
        let now = first_seen(ids);
        assert forall|i: int| 0 <= i < ids.len() implies now.contains(#[trigger] ids[i]) by {
            if i < rest.len() {
                assert(before.contains(rest[i]));
                let k = choose|k: int| 0 <= k < before.len() && before[k] == rest[i];
                assert(now[k] == ids[i]);
            } else if !before.contains(ids.last()) {
                assert(now[before.len() as int] == ids.last());
            }
        }
        assert forall|i: int| 0 <= i < now.len() implies ids.contains(#[trigger] now[i]) by {
            if i < before.len() {
                assert(rest.contains(before[i]));
                let k = choose|k: int| 0 <= k < rest.len() && rest[k] == before[i];
                assert(ids[k] == now[i]);
            } else {
                assert(ids[ids.len() - 1] == now[i]);
            }
        }
        assert(now.no_duplicates()) by {
            assert forall|i: int, j: int| 0 <= i < now.len() && 0 <= j < now.len() && i
                != j implies now[i] != now[j] by {
                if i < before.len() && j < before.len() {
                } else if i < before.len() {
                    assert(before.contains(before[i]));
                } else {
                    assert(before.contains(before[j]));
                }
            }
        }
    }
}

proof fn lemma_all_known(names: SnapshotNames, kind: PaletteKind, ids: Seq<u16>, i: int)
    requires
        palette_fault(names, kind, ids) is None,
        0 <= i < ids.len(),
    ensures
        names.name(kind, ids[i]) is Some,
    decreases ids.len(),
{
    if i < ids.len() - 1 {
        lemma_all_known(names, kind, ids.drop_last(), i);
    }
}

/// Interns ids in order, up to the first that does not fit.
fn intern_all(names: &SnapshotNames, kind: PaletteKind, ids: &Vec<u16>) -> (r: Result<
    Palette,
    SnapshotError,
>)
    ensures
        match r {
            Ok(palette) => {
                &&& palette_fault(*names, kind, ids@) is None
                &&& palette.well_formed(*names, kind)
                &&& palette.ids() == first_seen(ids@)
            },
            Err(error) => palette_fault(*names, kind, ids@) == Some(error),
        },
{
    let mut palette = Palette::new();
    let mut i: usize = 0;
    assert(ids@.subrange(0, 0) =~= Seq::<u16>::empty());
    while i < ids.len()
        invariant
            i <= ids@.len(),
            palette.well_formed(*names, kind),
            palette.ids() == first_seen(ids@.subrange(0, i as int)),
            palette_fault(*names, kind, ids@.subrange(0, i as int)) is None,
        decreases ids@.len() - i,
    {
        let ghost now = ids@.subrange(0, i + 1);
        assert(now.drop_last() =~= ids@.subrange(0, i as int));
        match palette.intern(names, kind, ids[i]) {
            Ok(_) => {},
            Err(error) => {
                proof {
                    lemma_known(*names, kind, ids@, i + 1);
                }
                return Err(error);
            },
        }
        i += 1;
    }
    assert(ids@.subrange(0, i as int) =~= ids@);
    Ok(palette)
}

/// The cells as places in their palette.
fn place_all(
    palette: &Palette,
    cells: &Vec<u16>,
    Ghost(names): Ghost<SnapshotNames>,
    Ghost(kind): Ghost<PaletteKind>,
) -> (r: Vec<u16>)
    requires
        palette.well_formed(names, kind),
        forall|i: int| 0 <= i < cells@.len() ==> palette.ids().contains(#[trigger] cells@[i]),
    ensures
        r@ == placed(palette.ids(), cells@),
{
    let mut r: Vec<u16> = Vec::new();
    let mut i: usize = 0;
    while i < cells.len()
        invariant
            i <= cells@.len(),
            palette.well_formed(names, kind),
            forall|i: int| 0 <= i < cells@.len() ==> palette.ids().contains(#[trigger] cells@[i]),
            r@.len() == i,
            forall|k: int| 0 <= k < i ==> #[trigger] r@[k] == placed(palette.ids(), cells@)[k],
        decreases cells@.len() - i,
    {
        assert(palette.ids().contains(cells@[i as int]));
        let at: u16 = palette.place(cells[i], Ghost(names), Ghost(kind)).unwrap();
        proof {
            let order = palette.ids();
            order.index_of_first_ensures(cells@[i as int]);
            let k = order.index_of_first(cells@[i as int])->0;
            assert(order[k] == order[at as int]);
            assert(order.no_duplicates());
            assert(k == at);
        }
        r.push(at);
        i += 1;
    }
    assert(r@ =~= placed(palette.ids(), cells@));
    r
}

/// Appends a palette.
fn put_palette(
    out: &mut Vec<u8>,
    palette: &Palette,
    Ghost(names): Ghost<SnapshotNames>,
    Ghost(kind): Ghost<PaletteKind>,
)
    requires
        palette.well_formed(names, kind),
    ensures
        final(out)@ == old(out)@ + palette_bytes(names, kind, palette.ids()),
{
    let ghost order = palette.ids();
    put_u32(out, palette.entries.len() as u32);
    let ghost before = out@;
    let mut i: usize = 0;
    assert(order.subrange(0, 0) =~= Seq::<u16>::empty());
    assert(before + names_bytes(names, kind, order.subrange(0, 0)) =~= before);
    while i < palette.entries.len()
        invariant
            i <= palette.entries@.len(),
            palette.well_formed(names, kind),
            order == palette.ids(),
            out@ == before + names_bytes(names, kind, order.subrange(0, i as int)),
        decreases palette.entries@.len() - i,
    {
        let ghost now = order.subrange(0, i + 1);
        assert(now.drop_last() =~= order.subrange(0, i as int));
        assert(now.last() == palette.order@[i as int]);
        put_string(out, palette.entries[i].as_str());
        i += 1;
        assert(out@ =~= before + names_bytes(names, kind, order.subrange(0, i as int)));
    }
    assert(order.subrange(0, i as int) =~= order);
    assert(out@ =~= old(out)@ + palette_bytes(names, kind, order));
}

proof fn lemma_palette_len(ids: Seq<u16>)
    requires
        ids.no_duplicates(),
    ensures
        ids.len() <= 0x1_0000,
{
    if ids.len() > 0 {
        let rest = ids.drop_last();
        assert(!rest.contains(ids.last())) by {
            if rest.contains(ids.last()) {
                let k = choose|k: int| 0 <= k < rest.len() && rest[k] == ids.last();
                assert(ids[k] == ids[ids.len() - 1]);
            }
        }
        assert(rest.no_duplicates());
        lemma_few_ids(rest, ids.last());
    }
}

/// The blocks in the order in which columns are read.
fn read_columns(blocks: &Vec<u16>, tall: usize) -> (r: Vec<u16>)
    requires
        blocks@.len() == 256 * tall,
    ensures
        r@ == column_order(blocks@, tall as int),
{
    let mut r: Vec<u16> = Vec::new();
    let count: usize = blocks.len();
    let mut s: usize = 0;
    while s < count
        invariant
            s <= count,
            count == blocks@.len(),
            blocks@.len() == 256 * tall,
            r@.len() == s,
            forall|k: int|
                0 <= k < s ==> #[trigger] r@[k] == blocks@[column_place(k, tall as int)],
        decreases count - s,
    {
        proof {
            lemma_column_place(s as int, tall as int);
        }
        r.push(blocks[s % tall * 256 + s / tall % 16 * 16 + s / tall / 16]);
        s += 1;
    }
    assert(r@ =~= column_order(blocks@, tall as int));
    r
}

/// Appends what stands before a chunk's palettes.
fn put_preamble(out: &mut Vec<u8>, chunk: &ChunkContents, min_y: i32)
    ensures
        final(out)@ == old(out)@ + preamble_bytes(*chunk, min_y as int),
{
    put_i32(out, chunk.x);
    put_i32(out, chunk.z);
    out.push(
        if chunk.status <= u8::MAX as usize {
            chunk.status as u8
        } else {
            0
        },
    );
    out.push(0);
    out.push(0);
    out.push(0);
    put_i32(out, min_y);
    put_u16(
        out,
        if chunk.section_count <= u16::MAX as usize {
            chunk.section_count as u16
        } else {
            0
        },
    );
    put_u16(out, 0);
    assert(out@ =~= old(out)@ + preamble_bytes(*chunk, min_y as int));
}

/// Appends the cells of the sections.
fn put_sections(out: &mut Vec<u8>, blocks: &Vec<u16>, biomes: &Vec<u16>, section_count: usize)
    requires
        blocks@.len() == section_count * SECTION_VOLUME,
        biomes@.len() == section_count * BIOME_CELLS,
    ensures
        final(out)@ == old(out)@ + sections_bytes(blocks@, biomes@, section_count as int),
{
    assert(blocks.len() == blocks@.len());
    let ghost before = out@;
    let mut section: usize = 0;
    assert(before + sections_bytes(blocks@, biomes@, 0) =~= before);
    while section < section_count
        invariant
            section <= section_count,
            blocks@.len() == section_count * SECTION_VOLUME,
            biomes@.len() == section_count * BIOME_CELLS,
            blocks@.len() <= usize::MAX,
            out@ == before + sections_bytes(blocks@, biomes@, section as int),
        decreases section_count - section,
    {
        let start: usize = section * SECTION_VOLUME;
        put_cells(out, blocks, start, start + SECTION_VOLUME);
        let biome_start: usize = section * BIOME_CELLS;
        put_cells(out, biomes, biome_start, biome_start + BIOME_CELLS);
        section += 1;
        assert(out@ =~= before + sections_bytes(blocks@, biomes@, section as int));
    }
}

/// Encodes one chunk into `out`.
///
/// Cells are written in the host's natural order, `y * 256 + z * 16 + x` for
/// blocks and `y * 16 + z * 4 + x` for biomes, so the host can index directly.
pub fn encode_chunk(out: &mut Vec<u8>, chunk: &ChunkContents, min_y: i32, names: &SnapshotNames) -> (r:
    Result<(), SnapshotError>)
    requires
        chunk.well_formed(),
    ensures
        match r {
            Ok(_) => chunk.fault(*names) is None && final(out)@ == old(out)@ + chunk_bytes(
                *chunk,
                min_y as int,
                *names,
            ),
            Err(error) => chunk.fault(*names) == Some(error) && final(out)@ == old(out)@,
        },
{
    assert(chunk.blocks.len() == chunk.blocks@.len());
    let tall: usize = chunk.section_count * 16;
    let columns = read_columns(&chunk.blocks, tall);
    let blocks = match intern_all(names, PaletteKind::Blocks, &columns) {
        Ok(palette) => palette,
        Err(error) => {
            return Err(error);
        },
    };
    let biomes = match intern_all(names, PaletteKind::Biomes, &chunk.biomes) {
        Ok(palette) => palette,
        Err(error) => {
            return Err(error);
        },
    };
    proof {
        lemma_first_seen(columns@);
        lemma_first_seen(chunk.biomes@);
        assert forall|p: int| 0 <= p < chunk.blocks@.len() implies blocks.ids().contains(
            #[trigger] chunk.blocks@[p],
        ) by {
            lemma_column_covers(p, tall as int);
            let s = choose|s: int|
                0 <= s < 256 * tall && #[trigger] column_place(s, tall as int) == p;
            assert(columns@[s] == chunk.blocks@[p]);
        }
    }
    let block_cells = place_all(
        &blocks,
        &chunk.blocks,
        Ghost(*names),
        Ghost(PaletteKind::Blocks),
    );
    let biome_cells = place_all(
        &biomes,
        &chunk.biomes,
        Ghost(*names),
        Ghost(PaletteKind::Biomes),
    );
    put_preamble(out, chunk, min_y);
    put_palette(out, &blocks, Ghost(*names), Ghost(PaletteKind::Blocks));
    put_palette(out, &biomes, Ghost(*names), Ghost(PaletteKind::Biomes));
    put_sections(out, &block_cells, &biome_cells, chunk.section_count);
    assert(out@ =~= old(out)@ + chunk_bytes(*chunk, min_y as int, *names));
    Ok(())
}

/// Encodes `chunks` into a single snapshot buffer, or says which of their
/// blocks and biomes has no name.
pub fn encode(chunks: &Vec<ChunkContents>, min_y: i32, names: &SnapshotNames) -> (r: Result<
    Vec<u8>,
    SnapshotError,
>)
    requires
        forall|i: int| 0 <= i < chunks@.len() ==> (#[trigger] chunks@[i]).well_formed(),
    ensures
        match r {
            Ok(bytes) => first_fault(chunks@, *names, chunks@.len() as int) is None && bytes@
                == snapshot_bytes(chunks@, min_y as int, *names),
            Err(error) => first_fault(chunks@, *names, chunks@.len() as int) == Some(error),
        },
{
    let mut out: Vec<u8> = Vec::new();
    put_u32(&mut out, SNAPSHOT_MAGIC);
    put_u16(&mut out, SNAPSHOT_VERSION);
    put_u16(&mut out, 0);
    put_u32(
        &mut out,
        if chunks.len() as u64 <= u32::MAX as u64 {
            chunks.len() as u32
        } else {
            0
        },
    );
    assert(out@ =~= header_bytes(chunks@.len() as int));
    let ghost before = out@;
    let mut i: usize = 0;
    assert(before + chunks_bytes(chunks@, min_y as int, *names, 0) =~= before);
    while i < chunks.len()
        invariant
            i <= chunks@.len(),
            forall|i: int| 0 <= i < chunks@.len() ==> (#[trigger] chunks@[i]).well_formed(),
            first_fault(chunks@, *names, i as int) is None,
            out@ == before + chunks_bytes(chunks@, min_y as int, *names, i as int),
        decreases chunks@.len() - i,
    {
        match encode_chunk(&mut out, &chunks[i], min_y, names) {
            Ok(_) => {},
            Err(error) => {
                proof {
                    lemma_fault_stays(chunks@, *names, i + 1, chunks@.len() as int);
                }
                return Err(error);
            },
        }
        i += 1;
        assert(out@ =~= before + chunks_bytes(chunks@, min_y as int, *names, i as int));
    }
    Ok(out)
}

proof fn lemma_fault_stays(chunks: Seq<ChunkContents>, names: SnapshotNames, n: int, m: int)
    requires
        0 <= n <= m,
        first_fault(chunks, names, n) is Some,
    ensures
        first_fault(chunks, names, m) == first_fault(chunks, names, n),
    decreases m,
{
    if n < m {
        lemma_fault_stays(chunks, names, n, m - 1);
    }
}

/// No palette outgrows its count: there are only so many ids.
pub proof fn palettes_are_small(ids: Seq<u16>)
    ensures
        first_seen(ids).len() <= 0x1_0000,
{
    lemma_first_seen(ids);
    lemma_palette_len(first_seen(ids));
}

/// The place of a cell's id in its palette holds that id, and the id has a
/// name.
pub proof fn a_cell_is_placed_at_its_id(
    chunk: ChunkContents,
    names: SnapshotNames,
    kind: PaletteKind,
    cell: int,
)
    requires
        chunk.well_formed(),
        chunk.fault(names) is None,
        0 <= cell < chunk.cells(kind).len(),
    ensures
        ({
            let order = first_seen(chunk.met(kind));
            let at = placed(order, chunk.cells(kind))[cell];
            &&& at < order.len()
            &&& order[at as int] == chunk.cells(kind)[cell]
            &&& names.name(kind, chunk.cells(kind)[cell]) is Some
        }),
{
    let ids = chunk.met(kind);
    let order = first_seen(ids);
    let id = chunk.cells(kind)[cell];
    lemma_first_seen(ids);
    palettes_are_small(ids);
    let i = match kind {
        PaletteKind::Blocks => {
            lemma_column_covers(cell, chunk.tall());
            let s = choose|s: int|
                0 <= s < 256 * chunk.tall() && #[trigger] column_place(s, chunk.tall()) == cell;
            s
        },
        PaletteKind::Biomes => cell,
    };
    assert(ids[i] == id);
    lemma_all_known(names, kind, ids, i);
    assert(order.contains(id));
    order.index_of_first_ensures(id);
}

} // verus!
