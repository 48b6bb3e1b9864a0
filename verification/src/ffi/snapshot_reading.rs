//! What a snapshot says: how its bytes are read, and that reading gives back
//! what was written.

use vstd::prelude::*;

use crate::ffi::snapshot;
use crate::ffi::snapshot::{ChunkContents, PaletteKind, SnapshotNames};

verus! {

/// A number of two bytes at the front, and what follows it.
pub open spec fn read16(s: Seq<u8>) -> (int, Seq<u8>) {
    (s[0] + s[1] * 256, s.subrange(2, s.len() as int))
}

/// A number of four bytes at the front, and what follows it.
pub open spec fn read32(s: Seq<u8>) -> (int, Seq<u8>) {
    let low = read16(s);
    let high = read16(low.1);
    (low.0 + high.0 * 65536, high.1)
}

/// The signed number with the bits of an unsigned one.
pub open spec fn signed_of(v: int) -> int {
    if v < 0x8000_0000 {
        v
    } else {
        v - 0x1_0000_0000
    }
}

/// The bytes of a text at the front, and what follows it.
pub open spec fn read_text(s: Seq<u8>) -> (Seq<u8>, Seq<u8>) {
    let length = read16(s);
    (
        length.1.subrange(0, length.0),
        length.1.subrange(length.0, length.1.len() as int),
    )
}

/// Some texts at the front, and what follows them.
pub open spec fn read_texts(s: Seq<u8>, n: int) -> (Seq<Seq<u8>>, Seq<u8>)
    decreases n,
{
    if n <= 0 {
        (Seq::empty(), s)
    } else {
        let before = read_texts(s, n - 1);
        let next = read_text(before.1);
        (before.0.push(next.0), next.1)
    }
}

/// A palette at the front, and what follows it.
pub open spec fn read_palette(s: Seq<u8>) -> (Seq<Seq<u8>>, Seq<u8>) {
    let count = read32(s);
    read_texts(count.1, count.0)
}

/// Some numbers of two bytes at the front, and what follows them.
pub open spec fn read_numbers(s: Seq<u8>, n: int) -> (Seq<int>, Seq<u8>)
    decreases n,
{
    if n <= 0 {
        (Seq::empty(), s)
    } else {
        let before = read_numbers(s, n - 1);
        let next = read16(before.1);
        (before.0.push(next.0), next.1)
    }
}

/// A cell array at the front, and what follows it.
pub open spec fn read_cells(s: Seq<u8>, n: int) -> (Seq<int>, Seq<u8>) {
    let rest = s.subrange(1, s.len() as int);
    if s[0] == snapshot::KIND_UNIFORM {
        let value = read16(rest);
        (Seq::new(n as nat, |i: int| value.0), value.1)
    } else {
        read_numbers(rest, n)
    }
}

/// Some sections at the front, and what follows them.
pub open spec fn read_sections(s: Seq<u8>, n: int) -> (Seq<(Seq<int>, Seq<int>)>, Seq<u8>)
    decreases n,
{
    if n <= 0 {
        (Seq::empty(), s)
    } else {
        let before = read_sections(s, n - 1);
        let blocks = read_cells(before.1, 4096);
        let biomes = read_cells(blocks.1, 64);
        (before.0.push((blocks.0, biomes.0)), biomes.1)
    }
}

/// A chunk as read.
#[verifier::ext_equal]
pub struct ReadChunk {
    pub x: int,
    pub z: int,
    pub status: int,
    pub min_y: int,
    pub blocks: Seq<Seq<u8>>,
    pub biomes: Seq<Seq<u8>>,
    pub sections: Seq<(Seq<int>, Seq<int>)>,
}

/// A chunk at the front, and what follows it.
pub open spec fn read_chunk(s: Seq<u8>) -> (ReadChunk, Seq<u8>) {
    let x = read32(s);
    let z = read32(x.1);
    let status = z.1[0] as int;
    let min_y = read32(z.1.subrange(4, z.1.len() as int));
    let count = read16(min_y.1);
    let reserved = read16(count.1);
    let blocks = read_palette(reserved.1);
    let biomes = read_palette(blocks.1);
    let sections = read_sections(biomes.1, count.0);
    (
        ReadChunk {
            x: signed_of(x.0),
            z: signed_of(z.0),
            status,
            min_y: signed_of(min_y.0),
            blocks: blocks.0,
            biomes: biomes.0,
            sections: sections.0,
        },
        sections.1,
    )
}

/// Some chunks at the front, and what follows them.
pub open spec fn read_chunks(s: Seq<u8>, n: int) -> (Seq<ReadChunk>, Seq<u8>)
    decreases n,
{
    if n <= 0 {
        (Seq::empty(), s)
    } else {
        let before = read_chunks(s, n - 1);
        let next = read_chunk(before.1);
        (before.0.push(next.0), next.1)
    }
}

/// The chunks of a snapshot, and what follows them, behind a header of the
/// right magic and version.
pub open spec fn read_snapshot(s: Seq<u8>) -> Option<(Seq<ReadChunk>, Seq<u8>)> {
    let magic = read32(s);
    let version = read16(magic.1);
    let reserved = read16(version.1);
    let count = read32(reserved.1);
    if magic.0 == snapshot::SNAPSHOT_MAGIC && version.0 == snapshot::SNAPSHOT_VERSION {
        Some(read_chunks(count.1, count.0))
    } else {
        None
    }
}

proof fn lemma16(v: int, rest: Seq<u8>)
    requires
        0 <= v < 65536,
    ensures
        read16(snapshot::le16(v) + rest) == (v, rest),
{
    let s = snapshot::le16(v) + rest;
    assert(s.subrange(2, s.len() as int) =~= rest);
}

proof fn lemma32(v: int, rest: Seq<u8>)
    requires
        0 <= v < 0x1_0000_0000,
    ensures
        read32(snapshot::le32(v) + rest) == (v, rest),
{
    let low = snapshot::le16(v % 65536);
    let high = snapshot::le16(v / 65536);
    assert(snapshot::le32(v) + rest =~= low + (high + rest));
    lemma16(v % 65536, high + rest);
    lemma16(v / 65536, rest);
}

proof fn lemma_text(value: Seq<char>, rest: Seq<u8>)
    ensures
        read_text(snapshot::string_bytes(value) + rest) == (snapshot::text_bytes(value), rest),
{
    let bytes = snapshot::text_bytes(value);
    let n = bytes.len() as int;
    assert(snapshot::string_bytes(value) + rest =~= snapshot::le16(n) + (bytes + rest));
    lemma16(n, bytes + rest);
    assert((bytes + rest).subrange(0, n) =~= bytes);
    assert((bytes + rest).subrange(n, (bytes + rest).len() as int) =~= rest);
}

/// The texts of a palette as they are read.
pub open spec fn palette_texts(names: SnapshotNames, kind: PaletteKind, ids: Seq<u16>) -> Seq<
    Seq<u8>,
> {
    Seq::new(ids.len(), |i: int| snapshot::text_bytes(names.name(kind, ids[i])->0))
}

proof fn lemma_texts(names: SnapshotNames, kind: PaletteKind, ids: Seq<u16>, rest: Seq<u8>)
    ensures
        read_texts(snapshot::names_bytes(names, kind, ids) + rest, ids.len() as int) == (
            palette_texts(names, kind, ids),
            rest,
        ),
    decreases ids.len(),
{
    if ids.len() == 0 {
        assert(snapshot::names_bytes(names, kind, ids) + rest =~= rest);
        assert(palette_texts(names, kind, ids) =~= Seq::<Seq<u8>>::empty());
    } else {
        let fewer = ids.drop_last();
        let last = names.name(kind, ids.last())->0;
        let tail = snapshot::string_bytes(last) + rest;
        lemma_texts(names, kind, fewer, tail);
        lemma_text(last, rest);
        assert(snapshot::names_bytes(names, kind, ids) + rest =~= snapshot::names_bytes(
            names,
            kind,
            fewer,
        ) + tail);
        assert(palette_texts(names, kind, ids) =~= palette_texts(names, kind, fewer).push(
            snapshot::text_bytes(last),
        ));
    }
}

proof fn lemma_palette(names: SnapshotNames, kind: PaletteKind, ids: Seq<u16>, rest: Seq<u8>)
    requires
        ids.len() < 0x1_0000_0000,
    ensures
        read_palette(snapshot::palette_bytes(names, kind, ids) + rest) == (
            palette_texts(names, kind, ids),
            rest,
        ),
{
    let tail = snapshot::names_bytes(names, kind, ids) + rest;
    assert(snapshot::palette_bytes(names, kind, ids) + rest =~= snapshot::le32(ids.len() as int)
        + tail);
    lemma32(ids.len() as int, tail);
    lemma_texts(names, kind, ids, rest);
}

/// Cells as numbers.
pub open spec fn cell_numbers(cells: Seq<u16>) -> Seq<int> {
    Seq::new(cells.len(), |i: int| cells[i] as int)
}

proof fn lemma_numbers(cells: Seq<u16>, rest: Seq<u8>)
    ensures
        read_numbers(snapshot::numbers_bytes(cells) + rest, cells.len() as int) == (
            cell_numbers(cells),
            rest,
        ),
    decreases cells.len(),
{
    if cells.len() == 0 {
        assert(snapshot::numbers_bytes(cells) + rest =~= rest);
        assert(cell_numbers(cells) =~= Seq::<int>::empty());
    } else {
        let fewer = cells.drop_last();
        let tail = snapshot::le16(cells.last() as int) + rest;
        lemma_numbers(fewer, tail);
        lemma16(cells.last() as int, rest);
        assert(snapshot::numbers_bytes(cells) + rest =~= snapshot::numbers_bytes(fewer) + tail);
        assert(cell_numbers(cells) =~= cell_numbers(fewer).push(cells.last() as int));
    }
}

proof fn lemma_cells(cells: Seq<u16>, rest: Seq<u8>)
    ensures
        read_cells(snapshot::cells_bytes(cells) + rest, cells.len() as int) == (
            cell_numbers(cells),
            rest,
        ),
{
    let s = snapshot::cells_bytes(cells) + rest;
    if snapshot::is_uniform(cells) {
        let tail = snapshot::le16(cells[0] as int) + rest;
        assert(s.subrange(1, s.len() as int) =~= tail);
        lemma16(cells[0] as int, rest);
        assert(cell_numbers(cells) =~= Seq::new(cells.len(), |i: int| cells[0] as int));
    } else {
        let tail = snapshot::numbers_bytes(cells) + rest;
        assert(s.subrange(1, s.len() as int) =~= tail);
        lemma_numbers(cells, rest);
    }
}

/// The cells of a chunk's sections as they are read.
pub open spec fn section_numbers(blocks: Seq<u16>, biomes: Seq<u16>, n: int) -> Seq<
    (Seq<int>, Seq<int>),
> {
    Seq::new(
        n as nat,
        |i: int|
            (
                cell_numbers(blocks.subrange(i * 4096, (i + 1) * 4096)),
                cell_numbers(biomes.subrange(i * 64, (i + 1) * 64)),
            ),
    )
}

proof fn lemma_sections(blocks: Seq<u16>, biomes: Seq<u16>, n: int, rest: Seq<u8>)
    requires
        0 <= n,
        n * 4096 <= blocks.len(),
        n * 64 <= biomes.len(),
    ensures
        read_sections(snapshot::sections_bytes(blocks, biomes, n) + rest, n) == (
            section_numbers(blocks, biomes, n),
            rest,
        ),
    decreases n,
{
    if n == 0 {
        assert(snapshot::sections_bytes(blocks, biomes, n) + rest =~= rest);
        assert(section_numbers(blocks, biomes, n) =~= Seq::<(Seq<int>, Seq<int>)>::empty());
    } else {
        let some_blocks = blocks.subrange((n - 1) * 4096, n * 4096);
        let some_biomes = biomes.subrange((n - 1) * 64, n * 64);
        let last = snapshot::cells_bytes(some_biomes) + rest;
        let tail = snapshot::cells_bytes(some_blocks) + last;
        lemma_sections(blocks, biomes, n - 1, tail);
        lemma_cells(some_blocks, last);
        lemma_cells(some_biomes, rest);
        assert(snapshot::sections_bytes(blocks, biomes, n) + rest =~= snapshot::sections_bytes(
            blocks,
            biomes,
            n - 1,
        ) + tail);
        assert(section_numbers(blocks, biomes, n) =~= section_numbers(blocks, biomes, n - 1).push(
            (cell_numbers(some_blocks), cell_numbers(some_biomes)),
        ));
    }
}

/// A chunk as it is read.
pub open spec fn written(chunk: ChunkContents, min_y: int, names: SnapshotNames) -> ReadChunk {
    let blocks = snapshot::first_seen(chunk.met(PaletteKind::Blocks));
    let biomes = snapshot::first_seen(chunk.met(PaletteKind::Biomes));
    ReadChunk {
        x: chunk.x as int,
        z: chunk.z as int,
        status: snapshot::counted(chunk.status as int, u8::MAX as int),
        min_y,
        blocks: palette_texts(names, PaletteKind::Blocks, blocks),
        biomes: palette_texts(names, PaletteKind::Biomes, biomes),
        sections: section_numbers(
            snapshot::placed(blocks, chunk.blocks@),
            snapshot::placed(biomes, chunk.biomes@),
            chunk.section_count as int,
        ),
    }
}

proof fn lemma_regroup(a: Seq<u8>, b: Seq<u8>, c: Seq<u8>)
    ensures
        (a + b) + c == a + (b + c),
{
    assert((a + b) + c =~= a + (b + c));
}

#[verifier::rlimit(50)]
proof fn lemma_chunk(chunk: ChunkContents, min_y: i32, names: SnapshotNames, rest: Seq<u8>)
    requires
        chunk.well_formed(),
        chunk.section_count <= u16::MAX,
    ensures
        read_chunk(snapshot::chunk_bytes(chunk, min_y as int, names) + rest) == (
            written(chunk, min_y as int, names),
            rest,
        ),
{
    let blocks = snapshot::first_seen(chunk.met(PaletteKind::Blocks));
    let biomes = snapshot::first_seen(chunk.met(PaletteKind::Biomes));
    let count = chunk.section_count as int;
    snapshot::palettes_are_small(chunk.met(PaletteKind::Blocks));
    snapshot::palettes_are_small(chunk.met(PaletteKind::Biomes));
    let s7 = snapshot::sections_bytes(
        snapshot::placed(blocks, chunk.blocks@),
        snapshot::placed(biomes, chunk.biomes@),
        count,
    ) + rest;
    let s6 = snapshot::palette_bytes(names, PaletteKind::Biomes, biomes) + s7;
    let s5 = snapshot::palette_bytes(names, PaletteKind::Blocks, blocks) + s6;
    let s4 = snapshot::le16(0) + s5;
    let s3 = snapshot::le16(count) + s4;
    let s2 = snapshot::le32(snapshot::unsigned_of(min_y as int)) + s3;
    let flags = seq![
        snapshot::counted(chunk.status as int, u8::MAX as int) as u8,
        0u8,
        0u8,
        0u8,
    ];
    let s1 = flags + s2;
    let s0 = snapshot::le32(snapshot::unsigned_of(chunk.z as int)) + s1;
    let whole = snapshot::chunk_bytes(chunk, min_y as int, names) + rest;
    assert(whole == snapshot::le32(snapshot::unsigned_of(chunk.x as int)) + s0) by {
        let x = snapshot::le32(snapshot::unsigned_of(chunk.x as int));
        let z = snapshot::le32(snapshot::unsigned_of(chunk.z as int));
        let y = snapshot::le32(snapshot::unsigned_of(min_y as int));
        let n = snapshot::le16(count);
        let o = snapshot::le16(0);
        let p = snapshot::palette_bytes(names, PaletteKind::Blocks, blocks);
        let q = snapshot::palette_bytes(names, PaletteKind::Biomes, biomes);
        let c = snapshot::sections_bytes(
            snapshot::placed(blocks, chunk.blocks@),
            snapshot::placed(biomes, chunk.biomes@),
            count,
        );
        lemma_regroup(x + z + flags + y + n + o + p + q, c, rest);
        lemma_regroup(x + z + flags + y + n + o + p, q, s7);
        lemma_regroup(x + z + flags + y + n + o, p, s6);
        lemma_regroup(x + z + flags + y + n, o, s5);
        lemma_regroup(x + z + flags + y, n, s4);
        lemma_regroup(x + z + flags, y, s3);
        lemma_regroup(x + z, flags, s2);
        lemma_regroup(x, z, s1);
        assert(snapshot::preamble_bytes(chunk, min_y as int) == x + z + flags + y + n + o);
    }
    lemma32(snapshot::unsigned_of(chunk.x as int), s0);
    lemma32(snapshot::unsigned_of(chunk.z as int), s1);
    assert(s1.subrange(4, s1.len() as int) =~= s2);
    assert(s1[0] == flags[0]);
    lemma32(snapshot::unsigned_of(min_y as int), s3);
    lemma16(count, s4);
    lemma16(0, s5);
    lemma_palette(names, PaletteKind::Blocks, blocks, s6);
    lemma_palette(names, PaletteKind::Biomes, biomes, s7);
    lemma_sections(
        snapshot::placed(blocks, chunk.blocks@),
        snapshot::placed(biomes, chunk.biomes@),
        count,
        rest,
    );
}

proof fn lemma_chunks(
    chunks: Seq<ChunkContents>,
    min_y: i32,
    names: SnapshotNames,
    n: int,
    rest: Seq<u8>,
)
    requires
        0 <= n <= chunks.len(),
        forall|i: int|
            0 <= i < chunks.len() ==> (#[trigger] chunks[i]).well_formed()
                && chunks[i].section_count <= u16::MAX,
    ensures
        read_chunks(snapshot::chunks_bytes(chunks, min_y as int, names, n) + rest, n) == (
            Seq::new(n as nat, |i: int| written(chunks[i], min_y as int, names)),
            rest,
        ),
    decreases n,
{
    let all = Seq::new(n as nat, |i: int| written(chunks[i], min_y as int, names));
    if n == 0 {
        assert(snapshot::chunks_bytes(chunks, min_y as int, names, n) + rest =~= rest);
        assert(all =~= Seq::<ReadChunk>::empty());
    } else {
        let last = chunks[n - 1];
        let tail = snapshot::chunk_bytes(last, min_y as int, names) + rest;
        lemma_chunks(chunks, min_y, names, n - 1, tail);
        lemma_chunk(last, min_y, names, rest);
        assert(snapshot::chunks_bytes(chunks, min_y as int, names, n) + rest
            =~= snapshot::chunks_bytes(chunks, min_y as int, names, n - 1) + tail);
        assert(all =~= Seq::new(
            (n - 1) as nat,
            |i: int| written(chunks[i], min_y as int, names),
        ).push(written(last, min_y as int, names)));
    }
}

/// A snapshot reads back: its chunks come in the order in which they were
/// given, each with its place, status and height, and nothing follows them.
pub proof fn a_snapshot_reads_back(
    chunks: Seq<ChunkContents>,
    min_y: i32,
    names: SnapshotNames,
)
    requires
        chunks.len() <= u32::MAX,
        forall|i: int|
            0 <= i < chunks.len() ==> (#[trigger] chunks[i]).well_formed()
                && chunks[i].section_count <= u16::MAX,
    ensures
        read_snapshot(snapshot::snapshot_bytes(chunks, min_y as int, names)) == Some(
            (
                Seq::new(chunks.len(), |i: int| written(chunks[i], min_y as int, names)),
                Seq::<u8>::empty(),
            ),
        ),
{
    let n = chunks.len() as int;
    let none = Seq::<u8>::empty();
    let body = snapshot::chunks_bytes(chunks, min_y as int, names, n);
    let s2 = snapshot::le32(n) + body;
    let s1 = snapshot::le16(0) + s2;
    let s0 = snapshot::le16(snapshot::SNAPSHOT_VERSION as int) + s1;
    let whole = snapshot::snapshot_bytes(chunks, min_y as int, names);
    assert(whole =~= snapshot::le32(snapshot::SNAPSHOT_MAGIC as int) + s0);
    lemma32(snapshot::SNAPSHOT_MAGIC as int, s0);
    lemma16(snapshot::SNAPSHOT_VERSION as int, s1);
    lemma16(0, s2);
    lemma32(n, body);
    assert(body =~= body + none);
    lemma_chunks(chunks, min_y, names, n, none);
}

/// Every cell of a chunk reads back as the name of what was there: a block's
/// index leads to the block's name in the palette, a biome's to the biome's.
pub proof fn every_cell_reads_back_as_its_name(
    chunk: ChunkContents,
    min_y: int,
    names: SnapshotNames,
    section: int,
    block: int,
    biome: int,
)
    requires
        chunk.well_formed(),
        chunk.fault(names) is None,
        0 <= section < chunk.section_count,
        0 <= block < 4096,
        0 <= biome < 64,
    ensures
        ({
            let read = written(chunk, min_y, names);
            let at = read.sections[section].0[block];
            let name = names.name(PaletteKind::Blocks, chunk.blocks@[section * 4096 + block]);
            &&& 0 <= at < read.blocks.len()
            &&& name is Some
            &&& read.blocks[at] == snapshot::text_bytes(name->0)
        }),
        ({
            let read = written(chunk, min_y, names);
            let at = read.sections[section].1[biome];
            let name = names.name(PaletteKind::Biomes, chunk.biomes@[section * 64 + biome]);
            &&& 0 <= at < read.biomes.len()
            &&& name is Some
            &&& read.biomes[at] == snapshot::text_bytes(name->0)
        }),
{
    snapshot::a_cell_is_placed_at_its_id(
        chunk,
        names,
        PaletteKind::Blocks,
        section * 4096 + block,
    );
    snapshot::a_cell_is_placed_at_its_id(chunk, names, PaletteKind::Biomes, section * 64 + biome);
}

} // verus!
