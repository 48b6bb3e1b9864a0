//! What a host can rely on: the bytes of a snapshot, the region of a batch and
//! the codes of refusals.

use crate::ffi::abi;
use crate::ffi::abi::BatchRequest;
use crate::ffi::engine;
use crate::ffi::engine::Region;
use crate::ffi::handle::HandleTable;
use crate::ffi::resident;
use crate::ffi::snapshot;
use crate::ffi::snapshot::{BlockName, ChunkContents, PaletteKind, SnapshotError, SnapshotNames};
use crate::ffi::status;
use crate::ffi::status::{LastError, Status};
use crate::pos::ChunkPos;
use vstd::prelude::*;

verus! {

/// Two bytes of a number, the lower one first.
pub open spec fn two_bytes(s: Seq<u8>, at: int, v: int) -> bool {
    s[at] + 256 * s[at + 1] == v
}

/// Four bytes of a number, the lowest one first.
pub open spec fn four_bytes(s: Seq<u8>, at: int, v: int) -> bool {
    s[at] + 256 * s[at + 1] + 65536 * s[at + 2] + 16777216 * s[at + 3] == v
}

/// Numbers are written with their lowest byte first, negative ones as what
/// they are below the next power of two.
pub proof fn numbers_start_with_their_lowest_byte(short: int, long: int, signed: int)
    requires
        0 <= short < 65536,
        0 <= long < 0x1_0000_0000,
        i32::MIN <= signed <= i32::MAX,
    ensures
        snapshot::le16(short).len() == 2,
        two_bytes(snapshot::le16(short), 0, short),
        snapshot::le32(long).len() == 4,
        four_bytes(snapshot::le32(long), 0, long),
        0 <= snapshot::unsigned_of(signed) < 0x1_0000_0000,
        signed >= 0 ==> snapshot::unsigned_of(signed) == signed,
        signed < 0 ==> snapshot::unsigned_of(signed) - signed == 0x1_0000_0000,
{
    let low = long % 65536;
    let high = long / 65536;
    assert(snapshot::le32(long)[0] == low % 256);
    assert(snapshot::le32(long)[1] == low / 256 % 256);
    assert(snapshot::le32(long)[2] == high % 256);
    assert(snapshot::le32(long)[3] == high / 256 % 256);
}

/// A snapshot starts with its four magic bytes, its version and the number of
/// its chunks, with two bytes of zero between the last two.
pub proof fn a_snapshot_starts_with_its_header(
    chunks: Seq<ChunkContents>,
    min_y: int,
    names: SnapshotNames,
)
    requires
        chunks.len() <= u32::MAX,
    ensures
        ({
            let bytes = snapshot::snapshot_bytes(chunks, min_y, names);
            &&& bytes.len() >= 12
            &&& bytes[0] == 0x53 && bytes[1] == 0x57 && bytes[2] == 0x47 && bytes[3] == 0x53
            &&& two_bytes(bytes, 4, 1)
            &&& two_bytes(bytes, 6, 0)
            &&& four_bytes(bytes, 8, chunks.len() as int)
            &&& chunks.len() == 0 ==> bytes.len() == 12
        }),
{
    let count = chunks.len() as int;
    numbers_start_with_their_lowest_byte(
        snapshot::SNAPSHOT_VERSION as int,
        snapshot::SNAPSHOT_MAGIC as int,
        0,
    );
    numbers_start_with_their_lowest_byte(0, count, 0);
    let magic = snapshot::le32(snapshot::SNAPSHOT_MAGIC as int);
    let version = snapshot::le16(snapshot::SNAPSHOT_VERSION as int);
    let zero = snapshot::le16(0);
    let number = snapshot::le32(count);
    let header = magic + version + zero + number;
    assert(header == snapshot::header_bytes(count));
    let bytes = snapshot::snapshot_bytes(chunks, min_y, names);
    assert(forall|i: int| 0 <= i < 4 ==> #[trigger] bytes[i] == magic[i]);
    assert(bytes[4] == version[0] && bytes[5] == version[1]);
    assert(bytes[6] == zero[0] && bytes[7] == zero[1]);
    assert(bytes[8] == number[0] && bytes[9] == number[1] && bytes[10] == number[2] && bytes[11]
        == number[3]);
}

/// A chunk starts with its place, the status that it reached, the lowest block
/// and the number of its sections, at the same bytes in every chunk.
pub proof fn a_chunk_starts_with_its_place(
    chunk: ChunkContents,
    min_y: int,
    names: SnapshotNames,
)
    requires
        chunk.status <= u8::MAX,
        chunk.section_count <= u16::MAX,
        i32::MIN <= min_y <= i32::MAX,
    ensures
        ({
            let bytes = snapshot::chunk_bytes(chunk, min_y, names);
            &&& bytes.len() >= 20
            &&& four_bytes(bytes, 0, snapshot::unsigned_of(chunk.x as int))
            &&& four_bytes(bytes, 4, snapshot::unsigned_of(chunk.z as int))
            &&& bytes[8] == chunk.status
            &&& bytes[9] == 0 && bytes[10] == 0 && bytes[11] == 0
            &&& four_bytes(bytes, 12, snapshot::unsigned_of(min_y))
            &&& two_bytes(bytes, 16, chunk.section_count as int)
            &&& two_bytes(bytes, 18, 0)
        }),
{
    let (ux, uz, uy) = (
        snapshot::unsigned_of(chunk.x as int),
        snapshot::unsigned_of(chunk.z as int),
        snapshot::unsigned_of(min_y),
    );
    numbers_start_with_their_lowest_byte(0, ux, chunk.x as int);
    numbers_start_with_their_lowest_byte(0, uz, chunk.z as int);
    numbers_start_with_their_lowest_byte(chunk.section_count as int, uy, min_y);
    let (x, z, y) = (snapshot::le32(ux), snapshot::le32(uz), snapshot::le32(uy));
    let sections = snapshot::le16(chunk.section_count as int);
    let zero = snapshot::le16(0);
    let preamble = snapshot::preamble_bytes(chunk, min_y);
    assert(preamble.len() == 20);
    assert(preamble[0] == x[0] && preamble[1] == x[1] && preamble[2] == x[2] && preamble[3]
        == x[3]);
    assert(preamble[4] == z[0] && preamble[5] == z[1] && preamble[6] == z[2] && preamble[7]
        == z[3]);
    assert(preamble[12] == y[0] && preamble[13] == y[1] && preamble[14] == y[2] && preamble[15]
        == y[3]);
    assert(preamble[16] == sections[0] && preamble[17] == sections[1]);
    assert(preamble[18] == zero[0] && preamble[19] == zero[1]);
    let bytes = snapshot::chunk_bytes(chunk, min_y, names);
    assert(forall|i: int| 0 <= i < 20 ==> #[trigger] bytes[i] == preamble[i]);
}

/// A text has the number of its bytes in front and is cut where that is no
/// longer two bytes.
pub proof fn a_text_has_its_length_in_front(value: Seq<char>)
    ensures
        ({
            let bytes = snapshot::string_bytes(value);
            let all = vstd::utf8::encode_utf8(value);
            let length = if all.len() <= 65535 {
                all.len() as int
            } else {
                65535
            };
            &&& bytes.len() == 2 + length
            &&& two_bytes(bytes, 0, length)
            &&& forall|i: int| 0 <= i < length ==> #[trigger] bytes[2 + i] == all[i]
        }),
{
    let length = snapshot::text_bytes(value).len() as int;
    numbers_start_with_their_lowest_byte(length, 0, 0);
}

/// Cells that are all alike take three bytes, a zero and the number they hold;
/// others a one and two bytes for each.
pub proof fn cells_take_two_bytes_each(cells: Seq<u16>)
    requires
        cells.len() > 0,
    ensures
        ({
            let bytes = snapshot::cells_bytes(cells);
            let alike = forall|i: int| 0 <= i < cells.len() ==> #[trigger] cells[i] == cells[0];
            &&& alike ==> bytes.len() == 3 && bytes[0] == snapshot::KIND_UNIFORM && two_bytes(
                bytes,
                1,
                cells[0] as int,
            )
            &&& !alike ==> bytes.len() == 1 + 2 * cells.len() && bytes[0] == snapshot::KIND_DENSE
                && forall|i: int|
                0 <= i < cells.len() ==> two_bytes(bytes, 1 + 2 * i, #[trigger] cells[i] as int)
        }),
        snapshot::KIND_UNIFORM == 0,
        snapshot::KIND_DENSE == 1,
{
    numbers_start_with_their_lowest_byte(cells[0] as int, 0, 0);
    lemma_numbers(cells);
    let bytes = snapshot::cells_bytes(cells);
    if !snapshot::is_uniform(cells) {
        let numbers = snapshot::numbers_bytes(cells);
        assert forall|i: int| 0 <= i < cells.len() implies two_bytes(
            bytes,
            1 + 2 * i,
            #[trigger] cells[i] as int,
        ) by {
            assert(two_bytes(numbers, 2 * i, cells[i] as int));
            assert(bytes[1 + 2 * i] == numbers[2 * i]);
            assert(bytes[1 + 2 * i + 1] == numbers[2 * i + 1]);
        }
    }
}

proof fn lemma_numbers(cells: Seq<u16>)
    ensures
        snapshot::numbers_bytes(cells).len() == 2 * cells.len(),
        forall|i: int|
            0 <= i < cells.len() ==> two_bytes(
                snapshot::numbers_bytes(cells),
                2 * i,
                #[trigger] cells[i] as int,
            ),
    decreases cells.len(),
{
    if cells.len() > 0 {
        let fewer = cells.drop_last();
        lemma_numbers(fewer);
        let before = snapshot::numbers_bytes(fewer);
        let all = snapshot::numbers_bytes(cells);
        numbers_start_with_their_lowest_byte(cells.last() as int, 0, 0);
        assert forall|i: int| 0 <= i < cells.len() implies two_bytes(
            all,
            2 * i,
            #[trigger] cells[i] as int,
        ) by {
            if i < fewer.len() {
                assert(two_bytes(before, 2 * i, fewer[i] as int));
                assert(all[2 * i] == before[2 * i] && all[2 * i + 1] == before[2 * i + 1]);
            } else {
                let last = snapshot::le16(cells.last() as int);
                assert(all[2 * i] == last[0] && all[2 * i + 1] == last[1]);
            }
        }
    }
}

/// A block is met column by column: along x, within that along z, and within a
/// column from the lowest block up; in the cells it stands by its height, then
/// by z, then by x.
pub proof fn blocks_are_met_column_by_column(x: int, y: int, z: int, tall: int)
    requires
        0 <= x < 16,
        0 <= z < 16,
        0 <= y < tall,
    ensures
        snapshot::column_place((16 * x + z) * tall + y, tall) == 256 * y + 16 * z + x,
{
    let column = 16 * x + z;
    let at = column * tall + y;
    vstd::arithmetic::div_mod::lemma_fundamental_div_mod_converse(at, tall, column, y);
    assert(column / 16 == x && column % 16 == z);
}

/// A palette lists each id once, where it is met first.
pub proof fn a_palette_grows_by_what_is_new(ids: Seq<u16>, id: u16)
    ensures
        snapshot::first_seen(Seq::empty()) == Seq::<u16>::empty(),
        ids.contains(id) ==> snapshot::first_seen(ids.push(id)) == snapshot::first_seen(ids),
        !ids.contains(id) ==> snapshot::first_seen(ids.push(id)) == snapshot::first_seen(ids).push(
            id,
        ),
{
    assert(ids.push(id).drop_last() =~= ids);
    lemma_seen(ids, id);
}

proof fn lemma_seen(ids: Seq<u16>, id: u16)
    ensures
        snapshot::first_seen(ids).contains(id) <==> ids.contains(id),
    decreases ids.len(),
{
    if ids.len() > 0 {
        let fewer = ids.drop_last();
        lemma_seen(fewer, id);
        let before = snapshot::first_seen(fewer);
        let all = snapshot::first_seen(ids);
        if fewer.contains(id) {
            let k = choose|k: int| 0 <= k < fewer.len() && fewer[k] == id;
            assert(ids[k] == id);
            let m = choose|m: int| 0 <= m < before.len() && before[m] == id;
            assert(all[m] == id);
        }
        if ids.contains(id) {
            let k = choose|k: int| 0 <= k < ids.len() && ids[k] == id;
            if k < fewer.len() {
                assert(fewer[k] == id);
            } else if !before.contains(id) {
                assert(all[before.len() as int] == id);
            }
        }
        if all.contains(id) {
            let m = choose|m: int| 0 <= m < all.len() && all[m] == id;
            if m < before.len() {
                assert(before[m] == id);
            } else {
                assert(ids[ids.len() - 1] == id);
            }
        }
    }
}

/// An id has a fault where it has no name; ids have none exactly where each
/// has a name and a palette of two-byte numbers holds them all.
pub proof fn ids_are_faultless_where_all_have_names(
    names: SnapshotNames,
    kind: PaletteKind,
    ids: Seq<u16>,
)
    ensures
        snapshot::palette_fault(names, kind, ids) is None <==> (forall|i: int|
            0 <= i < ids.len() ==> names.name(kind, #[trigger] ids[i]) is Some)
            && snapshot::first_seen(ids).len() <= 65535,
    decreases ids.len(),
{
    if ids.len() > 0 {
        let fewer = ids.drop_last();
        ids_are_faultless_where_all_have_names(names, kind, fewer);
        assert(snapshot::first_seen(fewer).len() <= snapshot::first_seen(ids).len());
        if forall|i: int| 0 <= i < ids.len() ==> names.name(kind, #[trigger] ids[i]) is Some {
            assert forall|i: int| 0 <= i < fewer.len() implies names.name(
                kind,
                #[trigger] fewer[i],
            ) is Some by {
                assert(ids[i] == fewer[i]);
            }
            assert(ids[ids.len() - 1] == ids.last());
        }
        if snapshot::palette_fault(names, kind, ids) is None {
            assert forall|i: int| 0 <= i < ids.len() implies names.name(
                kind,
                #[trigger] ids[i],
            ) is Some by {
                if i < fewer.len() {
                    assert(fewer[i] == ids[i]);
                }
            }
        }
    }
}

/// The first id without a name is the one that is told, as a block or as a
/// biome.
pub proof fn the_first_unnamed_id_is_told(
    names: SnapshotNames,
    kind: PaletteKind,
    ids: Seq<u16>,
    id: u16,
)
    requires
        snapshot::palette_fault(names, kind, ids) is None,
        names.name(kind, id) is None,
    ensures
        snapshot::palette_fault(names, kind, ids.push(id)) == Some(
            match kind {
                PaletteKind::Blocks => SnapshotError::UnknownBlockState(id),
                PaletteKind::Biomes => SnapshotError::UnknownBiome(id),
            },
        ),
{
    assert(ids.push(id).drop_last() =~= ids);
}

/// A block's fault is told before a biome's.
pub proof fn a_chunk_tells_its_blocks_first(chunk: ChunkContents, names: SnapshotNames)
    ensures
        ({
            let blocks = snapshot::palette_fault(
                names,
                PaletteKind::Blocks,
                chunk.met(PaletteKind::Blocks),
            );
            let biomes = snapshot::palette_fault(
                names,
                PaletteKind::Biomes,
                chunk.met(PaletteKind::Biomes),
            );
            &&& blocks is Some ==> chunk.fault(names) == blocks
            &&& blocks is None ==> chunk.fault(names) == biomes
        }),
{
}

/// A block's text is its key, and where it has properties each as its name, an
/// equals sign and its value, in square brackets with commas between.
pub proof fn a_block_is_written_with_its_properties(name: BlockName, n: int)
    requires
        0 < n < name.properties@.len(),
    ensures
        ({
            let listed = |k: int| snapshot::properties_text(name.properties@, k);
            let first = name.properties@[0];
            let next = name.properties@[n];
            &&& listed(1) == first.0@ + seq!['='] + first.1@
            &&& listed(n + 1) == listed(n) + seq![','] + next.0@ + seq!['='] + next.1@
            &&& snapshot::block_text(name) == name.key@ + seq!['['] + listed(
                name.properties@.len() as int,
            ) + seq![']']
        }),
{
    let first = name.properties@[0];
    assert(snapshot::properties_text(name.properties@, 1) =~= first.0@ + seq!['='] + first.1@);
}

/// The middle of two numbers is as far from one as from the other, to within
/// one, and rounds toward zero.
pub proof fn the_middle_lies_between(low: int, high: int)
    requires
        low <= high,
    ensures
        ({
            let middle = engine::middle_of(low, high);
            &&& low <= middle <= high
            &&& -1 <= (high - middle) - (middle - low) <= 1
            &&& low + high >= 0 ==> middle - low <= high - middle
            &&& low + high <= 0 ==> middle - low >= high - middle
        }),
{
}

/// A region reaches exactly as far as it must: every requested position lies
/// within the radius less the dependencies', and one of them lies right at its
/// edge.
pub proof fn a_region_reaches_no_farther_than_it_must(
    centers: Seq<ChunkPos>,
    region: Region,
    min_x: int,
    max_x: int,
    min_z: int,
    max_z: int,
    dependency_radius: int,
)
    requires
        centers.len() > 0,
        engine::is_extent(engine::xs(centers), min_x, max_x),
        engine::is_extent(engine::zs(centers), min_z, max_z),
        engine::covers_ranges(region, min_x, max_x, min_z, max_z, dependency_radius),
    ensures
        exists|i: int|
            0 <= i < centers.len() && ({
                let edge = region.radius - dependency_radius;
                ||| (#[trigger] centers[i]).x - region.center_x == edge
                ||| region.center_x - centers[i].x == edge
                ||| centers[i].z - region.center_z == edge
                ||| region.center_z - centers[i].z == edge
            }),
{
    let xs = engine::xs(centers);
    let zs = engine::zs(centers);
    let a = choose|k: int| 0 <= k < xs.len() && xs[k] == min_x;
    let b = choose|k: int| 0 <= k < xs.len() && xs[k] == max_x;
    let c = choose|k: int| 0 <= k < zs.len() && zs[k] == min_z;
    let d = choose|k: int| 0 <= k < zs.len() && zs[k] == max_z;
    assert(centers[a].x == min_x);
    assert(centers[b].x == max_x);
    assert(centers[c].z == min_z);
    assert(centers[d].z == max_z);
}

/// Positions are listed row by row: a smaller z first, and within a row the
/// smaller x; two different positions stand one before the other.
pub proof fn positions_are_listed_row_by_row(a: ChunkPos, b: ChunkPos)
    ensures
        a.z < b.z ==> engine::comes_before(a, b),
        a.z == b.z && a.x < b.x ==> engine::comes_before(a, b),
        a != b ==> engine::comes_before(a, b) != engine::comes_before(b, a),
        !engine::comes_before(a, a),
{
}

/// A batch is taken exactly where both pointers are given, it asks for at
/// least one chunk and a status that there is, and its world is open; else the
/// first of these that fails is what is told.
pub proof fn a_batch_is_refused_for_the_first_reason<W>(
    worlds: HandleTable<W>,
    request: BatchRequest,
    status_count: int,
)
    ensures
        ({
            let refused = abi::refusal(worlds, request, status_count);
            let told = refused->0;
            let given = request.has_positions && request.has_out_len;
            let asked = request.count > 0 && request.target_status < status_count;
            let open = worlds.entries().contains_key(request.world)
                && !worlds.entries()[request.world].poisoned;
            &&& refused is None <==> given && asked && open
            &&& !given ==> told.0 == Status::NullArgument
            &&& given && !asked ==> told.0 == Status::InvalidArgument
            &&& given && asked && !open ==> told.0 == Status::InvalidHandle
        }),
{
}

/// The codes are the numbers of the interface: success is zero, the other
/// statuses count down from it in their order, and an internal fault stands
/// apart.
pub proof fn statuses_have_their_codes(s: Status)
    ensures
        match s {
            Status::Success => status::code_of(s) == 0,
            Status::NullArgument => status::code_of(s) == -1,
            Status::InvalidArgument => status::code_of(s) == -2,
            Status::RuntimeNotInitialized => status::code_of(s) == -3,
            Status::RuntimeAlreadyInitialized => status::code_of(s) == -4,
            Status::InvalidHandle => status::code_of(s) == -5,
            Status::GeneratorRejected => status::code_of(s) == -6,
            Status::BufferTooSmall => status::code_of(s) == -7,
            Status::UnrepresentableContent => status::code_of(s) == -8,
            Status::Panicked => status::code_of(s) == -9,
            Status::Internal => status::code_of(s) == -100,
        },
{
}

/// A kept message has the replacement character for each that would end it,
/// and is otherwise the message.
pub proof fn only_terminators_are_replaced(message: Seq<char>, i: int)
    requires
        0 <= i < message.len(),
    ensures
        message[i] == '\u{0}' ==> status::without_nul(message)[i] == '\u{fffd}',
        message[i] != '\u{0}' ==> status::without_nul(message)[i] == message[i],
{
}

/// A batch is kept for a retry where it did not fit, is let go once it was
/// handed over, and is otherwise left as it was.
pub proof fn a_batch_is_kept_until_it_fits(
    kept: Option<Seq<u8>>,
    bytes: Seq<u8>,
    reply: Status,
)
    ensures
        resident::after_reply(kept, bytes, reply) == (if reply == Status::BufferTooSmall {
            Some(bytes)
        } else if reply == Status::Success {
            None
        } else {
            kept
        }),
{
}

/// A position is within a radius of another where it is no farther along
/// either axis.
pub proof fn a_square_reaches_its_radius_along_both_axes(
    center: ChunkPos,
    at: ChunkPos,
    radius: int,
)
    ensures
        engine::within(center, at, radius) <==> {
            &&& -radius <= at.x - center.x <= radius
            &&& -radius <= at.z - center.z <= radius
        },
        radius <= i32::MAX ==> engine::effective_radius(radius) == radius,
        radius > i32::MAX ==> engine::effective_radius(radius) == 0,
{
}

/// A region is refused where nothing is asked for, or where the positions and
/// their dependencies reach farther from the middle than a region can; else
/// its radius is that reach.
pub proof fn a_region_is_refused_only_where_it_cannot_reach(
    centers: Seq<ChunkPos>,
    min_x: int,
    max_x: int,
    min_z: int,
    max_z: int,
    dependency_radius: int,
)
    requires
        centers.len() > 0,
        engine::is_extent(engine::xs(centers), min_x, max_x),
        engine::is_extent(engine::zs(centers), min_z, max_z),
        0 <= dependency_radius <= i32::MAX,
    ensures
        ({
            let wide = engine::half_extent(min_x, max_x);
            let deep = engine::half_extent(min_z, max_z);
            &&& engine::region_refused(centers, dependency_radius) <==> wide + dependency_radius
                > i32::MAX || deep + dependency_radius > i32::MAX
            &&& max_x - min_x <= 2 * wide <= max_x - min_x + 1
            &&& max_z - min_z <= 2 * deep <= max_z - min_z + 1
        }),
        engine::region_refused(Seq::empty(), dependency_radius),
{
    let xs = engine::xs(centers);
    let zs = engine::zs(centers);
    assert forall|low: int, high: int| #[trigger] engine::is_extent(xs, low, high) implies low
        == min_x && high == max_x by {
        lemma_one_extent(xs, low, high, min_x, max_x);
    }
    assert forall|low: int, high: int| #[trigger] engine::is_extent(zs, low, high) implies low
        == min_z && high == max_z by {
        lemma_one_extent(zs, low, high, min_z, max_z);
    }
    lemma_one_extent(xs, min_x, max_x, min_x, max_x);
    lemma_one_extent(zs, min_z, max_z, min_z, max_z);
    the_middle_lies_between(min_x, max_x);
    the_middle_lies_between(min_z, max_z);
}

proof fn lemma_one_extent(values: Seq<int>, a: int, b: int, c: int, d: int)
    requires
        engine::is_extent(values, a, b),
        engine::is_extent(values, c, d),
    ensures
        a == c,
        b == d,
        a <= b,
{
    let i = choose|i: int| 0 <= i < values.len() && values[i] == a;
    let j = choose|j: int| 0 <= j < values.len() && values[j] == b;
    let k = choose|k: int| 0 <= k < values.len() && values[k] == c;
    let l = choose|l: int| 0 <= l < values.len() && values[l] == d;
    assert(values[i] == a && values[j] == b && values[k] == c && values[l] == d);
}

/// The fault that is told is that of the first chunk that has one.
pub proof fn the_first_faulty_chunk_is_told(
    chunks: Seq<ChunkContents>,
    names: SnapshotNames,
    n: int,
)
    requires
        0 <= n <= chunks.len(),
    ensures
        snapshot::first_fault(chunks, names, n) is None <==> forall|i: int|
            0 <= i < n ==> (#[trigger] chunks[i]).fault(names) is None,
        forall|i: int|
            0 <= i < n && (#[trigger] chunks[i]).fault(names) is Some && (forall|j: int|
                0 <= j < i ==> (#[trigger] chunks[j]).fault(names) is None)
                ==> snapshot::first_fault(chunks, names, n) == chunks[i].fault(names),
    decreases n,
{
    if n > 0 {
        the_first_faulty_chunk_is_told(chunks, names, n - 1);
    }
}

/// A position belongs to a stage exactly where it is within the radius of some
/// requested position.
pub proof fn a_stage_takes_in_what_surrounds_the_requests(
    centers: Seq<ChunkPos>,
    radius: int,
    at: ChunkPos,
)
    ensures
        engine::in_squares(centers, centers.len() as int, radius, at) <==> exists|center: ChunkPos|
            #[trigger]
            centers.contains(center) && -radius <= at.x - center.x <= radius && -radius <= at.z
                - center.z <= radius,
{
    if engine::in_squares(centers, centers.len() as int, radius, at) {
        let i = choose|i: int|
            0 <= i < centers.len() && engine::within(#[trigger] centers[i], at, radius);
        assert(centers.contains(centers[i]));
    }
    if exists|center: ChunkPos|
        #[trigger]
        centers.contains(center) && -radius <= at.x - center.x <= radius && -radius <= at.z
            - center.z <= radius {
        let center = choose|center: ChunkPos|
            #[trigger]
            centers.contains(center) && -radius <= at.x - center.x <= radius && -radius <= at.z
                - center.z <= radius;
        let i = choose|i: int| 0 <= i < centers.len() && centers[i] == center;
        assert(engine::within(centers[i], at, radius));
    }
}

/// A message that is recorded is the one that is kept.
pub proof fn a_recorded_message_is_kept(error: LastError, message: Seq<char>)
    ensures
        abi::recorded(error, message) <==> error.kept() is Some && error.kept()->0
            == status::without_nul(message),
{
}

} // verus!
