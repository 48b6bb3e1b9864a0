//! The boundary: snapshots, handles, regions and what each call answers.
//!
//! The snapshot reader here does not share the encoder's helpers, so that a
//! change of the framing shows.

use steel::ffi::abi::{
    admit_batch, cstr_to_str, guard, panic_message, reject_generator, requested_generator,
    swg_abi_version, swg_generate_batch, swg_last_error, swg_runtime_init, swg_world_close,
    swg_world_open, BatchRequest, Generated, HostText, SwgChunkPos, ABI_VERSION,
};
use steel::ffi::engine::{
    build_cache, generate, generate_snapshot, min_max, positions_for_status, stage_outcome,
    GeneratedChunk, OpenStep, RuntimeInit, WorldSpec,
};
use steel::ffi::handle::HandleTable;
use steel::ffi::resident::ResidentBatches;
use steel::ffi::snapshot::{
    encode, encode_chunk, put_cells, put_string, BlockName, ChunkContents, SnapshotError,
    SnapshotNames, SNAPSHOT_MAGIC, SNAPSHOT_VERSION,
};
use steel::ffi::status::{LastError, Status};
use steel::pos::ChunkPos;

const SECTION_VOLUME: usize = 4096;
const BIOME_CELLS: usize = 64;
const FEATURES: usize = 7;
const STATUSES: usize = 12;

/// Reads the snapshot format independently of the encoder.
struct Reader<'a> {
    bytes: &'a [u8],
    offset: usize,
}

impl<'a> Reader<'a> {
    fn new(bytes: &'a [u8]) -> Self {
        Self { bytes, offset: 0 }
    }

    fn u8(&mut self) -> u8 {
        let value = self.bytes[self.offset];
        self.offset += 1;
        value
    }

    fn u16(&mut self) -> u16 {
        let value = u16::from_le_bytes(
            self.bytes[self.offset..self.offset + 2].try_into().expect("two bytes"),
        );
        self.offset += 2;
        value
    }

    fn u32(&mut self) -> u32 {
        let value = u32::from_le_bytes(
            self.bytes[self.offset..self.offset + 4].try_into().expect("four bytes"),
        );
        self.offset += 4;
        value
    }

    fn i32(&mut self) -> i32 {
        self.u32() as i32
    }

    fn string(&mut self) -> String {
        let length = self.u16() as usize;
        let value = String::from_utf8(self.bytes[self.offset..self.offset + length].to_vec())
            .expect("palette entries are UTF-8");
        self.offset += length;
        value
    }

    /// Reads a cell array, expanding uniform runs so assertions can index freely.
    fn cells(&mut self, dense_length: usize) -> Vec<u16> {
        match self.u8() {
            0 => vec![self.u16(); dense_length],
            1 => (0..dense_length).map(|_| self.u16()).collect(),
            other => panic!("unknown cell kind {other}"),
        }
    }

    fn remaining(&self) -> usize {
        self.bytes.len() - self.offset
    }
}

fn name(key: &str, properties: &[(&str, &str)]) -> Option<BlockName> {
    Some(BlockName {
        key: key.to_owned(),
        properties: properties
            .iter()
            .map(|(key, value)| ((*key).to_owned(), (*value).to_owned()))
            .collect(),
    })
}

fn registry() -> SnapshotNames {
    SnapshotNames {
        blocks: vec![
            name("minecraft:air", &[]),
            name("minecraft:bedrock", &[]),
            name("minecraft:deepslate", &[("axis", "y")]),
            None,
            name("minecraft:oak_log", &[("axis", "x"), ("charred", "true")]),
        ],
        biomes: vec![Some("minecraft:plains".to_owned()), Some("minecraft:d\u{e9}sert".to_owned())],
    }
}

/// Bedrock at the bottom, deepslate above it and air from the third section on.
fn terrain(x: i32, z: i32) -> ChunkContents {
    let mut blocks = vec![0u16; 24 * SECTION_VOLUME];
    for cell in blocks.iter_mut().take(3 * SECTION_VOLUME) {
        *cell = 2;
    }
    for cell in blocks.iter_mut().take(256) {
        *cell = 1;
    }
    let mut biomes = vec![0u16; 24 * BIOME_CELLS];
    biomes[5] = 1;
    ChunkContents { x, z, status: FEATURES, section_count: 24, blocks, biomes }
}

#[test]
fn snapshot_framing_round_trips() {
    let centers = [(0, 0), (1, 2)];
    let chunks = vec![terrain(0, 0), terrain(1, 2)];
    let bytes = encode(&chunks, -64, &registry()).expect("snapshot should encode");

    let mut reader = Reader::new(&bytes);
    assert_eq!(reader.u32(), SNAPSHOT_MAGIC, "magic");
    assert_eq!(&bytes[..4], b"SWGS", "snapshot should start with its magic");
    assert_eq!(reader.u16(), SNAPSHOT_VERSION, "version");
    assert_eq!(reader.u16(), 0, "reserved");
    assert_eq!(reader.u32(), 2, "chunk count");

    for expected in centers {
        let chunk_x = reader.i32();
        let chunk_z = reader.i32();
        assert_eq!((chunk_x, chunk_z), expected, "chunks appear in request order");

        assert_eq!(reader.u8() as usize, FEATURES, "status index");
        for _ in 0..3 {
            assert_eq!(reader.u8(), 0, "reserved");
        }

        assert_eq!(reader.i32(), -64, "overworld min_y");
        let section_count = reader.u16() as usize;
        assert_eq!(section_count, 24, "overworld section count");
        assert_eq!(reader.u16(), 0, "reserved");

        let block_palette: Vec<String> = (0..reader.u32()).map(|_| reader.string()).collect();
        let biome_palette: Vec<String> = (0..reader.u32()).map(|_| reader.string()).collect();
        assert!(block_palette.iter().any(|entry| entry == "minecraft:air"));
        assert!(block_palette.iter().any(|entry| entry == "minecraft:bedrock"));
        assert!(biome_palette.iter().all(|entry| entry.contains(':')));
        assert_eq!(biome_palette, ["minecraft:plains", "minecraft:d\u{e9}sert"]);

        let mut solid = 0_usize;
        for section in 0..section_count {
            let blocks = reader.cells(SECTION_VOLUME);
            let biomes = reader.cells(BIOME_CELLS);
            assert!(blocks.iter().all(|index| (*index as usize) < block_palette.len()));
            assert!(biomes.iter().all(|index| (*index as usize) < biome_palette.len()));
            if section == 0 {
                assert_eq!(block_palette[blocks[0] as usize], "minecraft:bedrock");
                assert_eq!(block_palette[blocks[256] as usize], "minecraft:deepslate[axis=y]");
                assert_eq!(biomes[5], 1);
                assert_eq!(biomes[6], 0);
            }
            let air = block_palette
                .iter()
                .position(|entry| entry == "minecraft:air")
                .expect("air is present");
            solid += blocks.iter().filter(|index| **index as usize != air).count();
        }
        assert_eq!(solid, 3 * SECTION_VOLUME);
    }

    assert_eq!(reader.remaining(), 0, "no trailing bytes");
}

#[test]
fn block_states_carry_their_properties() {
    let palette: Vec<String> =
        registry().blocks.iter().flatten().map(|name| name.encoded()).collect();
    let with_properties: Vec<&String> =
        palette.iter().filter(|entry| entry.contains('[')).collect();
    assert!(!with_properties.is_empty());
    for entry in &with_properties {
        assert!(entry.ends_with(']') && entry.contains('='));
        assert!(!entry.contains("[]"));
    }
    assert!(palette.iter().any(|entry| entry == "minecraft:bedrock"));
    assert!(palette.iter().any(|entry| entry == "minecraft:deepslate[axis=y]"));
    assert!(palette.iter().any(|entry| entry == "minecraft:oak_log[axis=x,charred=true]"));
}

fn small(block: u16, biome: u16) -> ChunkContents {
    ChunkContents {
        x: -1,
        z: 5,
        status: 3,
        section_count: 1,
        blocks: vec![block; SECTION_VOLUME],
        biomes: vec![biome; BIOME_CELLS],
    }
}

#[test]
fn content_without_a_name_is_refused() {
    let block = encode(&vec![small(0, 0), small(3, 0)], 0, &registry()).expect_err("unnamed");
    assert_eq!(block.to_string(), "no registry entry for block state 3");
    let beyond = encode(&vec![small(77, 0)], 0, &registry()).expect_err("unnamed");
    assert_eq!(beyond.to_string(), "no registry entry for block state 77");
    let biome = encode(&vec![small(0, 9)], 0, &registry()).expect_err("unnamed");
    assert_eq!(biome.to_string(), "no registry entry for biome 9");
    assert_eq!(SnapshotError::PaletteOverflow.to_string(), "chunk palette exceeded u16");
}

#[test]
fn a_palette_holds_as_many_names_as_an_index_counts() {
    let all = SnapshotNames {
        blocks: (0..=u16::MAX).map(|state| name(&format!("b{state}"), &[])).collect(),
        biomes: vec![Some("minecraft:plains".to_owned())],
    };
    let chunk = |repeated: usize| {
        let mut blocks: Vec<u16> = (0..=u16::MAX).collect();
        for cell in blocks.iter_mut().take(repeated) {
            *cell = u16::MAX;
        }
        let biomes = vec![0; 16 * BIOME_CELLS];
        vec![ChunkContents { x: 0, z: 0, status: 3, section_count: 16, blocks, biomes }]
    };
    assert!(encode(&chunk(1), 0, &all).is_ok(), "65535 names fit");
    let overflow = encode(&chunk(0), 0, &all).expect_err("one name more does not");
    assert!(matches!(overflow, SnapshotError::PaletteOverflow));
    assert_eq!(overflow.to_string(), "chunk palette exceeded u16");
}

#[test]
fn a_uniform_chunk_is_short() {
    let mut out = Vec::new();
    encode_chunk(&mut out, &small(1, 0), -64, &registry()).expect("named");
    // Preamble, one name each, and two uniform arrays.
    let expected = 8 + 4 + 4 + 4 + (4 + 2 + 17) + (4 + 2 + 16) + 3 + 3;
    assert_eq!(out.len(), expected);
}

#[test]
fn strings_and_cells_are_framed() {
    let mut out = Vec::new();
    put_string(&mut out, "a\u{e9}\u{20ac}\u{1f600}");
    assert_eq!(out[..2], [10, 0]);
    assert_eq!(&out[2..], "a\u{e9}\u{20ac}\u{1f600}".as_bytes());

    let mut out = Vec::new();
    put_cells(&mut out, &vec![9, 7, 7, 7], 1, 4);
    assert_eq!(out, [0, 7, 0]);
    let mut out = Vec::new();
    put_cells(&mut out, &vec![1, 0x0203], 0, 2);
    assert_eq!(out, [1, 1, 0, 3, 2]);
}

#[test]
fn a_chunk_that_fell_short_is_named() {
    let chunks = vec![
        GeneratedChunk::Reached(small(0, 0)),
        GeneratedChunk::Missing("ChunkPos(1, 2)".to_owned()),
        GeneratedChunk::Missing("ChunkPos(9, 9)".to_owned()),
    ];
    assert_eq!(
        generate_snapshot(chunks, "Features", 0, &registry()),
        Err("chunk ChunkPos(1, 2) did not reach Features".to_owned())
    );
    let unnamed = vec![GeneratedChunk::Reached(small(3, 0))];
    assert_eq!(
        generate_snapshot(unnamed, "Features", 0, &registry()),
        Err("no registry entry for block state 3".to_owned())
    );
    let fine = vec![GeneratedChunk::Reached(small(0, 0))];
    assert_eq!(
        generate_snapshot(fine, "Features", 0, &registry()),
        Ok(encode(&vec![small(0, 0)], 0, &registry()).expect("named"))
    );
}

fn positions(list: &[(i32, i32)]) -> Vec<ChunkPos> {
    list.iter().map(|(x, z)| ChunkPos::new(*x, *z)).collect()
}

#[test]
fn overlapping_squares_are_listed_once() {
    let near = positions_for_status(&positions(&[(0, 0), (1, 0)]), 1);
    assert_eq!(near.len(), 12);
    assert_eq!(near[0], ChunkPos::new(-1, -1));
    assert_eq!(near[11], ChunkPos::new(2, 1));
    assert!(near.windows(2).all(|pair| (pair[0].z, pair[0].x) < (pair[1].z, pair[1].x)));
    assert_eq!(positions_for_status(&positions(&[(4, 5)]), 0), positions(&[(4, 5)]));
    assert!(positions_for_status(&vec![], 3).is_empty());
}

#[test]
fn a_region_covers_its_centers_and_their_dependencies() {
    let region = build_cache(&positions(&[(-3, 0), (4, 1)]), 8).expect("a region");
    assert_eq!((region.center_x, region.center_z), (0, 0));
    assert_eq!(region.radius, 4 + 8);
    let left = build_cache(&positions(&[(-4, 0), (1, 0)]), 0).expect("a region");
    assert_eq!((left.center_x, left.radius), (-1, 3), "the middle is rounded towards zero");
    assert_eq!(min_max(&positions(&[(3, -1), (-2, 7)])), ((-2, 3), (-1, 7)));

    assert_eq!(
        build_cache(&vec![], 0).expect_err("nothing"),
        "no chunk positions requested"
    );
    assert_eq!(
        build_cache(&positions(&[(0, 0)]), usize::MAX).expect_err("too far"),
        "dependency radius overflow"
    );
    assert_eq!(
        build_cache(&positions(&[(0, 0), (10, 0)]), i32::MAX as usize).expect_err("too far"),
        "requested region is too large"
    );
}

#[test]
fn every_status_gets_its_positions() {
    let plan = generate(&positions(&[(0, 0)]), &vec![2, 1, 0]).expect("a plan");
    let counts: Vec<usize> = plan.stages.iter().map(Vec::len).collect();
    assert_eq!(counts, [25, 9, 1]);
    assert_eq!(plan.region.radius, 2);
    assert!(generate(&vec![], &vec![0]).is_err());
    assert_eq!(stage_outcome(0, "Noise"), Ok(()));
    assert_eq!(
        stage_outcome(3, "Noise"),
        Err("3 chunk(s) failed to reach Noise".to_owned())
    );
}

fn spec(threads: usize) -> WorldSpec {
    WorldSpec { generator: "minecraft:overworld".to_owned(), seed: 1, threads }
}

#[test]
fn zero_threads_means_one_per_core() {
    assert_eq!(spec(3).worker_threads(Some(16)), 3);
    assert_eq!(spec(0).worker_threads(Some(16)), 16);
    assert_eq!(spec(0).worker_threads(None), 1);
}

#[test]
fn a_failed_step_says_which() {
    let spec = spec(1);
    assert_eq!(spec.open_failure(OpenStep::Pool, "x"), "generation pool: x");
    assert_eq!(spec.open_failure(OpenStep::BuiltinGenerators, "x"), "built-in generators: x");
    assert_eq!(spec.open_failure(OpenStep::Generator, "x"), "generator minecraft:overworld: x");
    assert_eq!(spec.open_failure(OpenStep::TokioRuntime, "x"), "tokio runtime: x");
    assert_eq!(spec.open_failure(OpenStep::World, "x"), "world: x");
}

#[test]
fn reports_its_abi_version() {
    assert_eq!(swg_abi_version(), ABI_VERSION);
    let at = SwgChunkPos { x: 1, z: -2 };
    assert_eq!((at.x, at.z), (1, -2));
}

#[test]
fn runtime_init_is_idempotent() {
    let mut init = RuntimeInit::new();
    let mut error = LastError::new();
    assert!(init.is_pending());
    assert_eq!(swg_runtime_init(&mut init, &mut error, Ok(())).code(), Status::Success.code());
    assert!(!init.is_pending());
    // A second attempt does not count.
    assert_eq!(
        swg_runtime_init(&mut init, &mut error, Err("again".to_owned())).code(),
        Status::Success.code()
    );

    let mut broken = RuntimeInit::new();
    for attempt in [Err("no tables".to_owned()), Ok(())] {
        assert_eq!(
            swg_runtime_init(&mut broken, &mut error, attempt),
            Status::RuntimeNotInitialized
        );
        assert_eq!(swg_last_error(&error), Some("no tables"));
    }
}

#[test]
fn rejects_null_arguments() {
    let mut error = LastError::new();
    let text = HostText::Text("minecraft:overworld".to_owned());
    assert_eq!(
        requested_generator(&mut error, false, true, text),
        Err(Status::NullArgument)
    );
    assert!(swg_last_error(&error).expect("a message").contains("non-null"));
    assert_eq!(
        requested_generator(&mut error, true, true, HostText::Null),
        Err(Status::NullArgument)
    );
    assert_eq!(swg_last_error(&error), Some("generator must be non-null"));
    assert_eq!(
        requested_generator(&mut error, true, true, HostText::Text("a:b".to_owned())),
        Ok("a:b".to_owned())
    );
    assert_eq!(
        cstr_to_str(&mut error, HostText::NotUtf8("bad byte".to_owned()), "generator"),
        Err(Status::InvalidArgument)
    );
    assert_eq!(swg_last_error(&error), Some("generator is not UTF-8: bad byte"));
}

#[test]
fn rejects_an_unknown_generator() {
    let mut worlds: HandleTable<u8> = HandleTable::new();
    let mut error = LastError::new();
    let refused = Err("generator minecraft:not_a_generator: unknown".to_owned());
    assert_eq!(
        swg_world_open(&mut worlds, &mut error, refused),
        Err(Status::GeneratorRejected)
    );
    assert!(swg_last_error(&error).expect("a message").contains("not_a_generator"));
}

#[test]
fn rejects_a_malformed_identifier() {
    let mut error = LastError::new();
    let status = reject_generator(&mut error, "not a valid \"identifier\"", "bad character");
    assert_eq!(status.code(), Status::InvalidArgument.code());
    assert_eq!(
        swg_last_error(&error),
        Some("generator \"not a valid \\\"identifier\\\"\" is not a valid identifier: bad character")
    );
}

fn request(world: u64, target_status: u32) -> BatchRequest {
    BatchRequest { world, has_positions: true, has_out_len: true, count: 1, target_status }
}

#[test]
fn rejects_an_unknown_handle() {
    let worlds: HandleTable<u8> = HandleTable::new();
    let mut error = LastError::new();
    assert_eq!(
        admit_batch(&worlds, &mut error, &request(999_999, FEATURES as u32), STATUSES),
        Err(Status::InvalidHandle)
    );
    assert_eq!(
        swg_last_error(&error),
        Some("world handle 999999 is unknown or poisoned")
    );
}

fn open_world() -> (HandleTable<&'static str>, u64) {
    let mut worlds = HandleTable::new();
    let mut error = LastError::new();
    let handle = swg_world_open(&mut worlds, &mut error, Ok("world")).expect("it opens");
    (worlds, handle)
}

#[test]
fn rejects_an_unknown_chunk_status() {
    let (mut worlds, handle) = open_world();
    let mut error = LastError::new();
    assert_eq!(
        admit_batch(&worlds, &mut error, &request(handle, 999), STATUSES),
        Err(Status::InvalidArgument)
    );
    assert_eq!(swg_last_error(&error), Some("unknown chunk status 999"));
    let mut empty = request(handle, 7);
    empty.count = 0;
    assert_eq!(
        admit_batch(&worlds, &mut error, &empty, STATUSES),
        Err(Status::InvalidArgument)
    );
    let mut nowhere = request(handle, 7);
    nowhere.has_out_len = false;
    assert_eq!(
        admit_batch(&worlds, &mut error, &nowhere, STATUSES),
        Err(Status::NullArgument)
    );
    assert_eq!(
        admit_batch(&worlds, &mut error, &request(handle, 7), STATUSES),
        Ok((&"world", 7))
    );
    assert_eq!(swg_world_close(&mut worlds, &mut error, handle).code(), Status::Success.code());
}

#[test]
fn reports_the_required_buffer_size() {
    let (mut worlds, handle) = open_world();
    let mut error = LastError::new();
    // No buffer is the documented way to ask how much space is needed.
    let reply = swg_generate_batch(
        &mut worlds,
        &mut error,
        handle,
        Generated::Snapshot(640),
        false,
        0,
    );
    assert_eq!(reply.status, Status::BufferTooSmall);
    assert_eq!(reply.needed, Some(640));
    assert_eq!(swg_last_error(&error), Some("snapshot needs 640 bytes, buffer holds 0"));
    // Retrying with exactly that much must succeed.
    let again = swg_generate_batch(
        &mut worlds,
        &mut error,
        handle,
        Generated::Snapshot(640),
        true,
        640,
    );
    assert_eq!(again.status, Status::Success);
    assert_eq!(again.needed, Some(640));
}

#[test]
fn generates_and_closes_through_the_abi() {
    let (mut worlds, handle) = open_world();
    let mut error = LastError::new();

    let mut wanted = request(handle, FEATURES as u32);
    wanted.count = 2;
    let target = admit_batch(&worlds, &mut error, &wanted, STATUSES)
        .map(|(_, target)| target)
        .expect("the request is in order");
    assert_eq!(target, FEATURES);
    let centers = positions(&[(0, 0), (1, 0)]);
    // The step to `Features` reads each earlier status farther away.
    let plan = generate(&centers, &vec![10, 9, 8, 4, 3, 2, 1, 0]).expect("a small region");
    assert_eq!(plan.stages.len(), FEATURES + 1);
    assert_eq!(plan.stages[FEATURES], centers);
    for stage in &plan.stages {
        assert!(!stage.is_empty());
        assert!(stage_outcome(0, "Features").is_ok());
    }
    let chunks: Vec<GeneratedChunk> =
        centers.iter().map(|at| GeneratedChunk::Reached(terrain(at.x, at.z))).collect();
    let bytes = generate_snapshot(chunks, "Features", -64, &registry()).expect("it encodes");
    let mut buffer = vec![0_u8; 8 << 20];
    let reply = swg_generate_batch(
        &mut worlds,
        &mut error,
        handle,
        Generated::Snapshot(bytes.len()),
        true,
        buffer.len(),
    );
    assert_eq!(reply.status, Status::Success, "last error: {:?}", swg_last_error(&error));
    let length = reply.needed.expect("the length is reported");
    assert!(length > 0, "snapshot should not be empty");
    buffer[..length].copy_from_slice(&bytes);
    // Magic is "SWGS".
    assert_eq!(&buffer[..4], b"SWGS", "snapshot should start with its magic");

    assert_eq!(swg_world_close(&mut worlds, &mut error, handle), Status::Success);
    assert_eq!(
        swg_world_close(&mut worlds, &mut error, handle),
        Status::InvalidHandle,
        "closing twice must surface, not silently succeed"
    );
    assert_eq!(swg_last_error(&error), Some("world handle 1 is unknown"));
}

#[test]
fn a_panic_retires_only_its_world() {
    let (mut worlds, first) = open_world();
    let mut error = LastError::new();
    let second = swg_world_open(&mut worlds, &mut error, Ok("other")).expect("it opens");
    assert_ne!(first, second);
    let reply = swg_generate_batch(
        &mut worlds,
        &mut error,
        first,
        Generated::Panicked(panic_message(None)),
        true,
        9,
    );
    assert_eq!(reply.status, Status::Panicked);
    assert_eq!(reply.needed, None);
    assert_eq!(
        swg_last_error(&error),
        Some("generation panicked, world 1 retired: <non-string panic payload>")
    );
    assert!(worlds.get(first).is_none());
    assert_eq!(worlds.get(second), Some(&"other"));
    assert_eq!(
        admit_batch(&worlds, &mut error, &request(first, 7), STATUSES),
        Err(Status::InvalidHandle)
    );
    assert_eq!(swg_world_close(&mut worlds, &mut error, first), Status::Success);
    assert!(!worlds.remove(first));
}

#[test]
fn unrepresentable_content_has_its_own_status() {
    let (mut worlds, handle) = open_world();
    let mut error = LastError::new();
    let mut answer = |message: &str| {
        let failed = Generated::Failed(message.to_owned());
        swg_generate_batch(&mut worlds, &mut error, handle, failed, true, 0).status
    };
    assert_eq!(
        answer(&SnapshotError::UnknownBiome(4).to_string()),
        Status::UnrepresentableContent
    );
    assert_eq!(answer("wrapped: no registry entry"), Status::UnrepresentableContent);
    assert_eq!(answer(&SnapshotError::PaletteOverflow.to_string()), Status::Internal);
    assert_eq!(answer(""), Status::Internal);
}

#[test]
fn a_call_ends_in_a_code() {
    let mut error = LastError::new();
    assert_eq!(guard(&mut error, Ok(Status::Success)), 0);
    assert_eq!(swg_last_error(&error), None);
    assert_eq!(guard(&mut error, Err("oh\0no".to_owned())), Status::Panicked.code());
    assert_eq!(
        swg_last_error(&error),
        Some("panic crossed the FFI boundary: oh\u{fffd}no")
    );
    error.clear_last_error();
    assert_eq!(error.with_last_error(), None);
    assert_eq!(panic_message(Some("boom".to_owned())), "boom");
}

#[test]
fn every_failure_is_negative() {
    let failures = [
        (Status::NullArgument, -1),
        (Status::InvalidArgument, -2),
        (Status::RuntimeNotInitialized, -3),
        (Status::RuntimeAlreadyInitialized, -4),
        (Status::InvalidHandle, -5),
        (Status::GeneratorRejected, -6),
        (Status::BufferTooSmall, -7),
        (Status::UnrepresentableContent, -8),
        (Status::Panicked, -9),
        (Status::Internal, -100),
    ];
    for (status, code) in failures {
        assert_eq!(status.code(), code);
    }
}

#[test]
fn a_short_buffer_leaves_its_snapshot_resident() {
    let (mut worlds, handle) = open_world();
    let mut error = LastError::new();
    let mut resident = ResidentBatches::new();
    let centers = positions(&[(0, 0), (1, 0)]);
    let other = positions(&[(1, 0), (0, 0)]);
    assert_eq!(resident.find(&centers, FEATURES), None);

    let bytes = encode(&vec![small(0, 0)], 0, &registry()).expect("named");
    let mut answer = |length: usize, capacity: usize| {
        let made = Generated::Snapshot(length);
        swg_generate_batch(&mut worlds, &mut error, handle, made, true, capacity).status
    };
    let short = answer(bytes.len(), 3);
    resident.settle(positions(&[(0, 0), (1, 0)]), FEATURES, bytes.clone(), short);
    resident.settle(other, FEATURES, vec![9], answer(1, 0));
    resident.settle(positions(&[(5, 5)]), FEATURES, vec![7], answer(1, 1));
    assert_eq!(resident.find(&centers, FEATURES), Some(&bytes));
    assert_eq!(resident.find(&centers, FEATURES - 1), None);
    assert_eq!(resident.find(&positions(&[(1, 0), (0, 0)]), FEATURES), Some(&vec![9]));
    assert_eq!(resident.find(&positions(&[(5, 5)]), FEATURES), None);

    // A failure of another kind changes nothing; a success takes the snapshot.
    resident.settle(positions(&[(0, 0), (1, 0)]), FEATURES, vec![], Status::Internal);
    assert_eq!(resident.find(&centers, FEATURES), Some(&bytes));
    let fits = answer(bytes.len(), bytes.len());
    assert_eq!(fits, Status::Success);
    resident.settle(positions(&[(0, 0), (1, 0)]), FEATURES, bytes, fits);
    assert_eq!(resident.find(&centers, FEATURES), None);
}

#[test]
fn a_square_may_end_at_the_last_coordinate() {
    let edge = positions_for_status(&positions(&[(i32::MAX - 1, i32::MIN + 1)]), 1);
    assert_eq!(edge.len(), 9);
    assert_eq!(edge[0], ChunkPos::new(i32::MAX - 2, i32::MIN));
    assert_eq!(edge[8], ChunkPos::new(i32::MAX, i32::MIN + 2));
}

#[test]
fn a_region_that_cannot_be_addressed_is_refused() {
    let too_large = Err("requested region is too large".to_owned());
    let apart = positions(&[(i32::MIN, 0), (i32::MAX, 0)]);
    assert_eq!(build_cache(&apart, 0).map(|region| region.radius), too_large);
    assert_eq!(generate(&apart, &vec![5, 0]).map(|plan| plan.stages.len()), too_large.map(|_| 0));
    let widest = positions(&[(0, i32::MIN + 1), (0, i32::MAX)]);
    let region = build_cache(&widest, 0).expect("it can just be addressed");
    assert_eq!((region.center_x, region.center_z, region.radius), (0, 0, i32::MAX));
    assert!(build_cache(&widest, 1).is_err());
}
