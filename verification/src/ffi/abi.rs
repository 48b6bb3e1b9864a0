//! What each call of the boundary answers.
//!
//! - Every call returns a [`Status`]; a failure leaves a message.
//! - A call that panicked inside a world retires that world.

use vstd::prelude::*;

use crate::ffi::engine;
use crate::ffi::engine::RuntimeInit;
use crate::ffi::handle::HandleTable;
use crate::ffi::snapshot::SnapshotError;
use crate::ffi::status;
use crate::ffi::status::{LastError, Status};
use crate::text;

verus! {

/// ABI version. Bumped on any incompatible change to a signature or struct
/// layout; the host must refuse to load a library it does not recognise.
pub const ABI_VERSION: u32 = 1;

/// A chunk position, as it crosses the ABI.
#[derive(Debug, Clone, Copy)]
pub struct SwgChunkPos {
    /// Chunk X coordinate.
    pub x: i32,
    /// Chunk Z coordinate.
    pub z: i32,
}

/// Returns the ABI version this library implements.
pub fn swg_abi_version() -> (r: u32)
    ensures
        r == ABI_VERSION,
{
    ABI_VERSION
}

/// A failure was recorded: the message is kept as it can cross the boundary.
pub open spec fn recorded(error: LastError, message: Seq<char>) -> bool {
    error.kept() == Some(status::without_nul(message))
}

/// Answers a start of the runtime, given what setting up the tables gave.
///
/// Only the first attempt counts.
pub fn swg_runtime_init(
    init: &mut RuntimeInit,
    error: &mut LastError,
    attempt: Result<(), String>,
) -> (r: Status)
    ensures
        final(init).settled() == Some(
            match old(init).settled() {
                Some(first) => first,
                None => engine::result_text(attempt),
            },
        ),
        match final(init).settled()->0 {
            Ok(_) => r == Status::Success && final(error).kept() == old(error).kept(),
            Err(message) => r == Status::RuntimeNotInitialized && recorded(*final(error), message),
        },
{
    match init.init_runtime(attempt) {
        Ok(_) => Status::Success,
        Err(message) => error.fail(Status::RuntimeNotInitialized, message.as_str()),
    }
}

// ---------------------------------------------------------------------------
// Opening and closing
// ---------------------------------------------------------------------------
/// A text argument as it came from the host.
#[derive(Debug)]
pub enum HostText {
    /// No text was given.
    Null,
    /// The bytes are not UTF-8; this is what is wrong with them.
    NotUtf8(String),
    /// A text.
    Text(String),
}

/// Borrows a text argument from the caller.
pub fn cstr_to_str(error: &mut LastError, given: HostText, field: &str) -> (r: Result<
    String,
    Status,
>)
    ensures
        match given {
            HostText::Null => r == Err::<String, Status>(Status::NullArgument) && recorded(
                *final(error),
                field@ + " must be non-null"@,
            ),
            HostText::NotUtf8(fault) => r == Err::<String, Status>(Status::InvalidArgument)
                && recorded(*final(error), field@ + " is not UTF-8: "@ + fault@),
            HostText::Text(value) => r == Ok::<String, Status>(value) && final(error).kept() == old(
                error,
            ).kept(),
        },
{
    match given {
        HostText::Null => {
            let mut message = field.to_owned();
            message.append(" must be non-null");
            Err(error.fail(Status::NullArgument, message.as_str()))
        },
        HostText::NotUtf8(fault) => {
            let mut message = field.to_owned();
            message.append(" is not UTF-8: ");
            message.append(fault.as_str());
            Err(error.fail(Status::InvalidArgument, message.as_str()))
        },
        HostText::Text(value) => Ok(value),
    }
}

/// The generator that a host names when it opens a world, or why it named none.
pub fn requested_generator(
    error: &mut LastError,
    has_config: bool,
    has_out_handle: bool,
    generator: HostText,
) -> (r: Result<String, Status>)
    ensures
        if !has_config || !has_out_handle {
            r == Err::<String, Status>(Status::NullArgument) && recorded(
                *final(error),
                "config and out_handle must be non-null"@,
            )
        } else {
            match generator {
                HostText::Null => r == Err::<String, Status>(Status::NullArgument) && recorded(
                    *final(error),
                    "generator"@ + " must be non-null"@,
                ),
                HostText::NotUtf8(fault) => r == Err::<String, Status>(Status::InvalidArgument)
                    && recorded(*final(error), "generator"@ + " is not UTF-8: "@ + fault@),
                HostText::Text(value) => r == Ok::<String, Status>(value) && final(error).kept()
                    == old(error).kept(),
            }
        },
{
    if !has_config || !has_out_handle {
        return Err(error.fail(Status::NullArgument, "config and out_handle must be non-null"));
    }
    cstr_to_str(error, generator, "generator")
}

/// What is said of a generator that is no identifier.
pub open spec fn malformed_words(generator: Seq<char>, fault: Seq<char>) -> Seq<char> {
    "generator "@ + text::quoted(generator) + " is not a valid identifier: "@ + fault
}

/// Answers a generator that is no identifier.
pub fn reject_generator(error: &mut LastError, generator: &str, fault: &str) -> (r: Status)
    ensures
        r == Status::InvalidArgument,
        recorded(*final(error), malformed_words(generator@, fault@)),
{
    let mut message = "generator ".to_owned();
    message.append(text::quote(generator).as_str());
    message.append(" is not a valid identifier: ");
    message.append(fault);
    error.fail(Status::InvalidArgument, message.as_str())
}

/// Answers the opening of a world: its handle, or why there is none.
pub fn swg_world_open<W>(
    worlds: &mut HandleTable<W>,
    error: &mut LastError,
    opened: Result<W, String>,
) -> (r: Result<u64, Status>)
    requires
        old(worlds).well_formed(),
        old(worlds).next() < u64::MAX,
    ensures
        final(worlds).well_formed(),
        match opened {
            Ok(world) => {
                &&& r == Ok::<u64, Status>(old(worlds).next())
                &&& final(worlds).next() == old(worlds).next() + 1
                &&& final(worlds).entries() == old(worlds).entries().insert(
                    old(worlds).next(),
                    (crate::ffi::handle::Entry { world, poisoned: false }),
                )
                &&& final(error).kept() == old(error).kept()
            },
            Err(message) => {
                &&& r == Err::<u64, Status>(Status::GeneratorRejected)
                &&& final(worlds).entries() == old(worlds).entries()
                &&& final(worlds).next() == old(worlds).next()
                &&& recorded(*final(error), message@)
            },
        },
{
    match opened {
        Ok(world) => Ok(worlds.insert(world)),
        Err(message) => Err(error.fail(Status::GeneratorRejected, message.as_str())),
    }
}

/// Closes a world handle.
///
/// Closing an unknown handle is an error, so that closing twice surfaces.
pub fn swg_world_close<W>(worlds: &mut HandleTable<W>, error: &mut LastError, world: u64) -> (r:
    Status)
    requires
        old(worlds).well_formed(),
    ensures
        final(worlds).well_formed(),
        final(worlds).next() == old(worlds).next(),
        final(worlds).entries() == old(worlds).entries().remove(world),
        if old(worlds).entries().contains_key(world) {
            r == Status::Success && final(error).kept() == old(error).kept()
        } else {
            r == Status::InvalidHandle && recorded(
                *final(error),
                "world handle "@ + text::decimal(world as nat) + " is unknown"@,
            )
        },
{
    if worlds.remove(world) {
        return Status::Success;
    }
    let mut message = "world handle ".to_owned();
    text::push_decimal(&mut message, world);
    message.append(" is unknown");
    error.fail(Status::InvalidHandle, message.as_str())
}

// ---------------------------------------------------------------------------
// Generating
// ---------------------------------------------------------------------------
/// What a host asks to be generated.
#[derive(Debug, Clone, Copy)]
pub struct BatchRequest {
    pub world: u64,
    pub has_positions: bool,
    pub has_out_len: bool,
    pub count: usize,
    pub target_status: u32,
}

/// Why a request is refused before anything is generated, or `None`.
pub open spec fn refusal<W>(
    worlds: HandleTable<W>,
    request: BatchRequest,
    status_count: int,
) -> Option<(Status, Seq<char>)> {
    if !request.has_positions || !request.has_out_len {
        Some((Status::NullArgument, "positions and out_len must be non-null"@))
    } else if request.count == 0 {
        Some((Status::InvalidArgument, "count must be non-zero"@))
    } else if request.target_status >= status_count {
        Some(
            (
                Status::InvalidArgument,
                "unknown chunk status "@ + text::decimal(request.target_status as nat),
            ),
        )
    } else if worlds.usable(request.world) is None {
        Some(
            (
                Status::InvalidHandle,
                "world handle "@ + text::decimal(request.world as nat) + " is unknown or poisoned"@,
            ),
        )
    } else {
        None
    }
}

/// Admits a request to generate chunks: the world to do it in and the index of
/// the status to reach, out of `status_count`.
pub fn admit_batch<'a, W>(
    worlds: &'a HandleTable<W>,
    error: &mut LastError,
    request: &BatchRequest,
    status_count: usize,
) -> (r: Result<(&'a W, usize), Status>)
    ensures
        match refusal(*worlds, *request, status_count as int) {
            Some((status, message)) => r == Err::<(&W, usize), Status>(status) && recorded(
                *final(error),
                message,
            ),
            None => r is Ok && worlds.usable(request.world) == Some(*(r->Ok_0.0)) && r->Ok_0.1
                == request.target_status && final(error).kept() == old(error).kept(),
        },
{
    if !request.has_positions || !request.has_out_len {
        return Err(error.fail(Status::NullArgument, "positions and out_len must be non-null"));
    }
    if request.count == 0 {
        return Err(error.fail(Status::InvalidArgument, "count must be non-zero"));
    }
    let target: usize = request.target_status as usize;
    if target >= status_count {
        let mut message = "unknown chunk status ".to_owned();
        text::push_decimal(&mut message, request.target_status as u64);
        return Err(error.fail(Status::InvalidArgument, message.as_str()));
    }
    match worlds.get(request.world) {
        Some(world) => Ok((world, target)),
        None => {
            let mut message = "world handle ".to_owned();
            text::push_decimal(&mut message, request.world);
            message.append(" is unknown or poisoned");
            Err(error.fail(Status::InvalidHandle, message.as_str()))
        },
    }
}

/// How generating a batch went.
#[derive(Debug)]
pub enum Generated {
    /// A snapshot of so many bytes.
    Snapshot(usize),
    /// Why there is no snapshot.
    Failed(String),
    /// Generation panicked with this message.
    Panicked(String),
}

/// What a host gets back.
#[derive(Debug, Clone, Copy, PartialEq, Eq, Structural)]
pub struct BatchReply {
    pub status: Status,
    /// How many bytes the snapshot has, if there is one.
    pub needed: Option<usize>,
}

/// The message of content that cannot be represented holds this.
pub const NO_ENTRY: &'static str = "no registry entry";

/// The status of a snapshot that could not be made.
///
/// A block or biome that cannot be represented is the host's cue to keep the
/// chunk itself rather than accept a lossy substitute, so it gets its own
/// status.
pub open spec fn failure_status(message: Seq<char>) -> Status {
    if text::occurs(message, NO_ENTRY@) {
        Status::UnrepresentableContent
    } else {
        Status::Internal
    }
}

/// What is said of a world that panicked.
pub open spec fn retired_words(world: u64, message: Seq<char>) -> Seq<char> {
    "generation panicked, world "@ + text::decimal(world as nat) + " retired: "@ + message
}

/// What is said of a buffer that is too small.
pub open spec fn short_words(needed: int, capacity: int) -> Seq<char> {
    "snapshot needs "@ + text::decimal(needed as nat) + " bytes, buffer holds "@ + text::decimal(
        capacity as nat,
    )
}

/// Answers a batch.
///
/// The required size is reported whenever there is a snapshot, so passing no
/// buffer or a short one is the way to size one. The snapshot is to be copied
/// to the buffer exactly where the reply is a success.
pub fn swg_generate_batch<W>(
    worlds: &mut HandleTable<W>,
    error: &mut LastError,
    world: u64,
    generated: Generated,
    has_out: bool,
    out_capacity: usize,
) -> (r: BatchReply)
    requires
        old(worlds).well_formed(),
    ensures
        final(worlds).well_formed(),
        final(worlds).next() == old(worlds).next(),
        final(worlds).entries() == if generated is Panicked && old(
            worlds,
        ).entries().contains_key(world) {
            old(worlds).entries().insert(
                world,
                (crate::ffi::handle::Entry {
                    world: old(worlds).entries()[world].world,
                    poisoned: true,
                }),
            )
        } else {
            old(worlds).entries()
        },
        match generated {
            Generated::Snapshot(length) => r.needed == Some(length) && if has_out && out_capacity
                >= length {
                r.status == Status::Success && final(error).kept() == old(error).kept()
            } else {
                r.status == Status::BufferTooSmall && recorded(
                    *final(error),
                    short_words(length as int, out_capacity as int),
                )
            },
            Generated::Failed(message) => r.needed is None && r.status == failure_status(message@)
                && recorded(*final(error), message@),
            Generated::Panicked(message) => r.needed is None && r.status == Status::Panicked
                && recorded(*final(error), retired_words(world, message@)),
        },
{
    match generated {
        Generated::Snapshot(length) => {
            if has_out && out_capacity >= length {
                return BatchReply { status: Status::Success, needed: Some(length) };
            }
            let mut message = "snapshot needs ".to_owned();
            text::push_decimal(&mut message, length as u64);
            message.append(" bytes, buffer holds ");
            text::push_decimal(&mut message, out_capacity as u64);
            let status = error.fail(Status::BufferTooSmall, message.as_str());
            BatchReply { status, needed: Some(length) }
        },
        Generated::Failed(message) => {
            let status = if text::contains_text(message.as_str(), NO_ENTRY) {
                Status::UnrepresentableContent
            } else {
                Status::Internal
            };
            let status = error.fail(status, message.as_str());
            BatchReply { status, needed: None }
        },
        Generated::Panicked(cause) => {
            worlds.poison(world);
            let mut message = "generation panicked, world ".to_owned();
            text::push_decimal(&mut message, world);
            message.append(" retired: ");
            message.append(cause.as_str());
            let status = error.fail(Status::Panicked, message.as_str());
            BatchReply { status, needed: None }
        },
    }
}

// ---------------------------------------------------------------------------
// Around every call
// ---------------------------------------------------------------------------
/// Best-effort text from a panic payload.
pub fn panic_message(payload: Option<String>) -> (r: String)
    ensures
        r@ == match payload {
            Some(message) => message@,
            None => "<non-string panic payload>"@,
        },
{
    match payload {
        Some(message) => message,
        None => "<non-string panic payload>".to_owned(),
    }
}

/// Ends a call: the code of its status, or that of a panic that got this far.
pub fn guard(error: &mut LastError, outcome: Result<Status, String>) -> (r: i32)
    ensures
        match outcome {
            Ok(status) => r == status::code_of(status) && final(error).kept() == old(error).kept(),
            Err(message) => r == status::code_of(Status::Panicked) && recorded(
                *final(error),
                "panic crossed the FFI boundary: "@ + message@,
            ),
        },
{
    match outcome {
        Ok(status) => status.code(),
        Err(cause) => {
            let mut message = "panic crossed the FFI boundary: ".to_owned();
            message.append(cause.as_str());
            error.fail(Status::Panicked, message.as_str()).code()
        },
    }
}

/// The message of the last call, if that failed.
pub fn swg_last_error(error: &LastError) -> (r: Option<&str>)
    ensures
        match r {
            None => error.kept() is None,
            Some(message) => error.kept() == Some(message@),
        },
{
    error.with_last_error()
}

// ---------------------------------------------------------------------------
// Laws
// ---------------------------------------------------------------------------
/// A refused request has a failing status.
pub proof fn refusals_are_failures<W>(
    worlds: HandleTable<W>,
    request: BatchRequest,
    status_count: int,
)
    ensures
        refusal(worlds, request, status_count) matches Some((status, message))
            ==> status::code_of(status) < 0,
{
}

/// A block state or biome without a name is answered as content that cannot be
/// represented, and a palette that is too large as an internal failure.
pub proof fn unnamed_content_is_told_apart(fault: SnapshotError)
    ensures
        failure_status(fault.spoken()) == if fault is PaletteOverflow {
            Status::Internal
        } else {
            Status::UnrepresentableContent
        },
{
    let words = fault.spoken();
    reveal_strlit("no registry entry");
    reveal_strlit("no registry entry for block state ");
    reveal_strlit("no registry entry for biome ");
    reveal_strlit("chunk palette exceeded u16");
    match fault {
        SnapshotError::PaletteOverflow => {
            assert forall|at: int| !#[trigger] text::occurs_at(words, NO_ENTRY@, at) by {
                if text::occurs_at(words, NO_ENTRY@, at) {
                    let part = words.subrange(at, at + NO_ENTRY@.len());
                    assert(part[3] == NO_ENTRY@[3] && part[3] == words[at + 3]);
                }
            }
        },
        _ => {
            assert(words.subrange(0, NO_ENTRY@.len() as int) =~= NO_ENTRY@);
            assert(text::occurs_at(words, NO_ENTRY@, 0));
        },
    }
}

/// A world in which generation panicked takes no further request, and closing
/// it once succeeds while closing it again does not.
pub proof fn a_panicked_world_is_retired<W>(
    before: HandleTable<W>,
    after: HandleTable<W>,
    request: BatchRequest,
    status_count: int,
)
    requires
        before.entries().contains_key(request.world),
        after.entries() == before.entries().insert(
            request.world,
            (crate::ffi::handle::Entry {
                world: before.entries()[request.world].world,
                poisoned: true,
            }),
        ),
    ensures
        refusal(after, request, status_count) is Some,
        after.entries().contains_key(request.world),
        !after.entries().remove(request.world).contains_key(request.world),
{
}

} // verus!
