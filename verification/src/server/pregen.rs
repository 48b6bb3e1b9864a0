//! Startup pregeneration for the server default world: how large the area is,
//! how it is windowed, and how deep the pipeline may go.

use crate::pos;
use crate::pos::{block_to_section_coord, ChunkPos};
use crate::text;
use crate::text::{parse_i32, parse_usize, push_decimal, push_signed};
use vstd::prelude::*;

verus! {

pub const PREGEN_SIZE_ENV: &'static str = "PREGEN_SIZE";

pub const PREGEN_WINDOW_SIZE_ENV: &'static str = "PREGEN_WINDOW_SIZE";

pub const PREGEN_ACTIVE_WINDOWS_ENV: &'static str = "PREGEN_ACTIVE_WINDOWS";

pub const PREGEN_UNLOAD_BACKPRESSURE_ENV: &'static str = "PREGEN_UNLOAD_BACKPRESSURE";

pub const VANILLA_PLAYER_SPAWN_SIZE_CHUNKS: i32 = 7;

pub const DEFAULT_PREGEN_WINDOW_SIZE: i32 = 32;

/// How many windows may be generating at once, on any machine.
///
/// This is the pregeneration pipeline's depth. Each window is
/// `window_size * window_size` target chunks, and a new one is admitted only as
/// an active one finishes, so this bounds both how much work the generation
/// threads can see at any moment and how much world is resident at once.
pub const DEFAULT_PREGEN_ACTIVE_WINDOWS: usize = 16;

/// Pipeline depth taken instead when the machine has memory to spare.
pub const DEEP_PREGEN_ACTIVE_WINDOWS: usize = 32;

/// The windows that the deep pipeline has over the floor.
pub const EXTRA_WINDOWS: u64 = 16;

/// Peak resident memory attributable to one extra in-flight target chunk.
pub const PREGEN_IN_FLIGHT_CHUNK_BYTES: u64 = 262144;

/// Share of available memory the deeper pipeline is allowed to project into.
///
/// The deep pipeline is taken only when its projected extra working set is at
/// most a quarter of what is available.
pub const PREGEN_DEEP_PIPELINE_MEMORY_DIVISOR: u64 = 4;

/// Unload backlog at which window activation pauses, at the least.
pub const DEFAULT_PREGEN_UNLOAD_BACKPRESSURE_HIGH: usize = 65536;

pub open spec fn least(a: int, b: int) -> int {
    if a <= b {
        a
    } else {
        b
    }
}

pub open spec fn most(a: int, b: int) -> int {
    if a >= b {
        a
    } else {
        b
    }
}

// ---------------------------------------------------------------------------
// Watermarks and depth
// ---------------------------------------------------------------------------
/// The default watermark for a depth: twice its in-flight chunks at the default
/// window size, and the floor at the least.
pub open spec fn default_high(active_windows: int) -> int {
    most(least(2048 * active_windows, usize::MAX as int), 65536)
}

fn saturating_product(a: usize, b: usize) -> (r: usize)
    ensures
        r == least(a * b, usize::MAX as int),
{
    match a.checked_mul(b) {
        Some(product) => product,
        None => usize::MAX,
    }
}

fn saturating_product_u64(a: u64, b: u64) -> (r: u64)
    ensures
        r == least(a * b, u64::MAX as int),
{
    match a.checked_mul(b) {
        Some(product) => product,
        None => u64::MAX,
    }
}

/// Unload backlog watermark that leaves the configured pipeline room to run.
///
/// Deeper pipelines retain more finished-window halo, so a watermark that could
/// not move with depth would silently cap how deep the pipeline may go.
pub fn default_pregen_unload_backpressure_high(active_windows: usize) -> (r: usize)
    ensures
        r == default_high(active_windows as int),
{
    let in_flight_floor: usize = saturating_product(1024, active_windows);
    let doubled: usize = saturating_product(in_flight_floor, 2);
    if doubled >= DEFAULT_PREGEN_UNLOAD_BACKPRESSURE_HIGH {
        doubled
    } else {
        DEFAULT_PREGEN_UNLOAD_BACKPRESSURE_HIGH
    }
}

#[derive(Clone, Copy, Debug, PartialEq, Eq, Structural)]
pub struct UnloadBackpressure {
    pub high: usize,
    pub low: usize,
}

impl UnloadBackpressure {
    pub fn from_high(high: usize) -> (r: Self)
        ensures
            r == (UnloadBackpressure { high, low: (high / 2) as usize }),
    {
        UnloadBackpressure { high, low: high / 2 }
    }
}

/// The pipeline depth a pregeneration will run at, and what decided it.
#[derive(Clone, Copy, Debug, PartialEq, Eq, Structural)]
pub struct PregenDepth {
    pub active_windows: usize,
    pub basis: PregenDepthBasis,
}

#[derive(Clone, Copy, Debug, PartialEq, Eq, Structural)]
pub enum PregenDepthBasis {
    /// The depth was set explicitly; nothing else was consulted.
    Explicit,
    /// Available memory covers the deeper pipeline's projected extra chunks.
    MemoryHeadroom { available_bytes: u64, projected_extra_bytes: u64 },
    /// It does not, so the floor depth stands.
    MemoryTight { available_bytes: u64, projected_extra_bytes: u64 },
    /// No way to read available memory here, so assume there is none to spare.
    MemoryUnknown,
    /// The deeper pipeline would not fit the unload-backpressure watermark.
    BudgetTooTight { watermark: usize },
}

/// How a window size and depth stand to a watermark.
#[derive(Clone, Copy, Debug, PartialEq, Eq, Structural)]
pub enum WindowBudget {
    Fits,
    /// The number of in-flight chunks is no machine number.
    TooLarge,
    /// The in-flight chunks exceed the watermark.
    Exceeded,
}

/// How `active_windows` windows of side `window_size` stand to a watermark.
pub open spec fn budget_of(window_size: int, active_windows: int, high: int) -> WindowBudget {
    if window_size < 0 || window_size * window_size > usize::MAX || window_size * window_size
        * active_windows > usize::MAX {
        WindowBudget::TooLarge
    } else if window_size * window_size * active_windows > high {
        WindowBudget::Exceeded
    } else {
        WindowBudget::Fits
    }
}

fn window_budget(window_size: i32, active_windows: usize, high: usize) -> (r: WindowBudget)
    ensures
        r == budget_of(window_size as int, active_windows as int, high as int),
{
    if window_size < 0 {
        return WindowBudget::TooLarge;
    }
    let side: usize = window_size as usize;
    match side.checked_mul(side) {
        None => WindowBudget::TooLarge,
        Some(chunks) => match chunks.checked_mul(active_windows) {
            None => WindowBudget::TooLarge,
            Some(in_flight) => if in_flight > high {
                WindowBudget::Exceeded
            } else {
                WindowBudget::Fits
            },
        },
    }
}

/// The words for a budget that does not fit.
pub open spec fn budget_error(
    budget: WindowBudget,
    window_size: int,
    active_windows: int,
    high: int,
) -> Seq<char> {
    match budget {
        WindowBudget::TooLarge =>
            "PREGEN_WINDOW_SIZE is too large for the pregeneration window budget"@,
        _ => "PREGEN_WINDOW_SIZE of "@ + text::signed_decimal(window_size) + " must keep "@
            + text::decimal(active_windows as nat) + " active windows within the "@ + text::decimal(
            high as nat,
        )
            + "-chunk unload-backpressure budget (raise PREGEN_UNLOAD_BACKPRESSURE to allow a deeper pipeline)"@,
    }
}

/// Rejects window/depth pairs whose in-flight chunks exceed the unload budget.
///
/// Active windows keep their tickets until their dependency halo is no longer
/// needed, so window area times pipeline depth bounds how many chunks can be
/// waiting to unload. Exceeding the high watermark would make backpressure
/// engage permanently and stall window activation outright.
pub fn check_pregen_window_budget(
    window_size: i32,
    active_windows: usize,
    backpressure: UnloadBackpressure,
) -> (r: Result<i32, String>)
    ensures
        ({
            let budget = budget_of(
                window_size as int,
                active_windows as int,
                backpressure.high as int,
            );
            match r {
                Ok(size) => budget is Fits && size == window_size,
                Err(error) => !(budget is Fits) && error@ == budget_error(
                    budget,
                    window_size as int,
                    active_windows as int,
                    backpressure.high as int,
                ),
            }
        }),
{
    match window_budget(window_size, active_windows, backpressure.high) {
        WindowBudget::Fits => Ok(window_size),
        WindowBudget::TooLarge => Err(
            "PREGEN_WINDOW_SIZE is too large for the pregeneration window budget".to_owned(),
        ),
        WindowBudget::Exceeded => {
            let mut error = "PREGEN_WINDOW_SIZE of ".to_owned();
            push_signed(&mut error, window_size as i64);
            error.append(" must keep ");
            push_decimal(&mut error, active_windows as u64);
            error.append(" active windows within the ");
            push_decimal(&mut error, backpressure.high as u64);
            error.append(
                "-chunk unload-backpressure budget (raise PREGEN_UNLOAD_BACKPRESSURE to allow a deeper pipeline)",
            );
            Err(error)
        },
    }
}

/// The extra memory that the deep pipeline is projected to hold. A window size
/// that cannot be a chunk count projects an unaffordable working set rather
/// than a free one.
pub open spec fn projected_extra(window_size: int) -> int {
    if window_size < 0 {
        u64::MAX as int
    } else {
        least(window_size * window_size * 16 * 262144, u64::MAX as int)
    }
}

/// The watermark that the deep pipeline has to fit.
pub open spec fn deep_watermark(backpressure_high: Option<usize>) -> usize {
    match backpressure_high {
        Some(high) => high,
        None => default_high(32) as usize,
    }
}

/// The depth that what the machine can afford decides: the deep one where it
/// fits the watermark and four times its projection is available.
pub open spec fn chosen_depth(
    available_bytes: Option<u64>,
    window_size: int,
    backpressure_high: Option<usize>,
) -> PregenDepth {
    let watermark = deep_watermark(backpressure_high);
    if !(budget_of(window_size, 32, watermark as int) is Fits) {
        PregenDepth {
            active_windows: 16,
            basis: PregenDepthBasis::BudgetTooTight { watermark },
        }
    } else {
        match available_bytes {
            None => PregenDepth { active_windows: 16, basis: PregenDepthBasis::MemoryUnknown },
            Some(available_bytes) => {
                let projected_extra_bytes = projected_extra(window_size) as u64;
                if projected_extra_bytes * 4 <= available_bytes {
                    PregenDepth {
                        active_windows: 32,
                        basis: PregenDepthBasis::MemoryHeadroom {
                            available_bytes,
                            projected_extra_bytes,
                        },
                    }
                } else {
                    PregenDepth {
                        active_windows: 16,
                        basis: PregenDepthBasis::MemoryTight {
                            available_bytes,
                            projected_extra_bytes,
                        },
                    }
                }
            },
        }
    }
}

/// Picks the pipeline depth from what the machine can afford.
///
/// Depth is bought with resident memory: every extra in-flight window is
/// `window_size^2` more chunks that cannot unload yet. So this projects the
/// extra working set and takes the deeper pipeline only when it is a quarter of
/// `available_bytes` or less.
///
/// `backpressure_high` is the watermark that the operator pinned, if any: the
/// automatic choice must not be able to turn a working configuration into a
/// startup failure.
pub fn choose_pregen_active_windows(
    available_bytes: Option<u64>,
    window_size: i32,
    backpressure_high: Option<usize>,
) -> (r: PregenDepth)
    ensures
        r == chosen_depth(available_bytes, window_size as int, backpressure_high),
{
    let watermark: usize = match backpressure_high {
        Some(high) => high,
        None => default_pregen_unload_backpressure_high(DEEP_PREGEN_ACTIVE_WINDOWS),
    };
    let budget = window_budget(window_size, DEEP_PREGEN_ACTIVE_WINDOWS, watermark);
    if budget != WindowBudget::Fits {
        return PregenDepth {
            active_windows: DEFAULT_PREGEN_ACTIVE_WINDOWS,
            basis: PregenDepthBasis::BudgetTooTight { watermark },
        };
    }
    let available_bytes: u64 = match available_bytes {
        Some(bytes) => bytes,
        None => {
            return PregenDepth {
                active_windows: DEFAULT_PREGEN_ACTIVE_WINDOWS,
                basis: PregenDepthBasis::MemoryUnknown,
            };
        },
    };
    let side: u64 = window_size as u64;
    let window_area: u64 = saturating_product_u64(side, side);
    proof {
        assert(window_size * window_size <= 0x7fff_ffff * 0x7fff_ffff) by (nonlinear_arith)
            requires
                0 <= window_size <= 0x7fff_ffff,
        ;
    }
    let projected_extra_bytes: u64 = saturating_product_u64(
        saturating_product_u64(window_area, EXTRA_WINDOWS),
        PREGEN_IN_FLIGHT_CHUNK_BYTES,
    );
    if projected_extra_bytes <= available_bytes / PREGEN_DEEP_PIPELINE_MEMORY_DIVISOR {
        PregenDepth {
            active_windows: DEEP_PREGEN_ACTIVE_WINDOWS,
            basis: PregenDepthBasis::MemoryHeadroom { available_bytes, projected_extra_bytes },
        }
    } else {
        PregenDepth {
            active_windows: DEFAULT_PREGEN_ACTIVE_WINDOWS,
            basis: PregenDepthBasis::MemoryTight { available_bytes, projected_extra_bytes },
        }
    }
}

/// Every depth fits the watermark it derives, at the default window size, as
/// long as its in-flight chunks are a machine number.
pub proof fn any_depth_fits_its_own_watermark(depth: int)
    requires
        0 <= depth,
        1024 * depth <= usize::MAX,
    ensures
        budget_of(32, depth, default_high(depth)) is Fits,
{
}

/// The automatic depth always fits the watermark that applies to it, where the
/// floor depth does: choosing a depth cannot make startup fail.
pub proof fn the_automatic_depth_never_breaks_the_budget(
    available_bytes: Option<u64>,
    window_size: int,
    backpressure_high: Option<usize>,
)
    requires
        ({
            let high = match backpressure_high {
                Some(high) => high as int,
                None => default_high(16),
            };
            budget_of(window_size, 16, high) is Fits
        }),
    ensures
        ({
            let depth = chosen_depth(available_bytes, window_size, backpressure_high);
            let high = match backpressure_high {
                Some(high) => high as int,
                None => default_high(depth.active_windows as int),
            };
            budget_of(window_size, depth.active_windows as int, high) is Fits
        }),
{
}

/// More available memory never makes the automatic pipeline shallower.
pub proof fn more_memory_never_makes_it_shallower(
    less: u64,
    more: u64,
    window_size: int,
    backpressure_high: Option<usize>,
)
    requires
        less <= more,
    ensures
        chosen_depth(None, window_size, backpressure_high).active_windows <= chosen_depth(
            Some(less),
            window_size,
            backpressure_high,
        ).active_windows,
        chosen_depth(Some(less), window_size, backpressure_high).active_windows <= chosen_depth(
            Some(more),
            window_size,
            backpressure_high,
        ).active_windows,
{
}

// ---------------------------------------------------------------------------
// Describing the depth
// ---------------------------------------------------------------------------
/// Bytes in whole mebibytes, in decimal.
pub open spec fn mib_text(bytes: int) -> Seq<char> {
    text::decimal((bytes / 1048576) as nat)
}

/// The words for a depth choice.
pub open spec fn depth_words(depth: PregenDepth) -> Seq<char> {
    let start = "depth "@ + text::decimal(depth.active_windows as nat);
    match depth.basis {
        PregenDepthBasis::Explicit => start
            + " windows, set explicitly by PREGEN_ACTIVE_WINDOWS"@,
        PregenDepthBasis::MemoryHeadroom { available_bytes, projected_extra_bytes } => start
            + " windows: its extra in-flight chunks project "@ + mib_text(
            projected_extra_bytes as int,
        ) + " MiB against "@ + mib_text(available_bytes as int)
            + " MiB available to this process (MemAvailable, capped by any cgroup memory limit), clearing the 4x margin required to deepen (set PREGEN_ACTIVE_WINDOWS=16 to keep the resident set down instead)"@,
        PregenDepthBasis::MemoryTight { available_bytes, projected_extra_bytes } => start
            + " windows: 32 would project "@ + mib_text(projected_extra_bytes as int)
            + " MiB of extra in-flight chunks, which wants "@ + mib_text(
            least(projected_extra_bytes * 4, u64::MAX as int),
        ) + " MiB available and this process has "@ + mib_text(available_bytes as int)
            + " MiB (MemAvailable, capped by any cgroup memory limit)"@,
        PregenDepthBasis::MemoryUnknown => start
            + " windows: available memory cannot be read here -- no readable MemAvailable, or a cgroup memory limit applies whose numbers could not be read -- so the deeper 32-window pipeline is not assumed to fit"@,
        PregenDepthBasis::BudgetTooTight { watermark } => start
            + " windows: 32 would not fit the "@ + text::decimal(watermark as nat)
            + "-chunk unload-backpressure watermark"@,
    }
}

fn push_mib(out: &mut String, bytes: u64)
    ensures
        final(out)@ == old(out)@ + mib_text(bytes as int),
{
    push_decimal(out, bytes / 1048576);
}

/// Describes a depth choice the way an operator debugging memory needs it.
pub fn describe_pregen_depth(depth: PregenDepth) -> (r: String)
    ensures
        r@ == depth_words(depth),
{
    let mut words = "depth ".to_owned();
    push_decimal(&mut words, depth.active_windows as u64);
    match depth.basis {
        PregenDepthBasis::Explicit => {
            words.append(" windows, set explicitly by PREGEN_ACTIVE_WINDOWS");
        },
        PregenDepthBasis::MemoryHeadroom { available_bytes, projected_extra_bytes } => {
            words.append(" windows: its extra in-flight chunks project ");
            push_mib(&mut words, projected_extra_bytes);
            words.append(" MiB against ");
            push_mib(&mut words, available_bytes);
            words.append(
                " MiB available to this process (MemAvailable, capped by any cgroup memory limit), clearing the 4x margin required to deepen (set PREGEN_ACTIVE_WINDOWS=16 to keep the resident set down instead)",
            );
        },
        PregenDepthBasis::MemoryTight { available_bytes, projected_extra_bytes } => {
            words.append(" windows: 32 would project ");
            push_mib(&mut words, projected_extra_bytes);
            words.append(" MiB of extra in-flight chunks, which wants ");
            push_mib(
                &mut words,
                saturating_product_u64(projected_extra_bytes, PREGEN_DEEP_PIPELINE_MEMORY_DIVISOR),
            );
            words.append(" MiB available and this process has ");
            push_mib(&mut words, available_bytes);
            words.append(" MiB (MemAvailable, capped by any cgroup memory limit)");
        },
        PregenDepthBasis::MemoryUnknown => {
            words.append(
                " windows: available memory cannot be read here -- no readable MemAvailable, or a cgroup memory limit applies whose numbers could not be read -- so the deeper 32-window pipeline is not assumed to fit",
            );
        },
        PregenDepthBasis::BudgetTooTight { watermark } => {
            words.append(" windows: 32 would not fit the ");
            push_decimal(&mut words, watermark as u64);
            words.append("-chunk unload-backpressure watermark");
        },
    }
    words
}

// ---------------------------------------------------------------------------
// Settings
// ---------------------------------------------------------------------------
/// The value of an environment variable.
pub enum EnvValue {
    NotPresent,
    Text(String),
    NotUnicode,
}

#[derive(Clone, Copy, Debug, PartialEq, Eq, Structural)]
pub struct PregenSize {
    pub side_length: i32,
    pub radius: i32,
}

/// The area of a side length: none for zero; for a positive odd number the
/// area around a single center chunk; else the error's words.
pub open spec fn size_of(side_length: int) -> Result<Option<PregenSize>, Seq<char>> {
    if side_length == 0 {
        Ok(None)
    } else if side_length < 0 {
        Err("PREGEN_SIZE must be 0 or a positive odd integer"@)
    } else if side_length % 2 == 0 {
        Err("PREGEN_SIZE must be odd so the area has a single center chunk"@)
    } else {
        Ok(
            Some(
                PregenSize { side_length: side_length as i32, radius: (side_length / 2) as i32 },
            ),
        )
    }
}

/// A result is the one that is stated, its error by its words.
pub open spec fn as_stated<T>(r: Result<T, String>, stated: Result<T, Seq<char>>) -> bool {
    match (r, stated) {
        (Ok(a), Ok(b)) => a == b,
        (Err(a), Err(b)) => a@ == b,
        _ => false,
    }
}

impl PregenSize {
    pub fn from_side_length(side_length: i32) -> (r: Result<Option<PregenSize>, String>)
        ensures
            as_stated(r, size_of(side_length as int)),
    {
        if side_length == 0 {
            return Ok(None);
        }
        if side_length < 0 {
            return Err("PREGEN_SIZE must be 0 or a positive odd integer".to_owned());
        }
        if side_length % 2 == 0 {
            return Err(
                "PREGEN_SIZE must be odd so the area has a single center chunk".to_owned(),
            );
        }
        Ok(Some(PregenSize { side_length, radius: side_length / 2 }))
    }
}

/// The area that the setting asks for; none where it is not set.
pub open spec fn size_setting(value: EnvValue) -> Result<Option<PregenSize>, Seq<char>> {
    match value {
        EnvValue::NotPresent => Ok(None),
        EnvValue::NotUnicode => Err("PREGEN_SIZE must be valid unicode"@),
        EnvValue::Text(words) => match text::parsed_signed(
            words@,
            i32::MIN as int,
            i32::MAX as int,
        ) {
            Ok(side_length) => size_of(side_length),
            Err(fault) => Err(
                "PREGEN_SIZE must be 0 or a positive odd integer: "@ + text::fault_words(fault),
            ),
        },
    }
}

fn with_fault(words: &str, fault: text::IntFault) -> (r: String)
    ensures
        r@ == words@ + text::fault_words(fault),
{
    let mut error = words.to_owned();
    error.append(fault.words());
    error
}

pub fn get_pregen_size(value: &EnvValue) -> (r: Result<Option<PregenSize>, String>)
    ensures
        as_stated(r, size_setting(*value)),
{
    match value {
        EnvValue::NotPresent => Ok(None),
        EnvValue::NotUnicode => Err("PREGEN_SIZE must be valid unicode".to_owned()),
        EnvValue::Text(words) => match parse_i32(words.as_str()) {
            Ok(side_length) => PregenSize::from_side_length(side_length),
            Err(fault) => Err(
                with_fault("PREGEN_SIZE must be 0 or a positive odd integer: ", fault),
            ),
        },
    }
}

/// The watermark that the operator pinned; none where it is not set.
pub open spec fn backpressure_setting(value: EnvValue) -> Result<Option<usize>, Seq<char>> {
    match value {
        EnvValue::NotPresent => Ok(None),
        EnvValue::NotUnicode => Err("PREGEN_UNLOAD_BACKPRESSURE must be valid unicode"@),
        EnvValue::Text(words) => match text::parsed_unsigned(words@, usize::MAX as int) {
            Ok(high) => if high < 2 {
                Err("PREGEN_UNLOAD_BACKPRESSURE must be at least 2"@)
            } else {
                Ok(Some(high as usize))
            },
            Err(fault) => Err(
                "PREGEN_UNLOAD_BACKPRESSURE must be a positive integer: "@ + text::fault_words(
                    fault,
                ),
            ),
        },
    }
}

/// Reads an operator-pinned unload watermark, `None` if they pinned none.
///
/// Returned unresolved so the depth choice can see whether the watermark is
/// fixed; the default is only known once a depth has been picked.
pub fn get_pregen_unload_backpressure_override(value: &EnvValue) -> (r: Result<
    Option<usize>,
    String,
>)
    ensures
        as_stated(r, backpressure_setting(*value)),
{
    match value {
        EnvValue::NotPresent => Ok(None),
        EnvValue::NotUnicode => Err("PREGEN_UNLOAD_BACKPRESSURE must be valid unicode".to_owned()),
        EnvValue::Text(words) => match parse_usize(words.as_str()) {
            Ok(high) => if high < 2 {
                Err("PREGEN_UNLOAD_BACKPRESSURE must be at least 2".to_owned())
            } else {
                Ok(Some(high))
            },
            Err(fault) => Err(
                with_fault("PREGEN_UNLOAD_BACKPRESSURE must be a positive integer: ", fault),
            ),
        },
    }
}

/// A depth in text.
pub open spec fn depth_text(words: Seq<char>) -> Result<usize, Seq<char>> {
    match text::parsed_unsigned(words, usize::MAX as int) {
        Ok(depth) => if depth == 0 {
            Err("PREGEN_ACTIVE_WINDOWS must be a positive integer"@)
        } else {
            Ok(depth as usize)
        },
        Err(fault) => Err(
            "PREGEN_ACTIVE_WINDOWS must be a positive integer: "@ + text::fault_words(fault),
        ),
    }
}

pub fn parse_pregen_active_windows(value: &str) -> (r: Result<usize, String>)
    ensures
        as_stated(r, depth_text(value@)),
{
    match parse_usize(value) {
        Ok(depth) => if depth == 0 {
            Err("PREGEN_ACTIVE_WINDOWS must be a positive integer".to_owned())
        } else {
            Ok(depth)
        },
        Err(fault) => Err(
            with_fault("PREGEN_ACTIVE_WINDOWS must be a positive integer: ", fault),
        ),
    }
}

/// The depth that the setting pins, or the automatic choice where it is not
/// set.
pub open spec fn depth_setting(
    value: EnvValue,
    available_bytes: Option<u64>,
    window_size: int,
    backpressure_high: Option<usize>,
) -> Result<PregenDepth, Seq<char>> {
    match value {
        EnvValue::NotPresent => Ok(chosen_depth(available_bytes, window_size, backpressure_high)),
        EnvValue::NotUnicode => Err("PREGEN_ACTIVE_WINDOWS must be valid unicode"@),
        EnvValue::Text(words) => match depth_text(words@) {
            Ok(active_windows) => Ok(
                PregenDepth { active_windows, basis: PregenDepthBasis::Explicit },
            ),
            Err(error) => Err(error),
        },
    }
}

/// The pinned depth, or the automatic choice from `available_bytes`.
pub fn get_pregen_active_windows(
    value: &EnvValue,
    available_bytes: Option<u64>,
    window_size: i32,
    backpressure_high: Option<usize>,
) -> (r: Result<PregenDepth, String>)
    ensures
        as_stated(
            r,
            depth_setting(*value, available_bytes, window_size as int, backpressure_high),
        ),
{
    match value {
        EnvValue::NotPresent => Ok(
            choose_pregen_active_windows(available_bytes, window_size, backpressure_high),
        ),
        EnvValue::NotUnicode => Err("PREGEN_ACTIVE_WINDOWS must be valid unicode".to_owned()),
        EnvValue::Text(words) => match parse_pregen_active_windows(words.as_str()) {
            Ok(active_windows) => Ok(
                PregenDepth { active_windows, basis: PregenDepthBasis::Explicit },
            ),
            Err(error) => Err(error),
        },
    }
}

/// A window size in text.
pub open spec fn window_text(words: Seq<char>) -> Result<i32, Seq<char>> {
    match text::parsed_signed(words, i32::MIN as int, i32::MAX as int) {
        Ok(size) => if size <= 0 {
            Err("PREGEN_WINDOW_SIZE must be a positive integer"@)
        } else {
            Ok(size as i32)
        },
        Err(fault) => Err(
            "PREGEN_WINDOW_SIZE must be a positive integer: "@ + text::fault_words(fault),
        ),
    }
}

pub fn parse_pregen_window_size(value: &str) -> (r: Result<i32, String>)
    ensures
        as_stated(r, window_text(value@)),
{
    match parse_i32(value) {
        Ok(size) => if size <= 0 {
            Err("PREGEN_WINDOW_SIZE must be a positive integer".to_owned())
        } else {
            Ok(size)
        },
        Err(fault) => Err(with_fault("PREGEN_WINDOW_SIZE must be a positive integer: ", fault)),
    }
}

/// The window size that the setting asks for, or the default.
pub open spec fn window_setting(value: EnvValue) -> Result<i32, Seq<char>> {
    match value {
        EnvValue::NotPresent => Ok(32),
        EnvValue::NotUnicode => Err("PREGEN_WINDOW_SIZE must be valid unicode"@),
        EnvValue::Text(words) => window_text(words@),
    }
}

/// Reads the requested window side length, before the budget check.
pub fn get_pregen_window_size(value: &EnvValue) -> (r: Result<i32, String>)
    ensures
        as_stated(r, window_setting(*value)),
{
    match value {
        EnvValue::NotPresent => Ok(DEFAULT_PREGEN_WINDOW_SIZE),
        EnvValue::NotUnicode => Err("PREGEN_WINDOW_SIZE must be valid unicode".to_owned()),
        EnvValue::Text(words) => parse_pregen_window_size(words.as_str()),
    }
}

// ---------------------------------------------------------------------------
// The whole plan
// ---------------------------------------------------------------------------
/// What a pregeneration pass will do.
#[derive(Clone, Copy, Debug, PartialEq, Eq, Structural)]
pub struct PregenPlan {
    pub size: PregenSize,
    pub window_size: i32,
    pub depth: PregenDepth,
    pub backpressure: UnloadBackpressure,
}

/// The settings of a pregeneration pass.
pub struct PregenSettings {
    pub size: EnvValue,
    pub window_size: EnvValue,
    pub unload_backpressure: EnvValue,
    pub active_windows: EnvValue,
}

pub open spec fn watermarks(high: int) -> UnloadBackpressure {
    UnloadBackpressure { high: high as usize, low: (high / 2) as usize }
}

/// The plan for an area at a window size and depth, if it fits the watermark
/// that applies.
pub open spec fn plan_at(
    size: PregenSize,
    window_size: int,
    depth: PregenDepth,
    backpressure_high: Option<usize>,
) -> Result<Option<PregenPlan>, Seq<char>> {
    let high = match backpressure_high {
        Some(high) => high as int,
        None => default_high(depth.active_windows as int),
    };
    let budget = budget_of(window_size, depth.active_windows as int, high);
    if budget is Fits {
        Ok(
            Some(
                PregenPlan {
                    size,
                    window_size: window_size as i32,
                    depth,
                    backpressure: watermarks(high),
                },
            ),
        )
    } else {
        Err(budget_error(budget, window_size, depth.active_windows as int, high))
    }
}

/// The plan that the settings make: none where no area is asked for. The first
/// setting at fault, in the order size, window, watermark, depth, budget, is
/// the one reported.
pub open spec fn plan_of(settings: PregenSettings, available_bytes: Option<u64>) -> Result<
    Option<PregenPlan>,
    Seq<char>,
> {
    match size_setting(settings.size) {
        Err(error) => Err(error),
        Ok(None) => Ok(None),
        Ok(Some(size)) => match window_setting(settings.window_size) {
            Err(error) => Err(error),
            Ok(window_size) => match backpressure_setting(settings.unload_backpressure) {
                Err(error) => Err(error),
                Ok(high) => match depth_setting(
                    settings.active_windows,
                    available_bytes,
                    window_size as int,
                    high,
                ) {
                    Err(error) => Err(error),
                    Ok(depth) => plan_at(size, window_size as int, depth, high),
                },
            },
        },
    }
}

fn make_plan(
    size: PregenSize,
    window_size: i32,
    depth: PregenDepth,
    backpressure_high: Option<usize>,
) -> (r: Result<Option<PregenPlan>, String>)
    ensures
        as_stated(r, plan_at(size, window_size as int, depth, backpressure_high)),
{
    let high: usize = match backpressure_high {
        Some(high) => high,
        None => default_pregen_unload_backpressure_high(depth.active_windows),
    };
    let backpressure = UnloadBackpressure::from_high(high);
    match check_pregen_window_budget(window_size, depth.active_windows, backpressure) {
        Ok(window_size) => Ok(Some(PregenPlan { size, window_size, depth, backpressure })),
        Err(error) => Err(error),
    }
}

/// Works out a startup pregeneration from its settings.
///
/// Window size before depth: the depth choice projects a working set from the
/// window area, and a pinned watermark has to be known before the depth so that
/// it constrains the automatic choice instead of being contradicted by it.
pub fn plan_spawn_area(settings: &PregenSettings, available_bytes: Option<u64>) -> (r: Result<
    Option<PregenPlan>,
    String,
>)
    ensures
        as_stated(r, plan_of(*settings, available_bytes)),
{
    let size = match get_pregen_size(&settings.size) {
        Ok(Some(size)) => size,
        Ok(None) => {
            return Ok(None);
        },
        Err(error) => {
            return Err(error);
        },
    };
    let window_size: i32 = match get_pregen_window_size(&settings.window_size) {
        Ok(window_size) => window_size,
        Err(error) => {
            return Err(error);
        },
    };
    let high = match get_pregen_unload_backpressure_override(&settings.unload_backpressure) {
        Ok(high) => high,
        Err(error) => {
            return Err(error);
        },
    };
    let depth = match get_pregen_active_windows(
        &settings.active_windows,
        available_bytes,
        window_size,
        high,
    ) {
        Ok(depth) => depth,
        Err(error) => {
            return Err(error);
        },
    };
    make_plan(size, window_size, depth, high)
}

/// The plan of a pass with every parameter supplied explicitly; what is not
/// given takes the floor depth and the default window. The side length has to
/// be a positive odd integer.
pub open spec fn explicit_plan(
    side_length: int,
    window_size: Option<i32>,
    active_windows: Option<usize>,
) -> Result<Option<PregenPlan>, Seq<char>> {
    let depth = match active_windows {
        Some(depth) => depth,
        None => 16,
    };
    match size_of(side_length) {
        Err(error) => Err(error),
        Ok(None) => Err("side length must be a positive odd integer"@),
        Ok(Some(size)) => if depth == 0 {
            Err("active window limit must be a positive integer"@)
        } else {
            plan_at(
                size,
                match window_size {
                    Some(size) => size as int,
                    None => 32,
                },
                PregenDepth { active_windows: depth, basis: PregenDepthBasis::Explicit },
                None,
            )
        },
    }
}

/// Works out a pass with every parameter supplied explicitly.
///
/// The floor depth and not the automatic choice stands for a depth that is not
/// given: a measurement that moves with how much memory happened to be free is
/// not comparable across runs. There is always an area: a side length that is
/// not a positive odd integer is an error.
pub fn plan_area(
    side_length: i32,
    window_size: Option<i32>,
    active_window_limit: Option<usize>,
) -> (r: Result<Option<PregenPlan>, String>)
    ensures
        as_stated(r, explicit_plan(side_length as int, window_size, active_window_limit)),
        side_length <= 0 || side_length % 2 == 0 ==> r is Err,
        r matches Ok(plan) ==> plan is Some,
{
    let size = match PregenSize::from_side_length(side_length) {
        Ok(Some(size)) => size,
        Ok(None) => {
            return Err("side length must be a positive odd integer".to_owned());
        },
        Err(error) => {
            return Err(error);
        },
    };
    let active_windows: usize = match active_window_limit {
        Some(depth) => depth,
        None => DEFAULT_PREGEN_ACTIVE_WINDOWS,
    };
    if active_windows == 0 {
        return Err("active window limit must be a positive integer".to_owned());
    }
    let window_size: i32 = match window_size {
        Some(size) => size,
        None => DEFAULT_PREGEN_WINDOW_SIZE,
    };
    make_plan(
        size,
        window_size,
        PregenDepth { active_windows, basis: PregenDepthBasis::Explicit },
        None,
    )
}

/// The chunk that the area is centered on: the origin for an area larger than
/// the vanilla spawn area, else the chunk of the spawn position.
pub fn pregen_center(side_length: i32, spawn_x: i32, spawn_z: i32) -> (r: ChunkPos)
    ensures
        side_length > 7 ==> r == (ChunkPos { x: 0, z: 0 }),
        side_length <= 7 ==> r.x == pos::section_of(spawn_x as int) && r.z == pos::section_of(
            spawn_z as int,
        ),
        side_length <= 7 ==> 16 * r.x <= spawn_x < 16 * r.x + 16 && 16 * r.z <= spawn_z < 16 * r.z
            + 16,
{
    if side_length > VANILLA_PLAYER_SPAWN_SIZE_CHUNKS {
        ChunkPos::new(0, 0)
    } else {
        ChunkPos::new(block_to_section_coord(spawn_x), block_to_section_coord(spawn_z))
    }
}

/// Every plan that is made fits its watermark, has windows of at least one
/// chunk and at least one window in flight, and covers an odd square.
pub proof fn a_plan_is_sound(settings: PregenSettings, available_bytes: Option<u64>)
    requires
        plan_of(settings, available_bytes) is Ok,
        plan_of(settings, available_bytes)->Ok_0 is Some,
    ensures
        ({
            let plan = plan_of(settings, available_bytes)->Ok_0->0;
            &&& plan.window_size >= 1
            &&& plan.depth.active_windows >= 1
            &&& plan.size.side_length == 2 * plan.size.radius + 1
            &&& plan.size.radius >= 0
            &&& plan.window_size * plan.window_size * plan.depth.active_windows
                <= plan.backpressure.high
            &&& plan.backpressure.low == plan.backpressure.high as int / 2
        }),
{
    let size = size_setting(settings.size)->Ok_0->0;
    let window_size = window_setting(settings.window_size)->Ok_0;
    let high = backpressure_setting(settings.unload_backpressure)->Ok_0;
    let depth = depth_setting(settings.active_windows, available_bytes, window_size as int, high)->Ok_0;
    assert(plan_at(size, window_size as int, depth, high) is Ok);
    if let EnvValue::Text(words) = settings.window_size {
        text::lemma_signed_range(words@, i32::MIN as int, i32::MAX as int);
    }
    if let EnvValue::Text(words) = settings.active_windows {
        text::lemma_unsigned_range(words@, usize::MAX as int);
    }
    if let EnvValue::Text(words) = settings.unload_backpressure {
        text::lemma_unsigned_range(words@, usize::MAX as int);
    }
    if let EnvValue::Text(words) = settings.size {
        text::lemma_signed_range(words@, i32::MIN as int, i32::MAX as int);
    }
}

} // verus!
