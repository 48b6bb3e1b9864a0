//! How much memory the process may take, from the kernel's text files.

use crate::text;
use crate::text::{
    chars_of, parse_unsigned, same_text, split_text, text_lines, text_of, trimmed,
};
use vstd::prelude::*;

verus! {

/// What a cgroup memory limit leaves this process, if one applies.
#[derive(Clone, Copy, Debug, PartialEq, Eq, Structural)]
pub enum CgroupHeadroom {
    /// No memory limit applies at any level, so the host figure stands alone.
    Unlimited,
    /// A limit applies and leaves this much of itself unused.
    Limited(u64),
    /// A limit applies but its numbers could not be read, so how much it leaves
    /// is unknown.
    Unreadable,
}

/// A memory limit as one cgroup file states it.
#[derive(Clone, Copy, Debug, PartialEq, Eq, Structural)]
pub enum CgroupLimit {
    /// cgroup v2 `max`, or v1's saturated sentinel: this level caps nothing.
    Unlimited,
    Bytes(u64),
    /// The file exists and says something this cannot read.
    Unparseable,
}

/// cgroup v1 writes an unset limit as a page-aligned saturation of a signed
/// 64-bit number, and kernels have varied the low bits, so any limit above this
/// threshold is "unset" rather than a real cap. It is 1 EiB: a real limit
/// anywhere near it would be a limit on nothing.
pub const CGROUP_V1_UNLIMITED_FLOOR: u64 = 0x1000_0000_0000_0000;

/// What the process may take: the tighter of the host's figure and the limit's
/// headroom, and nothing known where a limit cannot be read.
pub open spec fn allowed(host: Option<u64>, cgroup: CgroupHeadroom) -> Option<u64> {
    match cgroup {
        CgroupHeadroom::Unlimited => host,
        CgroupHeadroom::Limited(headroom) => match host {
            Some(bytes) => Some(if bytes <= headroom { bytes } else { headroom }),
            None => Some(headroom),
        },
        CgroupHeadroom::Unreadable => None,
    }
}

/// Narrows the host's available memory to what this process may actually take.
///
/// A cgroup limit is the number the process is killed at, so it caps the host
/// figure rather than replacing it. A limit whose numbers cannot be read yields
/// `None` ("no headroom") and not the host figure.
pub fn available_within_cgroup(host_available: Option<u64>, cgroup: CgroupHeadroom) -> (r: Option<
    u64,
>)
    ensures
        r == allowed(host_available, cgroup),
{
    match cgroup {
        CgroupHeadroom::Unlimited => host_available,
        CgroupHeadroom::Limited(headroom) => match host_available {
            Some(bytes) => Some(if bytes <= headroom { bytes } else { headroom }),
            None => Some(headroom),
        },
        CgroupHeadroom::Unreadable => None,
    }
}

/// The limit that a cgroup file's text states.
pub open spec fn limit_of(value: Seq<char>) -> CgroupLimit {
    let inner = text::trim(value);
    if inner == "max"@ {
        CgroupLimit::Unlimited
    } else {
        match text::parsed_unsigned(inner, u64::MAX as int) {
            Ok(bytes) => if bytes >= CGROUP_V1_UNLIMITED_FLOOR {
                CgroupLimit::Unlimited
            } else {
                CgroupLimit::Bytes(bytes as u64)
            },
            Err(_) => CgroupLimit::Unparseable,
        }
    }
}

/// Reads a limit in the spelling of either cgroup generation.
pub fn parse_cgroup_limit(value: &str) -> (r: CgroupLimit)
    ensures
        r == limit_of(value@),
{
    let inner = trimmed(value);
    if same_text(inner.as_str(), "max") {
        return CgroupLimit::Unlimited;
    }
    match parse_unsigned(inner.as_str(), u64::MAX) {
        Ok(bytes) => if bytes >= CGROUP_V1_UNLIMITED_FLOOR {
            CgroupLimit::Unlimited
        } else {
            CgroupLimit::Bytes(bytes)
        },
        Err(_) => CgroupLimit::Unparseable,
    }
}

/// The charge that a cgroup file's text states.
pub open spec fn charge_of(value: Seq<char>) -> Option<u64> {
    match text::parsed_unsigned(text::trim(value), u64::MAX as int) {
        Ok(bytes) => Some(bytes as u64),
        Err(_) => None,
    }
}

/// Reads a cgroup's current charge.
pub fn parse_cgroup_current(value: &str) -> (r: Option<u64>)
    ensures
        r == charge_of(value@),
{
    match parse_unsigned(trimmed(value).as_str(), u64::MAX) {
        Ok(bytes) => Some(bytes),
        Err(_) => None,
    }
}

/// What a limit leaves over a charge.
pub open spec fn level_headroom(limit: CgroupLimit, current: Option<u64>) -> CgroupHeadroom {
    match limit {
        CgroupLimit::Unlimited => CgroupHeadroom::Unlimited,
        CgroupLimit::Bytes(bytes) => match current {
            Some(used) => CgroupHeadroom::Limited(
                if used <= bytes {
                    (bytes - used) as u64
                } else {
                    0u64
                },
            ),
            None => CgroupHeadroom::Unreadable,
        },
        CgroupLimit::Unparseable => CgroupHeadroom::Unreadable,
    }
}

/// Headroom one cgroup level leaves, from its limit and current charge.
///
/// The charge includes page cache, which is reclaimable, so this understates
/// headroom on a container that has been reading from disk: overstating it is
/// what gets the process killed.
pub fn cgroup_level_headroom(limit: CgroupLimit, current_bytes: Option<u64>) -> (r: CgroupHeadroom)
    ensures
        r == level_headroom(limit, current_bytes),
{
    match limit {
        CgroupLimit::Unlimited => CgroupHeadroom::Unlimited,
        CgroupLimit::Bytes(bytes) => match current_bytes {
            Some(used) => CgroupHeadroom::Limited(bytes.saturating_sub(used)),
            // A limit that is there but whose numbers are not readable must not
            // silently read as the host's figure.
            None => CgroupHeadroom::Unreadable,
        },
        CgroupLimit::Unparseable => CgroupHeadroom::Unreadable,
    }
}

/// The headroom of two limits that both apply.
pub open spec fn narrower(left: CgroupHeadroom, right: CgroupHeadroom) -> CgroupHeadroom {
    match (left, right) {
        (CgroupHeadroom::Unreadable, _) => CgroupHeadroom::Unreadable,
        (_, CgroupHeadroom::Unreadable) => CgroupHeadroom::Unreadable,
        (CgroupHeadroom::Limited(a), CgroupHeadroom::Limited(b)) => CgroupHeadroom::Limited(
            if a <= b {
                a
            } else {
                b
            },
        ),
        (CgroupHeadroom::Limited(a), CgroupHeadroom::Unlimited) => CgroupHeadroom::Limited(a),
        (CgroupHeadroom::Unlimited, other) => other,
    }
}

/// Combines two levels of the cgroup hierarchy into the one that binds.
///
/// Limits nest: a pod's limit and its parent slice's limit both apply, and the
/// process is killed by whichever it hits first, so the tightest wins. A level
/// whose headroom is unknown could be the binding one.
pub fn narrower_headroom(left: CgroupHeadroom, right: CgroupHeadroom) -> (r: CgroupHeadroom)
    ensures
        r == narrower(left, right),
{
    match (left, right) {
        (CgroupHeadroom::Unreadable, _) => CgroupHeadroom::Unreadable,
        (_, CgroupHeadroom::Unreadable) => CgroupHeadroom::Unreadable,
        (CgroupHeadroom::Limited(a), CgroupHeadroom::Limited(b)) => CgroupHeadroom::Limited(
            if a <= b {
                a
            } else {
                b
            },
        ),
        (CgroupHeadroom::Limited(a), CgroupHeadroom::Unlimited) => CgroupHeadroom::Limited(a),
        (CgroupHeadroom::Unlimited, other) => other,
    }
}

/// What reading a file gave.
pub enum CgroupFile {
    /// There is no such file.
    Absent,
    /// The file is there and cannot be read.
    Unreadable,
    Text(String),
}

/// What the two files of one cgroup level hold.
pub struct CgroupLevel {
    pub limit: CgroupFile,
    pub current: CgroupFile,
}

/// The limit that a limit file states. An absent one caps nothing: its
/// hierarchy is not mounted, or the controller is not enabled. One that is there
/// and cannot be read is evidence of a limit.
pub open spec fn file_limit(file: CgroupFile) -> CgroupLimit {
    match file {
        CgroupFile::Absent => CgroupLimit::Unlimited,
        CgroupFile::Unreadable => CgroupLimit::Unparseable,
        CgroupFile::Text(value) => limit_of(value@),
    }
}

/// The charge that a charge file states.
pub open spec fn file_charge(file: CgroupFile) -> Option<u64> {
    match file {
        CgroupFile::Text(value) => charge_of(value@),
        _ => None,
    }
}

/// The headroom that one level's files state.
pub open spec fn stated_headroom(level: CgroupLevel) -> CgroupHeadroom {
    level_headroom(file_limit(level.limit), file_charge(level.current))
}

/// The headroom that the first `n` levels leave together.
pub open spec fn levels_headroom(levels: Seq<CgroupLevel>, n: nat) -> CgroupHeadroom
    decreases n,
{
    if n == 0 {
        CgroupHeadroom::Unlimited
    } else {
        narrower(levels_headroom(levels, (n - 1) as nat), stated_headroom(levels[n - 1]))
    }
}

/// Headroom left by one cgroup hierarchy, over the whole ancestry.
///
/// From the process's own cgroup up to the mount root, because a limit set on
/// an ancestor binds just as hard as one set on the leaf.
pub fn cgroup_hierarchy_headroom(levels: &Vec<CgroupLevel>) -> (r: CgroupHeadroom)
    ensures
        r == levels_headroom(levels@, levels@.len()),
{
    let mut headroom = CgroupHeadroom::Unlimited;
    let mut i: usize = 0;
    while i < levels.len()
        invariant
            i <= levels@.len(),
            headroom == levels_headroom(levels@, i as nat),
        decreases levels@.len() - i,
    {
        let limit = match &levels[i].limit {
            CgroupFile::Text(value) => parse_cgroup_limit(value.as_str()),
            CgroupFile::Absent => CgroupLimit::Unlimited,
            CgroupFile::Unreadable => CgroupLimit::Unparseable,
        };
        let current = match &levels[i].current {
            CgroupFile::Text(value) => parse_cgroup_current(value.as_str()),
            _ => None,
        };
        headroom = narrower_headroom(headroom, cgroup_level_headroom(limit, current));
        i += 1;
    }
    headroom
}

/// The headroom of a hierarchy that the process may have no path in.
pub open spec fn hierarchy_headroom(levels: Option<Vec<CgroupLevel>>) -> CgroupHeadroom {
    match levels {
        Some(list) => levels_headroom(list@, list@.len()),
        None => CgroupHeadroom::Unlimited,
    }
}

/// How much of its memory limit the cgroup this process runs in has left.
///
/// Both hierarchies are consulted and the tighter answer wins, because on a
/// hybrid host the unified hierarchy exists while the memory controller is
/// still on v1.
pub fn cgroup_headroom(
    unified: &Option<Vec<CgroupLevel>>,
    legacy: &Option<Vec<CgroupLevel>>,
) -> (r: CgroupHeadroom)
    ensures
        r == narrower(hierarchy_headroom(*unified), hierarchy_headroom(*legacy)),
{
    let first = match unified {
        Some(levels) => cgroup_hierarchy_headroom(levels),
        None => CgroupHeadroom::Unlimited,
    };
    let second = match legacy {
        Some(levels) => cgroup_hierarchy_headroom(levels),
        None => CgroupHeadroom::Unlimited,
    };
    narrower_headroom(first, second)
}

/// The headroom of a hierarchy is at most that of each of its levels, and a
/// level that cannot be read makes the whole unreadable: an ancestor's limit
/// binds as hard as the leaf's.
pub proof fn every_level_binds(levels: Seq<CgroupLevel>, n: nat, i: int)
    requires
        0 <= i < n <= levels.len(),
    ensures
        match stated_headroom(levels[i]) {
            CgroupHeadroom::Unlimited => true,
            CgroupHeadroom::Limited(bytes) => match levels_headroom(levels, n) {
                CgroupHeadroom::Unlimited => false,
                CgroupHeadroom::Limited(left) => left <= bytes,
                CgroupHeadroom::Unreadable => true,
            },
            CgroupHeadroom::Unreadable => levels_headroom(levels, n) is Unreadable,
        },
    decreases n,
{
    if i < n - 1 {
        every_level_binds(levels, (n - 1) as nat, i);
    }
}

/// A limit file that is there and cannot be read, at any level of either
/// hierarchy, makes the headroom unreadable.
pub proof fn an_unreadable_limit_is_never_overlooked(
    unified: Option<Vec<CgroupLevel>>,
    legacy: Option<Vec<CgroupLevel>>,
    i: int,
)
    requires
        ({
            ||| unified is Some && 0 <= i < unified->0@.len() && unified->0@[i].limit is Unreadable
            ||| legacy is Some && 0 <= i < legacy->0@.len() && legacy->0@[i].limit is Unreadable
        }),
    ensures
        narrower(hierarchy_headroom(unified), hierarchy_headroom(legacy)) is Unreadable,
{
    if unified is Some && 0 <= i < unified->0@.len() && unified->0@[i].limit is Unreadable {
        every_level_binds(unified->0@, unified->0@.len(), i);
    } else {
        every_level_binds(legacy->0@, legacy->0@.len(), i);
    }
}

/// What the process may take never exceeds the host's figure nor any limit
/// that applies.
pub proof fn the_allowance_respects_every_limit(host: Option<u64>, cgroup: CgroupHeadroom)
    ensures
        allowed(host, cgroup) is Some && host is Some ==> allowed(host, cgroup)->0 <= host->0,
        allowed(host, cgroup) is Some && cgroup is Limited ==> allowed(host, cgroup)->0
            <= cgroup->Limited_0,
        cgroup is Unreadable ==> allowed(host, cgroup) is None,
{
}

// ---------------------------------------------------------------------------
// /proc/self/cgroup
// ---------------------------------------------------------------------------
/// The path of a `hierarchy:controllers:path` line: what follows the second
/// colon.
pub open spec fn line_path(line: Seq<char>) -> Seq<char> {
    let pieces = text::split_on(line, ':');
    line.subrange((pieces[0].len() + pieces[1].len() + 2) as int, line.len() as int)
}

/// The line is the one of the controller: the unified hierarchy has none, and
/// the id 0.
pub open spec fn line_matches(line: Seq<char>, controller: Option<Seq<char>>) -> bool {
    let pieces = text::split_on(line, ':');
    pieces.len() >= 3 && match controller {
        None => pieces[0] == "0"@ && pieces[1].len() == 0,
        Some(wanted) => text::split_on(pieces[1], ',').contains(wanted),
    }
}

/// The path of the first matching line from `i` on.
pub open spec fn first_path(
    lines: Seq<Seq<char>>,
    controller: Option<Seq<char>>,
    i: nat,
) -> Option<Seq<char>>
    decreases lines.len() - i,
{
    if i >= lines.len() {
        None
    } else if line_matches(lines[i as int], controller) {
        Some(line_path(lines[i as int]))
    } else {
        first_path(lines, controller, i + 1)
    }
}

proof fn lemma_split_lengths(s: Seq<char>, sep: char)
    ensures
        split_length(text::split_on(s, sep), text::split_on(s, sep).len()) == s.len() + 1,
    decreases s.len(),
{
    text::lemma_split_nonempty(s, sep);
    let pieces = text::split_on(s, sep);
    if s.len() == 0 {
        assert(split_length(pieces, 0) == 0);
        assert(split_length(pieces, 1) == 1);
    } else {
        let before = text::split_on(s.drop_last(), sep);
        text::lemma_split_nonempty(s.drop_last(), sep);
        lemma_split_lengths(s.drop_last(), sep);
        if s.last() == sep {
            lemma_lengths_same(pieces, before, before.len());
        } else {
            lemma_lengths_same(pieces, before, (before.len() - 1) as nat);
        }
    }
}

/// The summed lengths of the first `n` pieces, each with its separator.
spec fn split_length(pieces: Seq<Seq<char>>, n: nat) -> int
    decreases n,
{
    if n == 0 {
        0
    } else {
        split_length(pieces, (n - 1) as nat) + pieces[n - 1].len() + 1
    }
}

proof fn lemma_lengths_same(a: Seq<Seq<char>>, b: Seq<Seq<char>>, n: nat)
    requires
        n <= a.len(),
        n <= b.len(),
        forall|i: int| 0 <= i < n ==> a[i] == b[i],
    ensures
        split_length(a, n) == split_length(b, n),
    decreases n,
{
    if n > 0 {
        lemma_lengths_same(a, b, (n - 1) as nat);
    }
}

proof fn lemma_lengths_grow(pieces: Seq<Seq<char>>, k: nat, n: nat)
    requires
        k < n,
    ensures
        split_length(pieces, k) + 1 <= split_length(pieces, n),
    decreases n,
{
    if k + 1 < n {
        lemma_lengths_grow(pieces, k, (n - 1) as nat);
    }
}

fn holds_piece(list: &str, wanted: &str) -> (r: bool)
    ensures
        r == text::split_on(list@, ',').contains(wanted@),
{
    let entries = split_text(list, ',');
    let ghost pieces = text::split_on(list@, ',');
    let mut i: usize = 0;
    while i < entries.len()
        invariant
            i <= entries@.len(),
            text::texts(entries@) == pieces,
            pieces == text::split_on(list@, ','),
            forall|j: int| 0 <= j < i ==> pieces[j] != wanted@,
        decreases entries@.len() - i,
    {
        assert(pieces[i as int] == entries@[i as int]@);
        if same_text(entries[i].as_str(), wanted) {
            return true;
        }
        i += 1;
    }
    false
}

/// The controller-relative cgroup path this process is in.
///
/// `/proc/self/cgroup` is `hierarchy:controllers:path` per line; the unified
/// (v2) hierarchy is the line with an empty controller list and id 0. A v1
/// memory limit lives on the line whose controller list contains `memory`, which
/// may be co-mounted with others (`cpu,memory`).
pub fn cgroup_path(proc_self_cgroup: &str, controller: Option<&str>) -> (r: Option<String>)
    ensures
        ({
            let wanted = match controller {
                Some(name) => Some(name@),
                None => None,
            };
            match r {
                Some(path) => first_path(text::lines_of(proc_self_cgroup@), wanted, 0) == Some(
                    path@,
                ),
                None => first_path(text::lines_of(proc_self_cgroup@), wanted, 0) is None,
            }
        }),
{
    let ghost wanted = match controller {
        Some(name) => Some(name@),
        None => None,
    };
    let lines = text_lines(proc_self_cgroup);
    let ghost all = text::lines_of(proc_self_cgroup@);
    let mut i: usize = 0;
    while i < lines.len()
        invariant
            i <= lines@.len(),
            text::texts(lines@) == all,
            all == text::lines_of(proc_self_cgroup@),
            wanted == match controller {
                Some(name) => Some(name@),
                None => None,
            },
            first_path(all, wanted, 0) == first_path(all, wanted, i as nat),
        decreases lines@.len() - i,
    {
        let line = lines[i].as_str();
        assert(line@ == all[i as int]);
        let fields = split_text(line, ':');
        let ghost pieces = text::split_on(line@, ':');
        if fields.len() >= 3 {
            assert(pieces[0] == fields@[0]@);
            assert(pieces[1] == fields@[1]@);
            let matches = match controller {
                None => same_text(fields[0].as_str(), "0") && fields[1].as_str().unicode_len() == 0,
                Some(name) => holds_piece(fields[1].as_str(), name),
            };
            if matches {
                let chars = chars_of(line);
                proof {
                    lemma_split_lengths(line@, ':');
                    lemma_lengths_grow(pieces, 2, pieces.len());
                    assert(split_length(pieces, 2) == split_length(pieces, 1) + pieces[1].len()
                        + 1);
                    assert(split_length(pieces, 1) == split_length(pieces, 0) + pieces[0].len()
                        + 1);
                }
                let first: usize = fields[0].as_str().unicode_len();
                let second: usize = fields[1].as_str().unicode_len();
                assert(chars@.len() == chars.len());
                return Some(text_of(&chars, first + second + 2, chars.len()));
            }
        }
        i += 1;
    }
    None
}

// ---------------------------------------------------------------------------
// /proc/meminfo
// ---------------------------------------------------------------------------
/// The first place of a white-space character.
pub open spec fn first_white(s: Seq<char>, i: nat) -> nat
    decreases s.len() - i,
{
    if i >= s.len() || text::is_white(s[i as int]) {
        i
    } else {
        first_white(s, i + 1)
    }
}

/// The unit is `kB`, in either case.
pub open spec fn is_kib(unit: Seq<char>) -> bool {
    unit.len() == 2 && (unit[0] == 'k' || unit[0] == 'K') && (unit[1] == 'b' || unit[1] == 'B')
}

/// The bytes that a `value unit` field states.
pub open spec fn field_bytes(field: Seq<char>) -> Option<u64> {
    let inner = text::trim(field);
    let at = first_white(inner, 0);
    if at >= inner.len() || !is_kib(
        text::trim(inner.subrange(at as int + 1, inner.len() as int)),
    ) {
        None
    } else {
        match text::parsed_unsigned(inner.subrange(0, at as int), u64::MAX as int) {
            Ok(value) => if value * 1024 <= u64::MAX {
                Some((value * 1024) as u64)
            } else {
                None
            },
            Err(_) => None,
        }
    }
}

/// The field of the first `MemAvailable:` line from `i` on.
pub open spec fn available_field(lines: Seq<Seq<char>>, i: nat) -> Option<Seq<char>>
    decreases lines.len() - i,
{
    if i >= lines.len() {
        None
    } else if text::starts_with(lines[i as int], "MemAvailable:"@) {
        Some(text::without_prefix(lines[i as int], "MemAvailable:"@))
    } else {
        available_field(lines, i + 1)
    }
}

/// The available memory that `/proc/meminfo` states.
pub open spec fn available_of(meminfo: Seq<char>) -> Option<u64> {
    match available_field(text::lines_of(meminfo), 0) {
        Some(field) => field_bytes(field),
        None => None,
    }
}

fn bytes_of_field(field: &str) -> (r: Option<u64>)
    ensures
        r == field_bytes(field@),
{
    let inner = trimmed(field);
    let chars = chars_of(inner.as_str());
    let n: usize = chars.len();
    let mut at: usize = 0;
    while at < n && !text::is_whitespace(chars[at])
        invariant
            at <= n,
            n == chars@.len(),
            chars@ == inner@,
            first_white(inner@, 0) == first_white(inner@, at as nat),
        decreases n - at,
    {
        at += 1;
    }
    if at >= n {
        return None;
    }
    let unit = trimmed(text_of(&chars, at + 1, n).as_str());
    let letters = chars_of(unit.as_str());
    // The kernel writes this field in kB (KiB, despite the spelling); a unit
    // that is not that is a kernel this cannot read.
    if letters.len() != 2 || !(letters[0] == 'k' || letters[0] == 'K') || !(letters[1] == 'b'
        || letters[1] == 'B') {
        return None;
    }
    match parse_unsigned(text_of(&chars, 0, at).as_str(), u64::MAX) {
        Ok(value) => value.checked_mul(1024),
        Err(_) => None,
    }
}

/// Memory that can be handed out without pushing the machine into reclaim: the
/// `MemAvailable` field, not the free pages.
pub fn parse_mem_available(meminfo: &str) -> (r: Option<u64>)
    ensures
        r == available_of(meminfo@),
{
    let lines = text_lines(meminfo);
    let ghost all = text::lines_of(meminfo@);
    let mut i: usize = 0;
    while i < lines.len()
        invariant
            i <= lines@.len(),
            text::texts(lines@) == all,
            all == text::lines_of(meminfo@),
            available_field(all, 0) == available_field(all, i as nat),
        decreases lines@.len() - i,
    {
        let line = lines[i].as_str();
        assert(line@ == all[i as int]);
        if text::has_prefix(line, "MemAvailable:") {
            let field = text::strip_prefix_or_all(line, "MemAvailable:");
            return bytes_of_field(field.as_str());
        }
        i += 1;
    }
    None
}

} // verus!
