//! Level-3 cache sharing domains, as the kernel's cache files describe them.
//!
//! Everything here is best-effort by construction: a machine may expose no
//! cache topology at all, so every reader returns `Option` and callers are
//! expected to carry on unpinned rather than treat absence as an error.

use vstd::prelude::*;

use crate::text;

verus! {

/// Largest CPU id accepted from a `shared_cpu_list`.
pub const MAX_CPU_ID: usize = 8192;

// ---------------------------------------------------------------------------
// Lists of CPUs as text
// ---------------------------------------------------------------------------
/// A list in strictly ascending order.
pub open spec fn ascending(cpus: Seq<usize>) -> bool {
    forall|i: int, j: int| 0 <= i < j < cpus.len() ==> cpus[i] < cpus[j]
}

/// The id that a text of decimal digits, and nothing else, names.
pub open spec fn id_of(digits: Seq<char>) -> Option<int> {
    if digits.len() > 0 && digits[0] == '+' {
        None
    } else {
        match text::parsed_unsigned(digits, usize::MAX as int) {
            Ok(cpu) => Some(cpu),
            Err(_) => None,
        }
    }
}

/// The range that one piece of a list names: a single id, or `start-end`.
pub open spec fn part_range(part: Seq<char>) -> Option<(int, int)> {
    let part = text::trim(part);
    match text::split_once(part, '-') {
        None => match id_of(part) {
            Some(cpu) if cpu <= MAX_CPU_ID => Some((cpu, cpu)),
            _ => None,
        },
        Some(ends) => match (id_of(text::trim(ends.0)), id_of(text::trim(ends.1))) {
            (Some(start), Some(end)) if start <= end <= MAX_CPU_ID => Some((start, end)),
            _ => None,
        },
    }
}

proof fn lemma_part_bounds(part: Seq<char>)
    ensures
        part_range(part) matches Some(range) ==> 0 <= range.0 <= range.1 <= MAX_CPU_ID,
{
    let part = text::trim(part);
    text::lemma_unsigned_range(part, usize::MAX as int);
    if let Some(ends) = text::split_once(part, '-') {
        text::lemma_unsigned_range(text::trim(ends.0), usize::MAX as int);
        text::lemma_unsigned_range(text::trim(ends.1), usize::MAX as int);
    }
}

/// The comma-separated pieces of a list.
pub open spec fn list_parts(list: Seq<char>) -> Seq<Seq<char>> {
    text::split_on(text::trim(list), ',')
}

/// A list every piece of which names a range.
pub open spec fn is_readable(list: Seq<char>) -> bool {
    forall|k: int|
        0 <= k < list_parts(list).len() ==> part_range(#[trigger] list_parts(list)[k]) is Some
}

/// The piece names the id.
pub open spec fn part_names(part: Seq<char>, cpu: int) -> bool {
    match part_range(part) {
        Some(range) => range.0 <= cpu <= range.1,
        None => false,
    }
}

/// Some piece of the list names the id.
pub open spec fn list_names(list: Seq<char>, cpu: int) -> bool {
    exists|k: int|
        0 <= k < list_parts(list).len() && part_names(#[trigger] list_parts(list)[k], cpu)
}

/// What a list reads as: the ids it names, each once, in ascending order, or
/// nothing if some piece of it is not understood.
pub open spec fn reads_as(list: Seq<char>, cpus: Option<Seq<usize>>) -> bool {
    match cpus {
        None => !is_readable(list),
        Some(cpus) => {
            &&& is_readable(list)
            &&& ascending(cpus)
            &&& cpus.len() > 0
            &&& forall|cpu: usize| #[trigger] cpus.contains(cpu) <==> list_names(list, cpu as int)
        },
    }
}

/// The view of an optional list.
pub open spec fn list_view(cpus: Option<Vec<usize>>) -> Option<Seq<usize>> {
    match cpus {
        None => None,
        Some(v) => Some(v@),
    }
}

fn read_id(digits: &str) -> (r: Option<usize>)
    ensures
        match r {
            None => id_of(digits@) is None,
            Some(cpu) => id_of(digits@) == Some(cpu as int),
        },
{
    let chars = text::chars_of(digits);
    if chars.len() > 0 && chars[0] == '+' {
        return None;
    }
    match text::parse_usize(digits) {
        Ok(cpu) => Some(cpu),
        Err(_) => None,
    }
}

fn read_part(part: &str) -> (r: Option<(usize, usize)>)
    ensures
        match r {
            None => part_range(part@) is None,
            Some(p) => part_range(part@) == Some((p.0 as int, p.1 as int)) && p.0 <= p.1
                <= MAX_CPU_ID,
        },
{
    let part = text::trimmed(part);
    match text::split_text_once(part.as_str(), '-') {
        None => match read_id(part.as_str()) {
            Some(cpu) => if cpu <= MAX_CPU_ID {
                Some((cpu, cpu))
            } else {
                None
            },
            None => None,
        },
        Some(ends) => {
            let start = text::trimmed(ends.0.as_str());
            let end = text::trimmed(ends.1.as_str());
            match (read_id(start.as_str()), read_id(end.as_str())) {
                (Some(start), Some(end)) => if start <= end && end <= MAX_CPU_ID {
                    Some((start, end))
                } else {
                    None
                },
                _ => None,
            }
        },
    }
}

/// The ids marked in a table, in ascending order.
fn marked(present: &Vec<bool>) -> (r: Vec<usize>)
    ensures
        ascending(r@),
        forall|cpu: usize| #[trigger]
            r@.contains(cpu) <==> cpu < present@.len() && present@[cpu as int],
{
    let mut r: Vec<usize> = Vec::new();
    let mut i: usize = 0;
    while i < present.len()
        invariant
            i <= present@.len(),
            ascending(r@),
            forall|k: int| 0 <= k < r@.len() ==> r@[k] < i && present@[r@[k] as int],
            forall|cpu: usize| cpu < i && present@[cpu as int] ==> #[trigger] r@.contains(cpu),
        decreases present@.len() - i,
    {
        let ghost before = r@;
        if present[i] {
            r.push(i);
            proof {
                assert forall|cpu: usize| cpu < i + 1 && present@[cpu as int] implies #[trigger]
                r@.contains(cpu) by {
                    if cpu == i {
                        assert(r@[before.len() as int] == cpu);
                    } else {
                        assert(before.contains(cpu));
                        let k = choose|k: int| 0 <= k < before.len() && before[k] == cpu;
                        assert(r@[k] == cpu);
                    }
                }
            }
        }
        i += 1;
    }
    r
}

/// Parses a CPU list: comma-separated ids and `start-end` ranges, such as
/// `0-7,64-71` or `3`.
///
/// Returns `None` on anything that is not exactly that, including an empty
/// list, so a malformed file is never silently read as a smaller set of CPUs.
#[must_use]
pub fn parse_cpu_list(list: &str) -> (r: Option<Vec<usize>>)
    ensures
        reads_as(list@, list_view(r)),
        r matches Some(cpus) ==> forall|k: int| 0 <= k < cpus@.len() ==> cpus@[k] <= MAX_CPU_ID,
{
    let whole = text::trimmed(list);
    let parts = text::split_text(whole.as_str(), ',');
    let ghost pieces = list_parts(list@);
    let mut present: Vec<bool> = Vec::new();
    let mut i: usize = 0;
    while i <= MAX_CPU_ID
        invariant
            i <= MAX_CPU_ID + 1,
            present@.len() == i,
            forall|c: int| 0 <= c < i ==> !present@[c],
        decreases MAX_CPU_ID + 1 - i,
    {
        present.push(false);
        i += 1;
    }
    let mut p: usize = 0;
    while p < parts.len()
        invariant
            p <= parts@.len(),
            pieces == list_parts(list@),
            text::texts(parts@) == pieces,
            present@.len() == MAX_CPU_ID + 1,
            forall|k: int| 0 <= k < p ==> part_range(#[trigger] pieces[k]) is Some,
            forall|c: int|
                0 <= c <= MAX_CPU_ID ==> (#[trigger] present@[c] <==> exists|k: int|
                    0 <= k < p && part_names(#[trigger] pieces[k], c)),
        decreases parts@.len() - p,
    {
        assert(text::texts(parts@)[p as int] == parts@[p as int]@);
        let ghost before = present@;
        match read_part(parts[p].as_str()) {
            None => {
                assert(part_range(list_parts(list@)[p as int]) is None);
                return None;
            },
            Some(range) => {
                let mut c: usize = range.0;
                while c <= range.1
                    invariant
                        range.0 <= c <= range.1 + 1,
                        range.1 <= MAX_CPU_ID,
                        present@.len() == MAX_CPU_ID + 1,
                        before.len() == MAX_CPU_ID + 1,
                        forall|k: int|
                            0 <= k <= MAX_CPU_ID ==> #[trigger] present@[k] == (before[k] || (range.0
                                <= k < c)),
                    decreases range.1 + 1 - c,
                {
                    present.set(c, true);
                    c += 1;
                }
                proof {
                    assert forall|c: int| 0 <= c <= MAX_CPU_ID implies (#[trigger] present@[c]
                        <==> exists|k: int|
                        0 <= k < p + 1 && part_names(#[trigger] pieces[k], c)) by {
                        assert(before[c] <==> exists|k: int|
                            0 <= k < p && part_names(#[trigger] pieces[k], c));
                        assert(part_names(pieces[p as int], c) <==> range.0 <= c <= range.1);
                    }
                }
            },
        }
        p += 1;
    }
    let cpus = marked(&present);
    proof {
        assert forall|cpu: usize| #[trigger] cpus@.contains(cpu) <==> list_names(
            list@,
            cpu as int,
        ) by {
            if cpu <= MAX_CPU_ID {
                assert(present@[cpu as int] <==> list_names(list@, cpu as int));
            } else {
                assert forall|k: int| 0 <= k < pieces.len() implies !part_names(
                    #[trigger] pieces[k],
                    cpu as int,
                ) by {}
            }
        }
        let range = part_range(pieces[0])->0;
        lemma_part_bounds(pieces[0]);
        assert(part_names(pieces[0], range.0));
        assert(present@[range.0]);
        assert(cpus@.contains(range.0 as usize));
        assert forall|k: int| 0 <= k < cpus@.len() implies cpus@[k] <= MAX_CPU_ID by {
            assert(cpus@.contains(cpus@[k]));
        }
    }
    Some(cpus)
}

/// The runs of consecutive ids in a list, from the left.
pub open spec fn runs(cpus: Seq<usize>) -> Seq<(usize, usize)>
    decreases cpus.len(),
{
    if cpus.len() == 0 {
        Seq::empty()
    } else {
        let before = runs(cpus.drop_last());
        if before.len() > 0 && before.last().1 + 1 == cpus.last() {
            before.update(before.len() - 1, (before.last().0, cpus.last()))
        } else {
            before.push((cpus.last(), cpus.last()))
        }
    }
}

/// A run as text: its id, or its first and last.
pub open spec fn run_text(run: (usize, usize)) -> Seq<char> {
    if run.0 == run.1 {
        text::decimal(run.0 as nat)
    } else {
        text::decimal(run.0 as nat) + seq!['-'] + text::decimal(run.1 as nat)
    }
}

/// Runs as text, separated by commas.
pub open spec fn runs_text(all: Seq<(usize, usize)>) -> Seq<char>
    decreases all.len(),
{
    if all.len() == 0 {
        Seq::empty()
    } else if all.len() == 1 {
        run_text(all[0])
    } else {
        runs_text(all.drop_last()) + seq![','] + run_text(all.last())
    }
}

/// A list of ids in range syntax, such as `0-7,64-71`.
pub open spec fn list_text(cpus: Seq<usize>) -> Seq<char> {
    runs_text(runs(cpus))
}

fn push_run(out: &mut String, start: usize, end: usize)
    ensures
        final(out)@ == old(out)@ + run_text((start, end)),
{
    text::push_decimal(out, start as u64);
    if start != end {
        out.push('-');
        text::push_decimal(out, end as u64);
    }
    assert(out@ =~= old(out)@ + run_text((start, end)));
}

/// Renders CPU ids in range syntax, so that a log line can be compared with a
/// `shared_cpu_list` by eye.
pub fn format_cpu_list(cpus: &[usize]) -> (r: String)
    requires
        forall|k: int| 0 <= k < cpus@.len() ==> cpus@[k] < usize::MAX,
    ensures
        r@ == list_text(cpus@),
{
    let mut out = String::new();
    if cpus.len() == 0 {
        return out;
    }
    let mut start: usize = cpus[0];
    let mut end: usize = start;
    let mut index: usize = 1;
    let ghost mut done: Seq<(usize, usize)> = Seq::empty();
    proof {
        assert(cpus@.subrange(0, 1).drop_last() =~= Seq::<usize>::empty());
        reveal_with_fuel(runs, 2);
        assert(runs(cpus@.subrange(0, 1)) =~= done.push((start, end)));
    }
    while index < cpus.len()
        invariant
            1 <= index <= cpus@.len(),
            end < usize::MAX,
            forall|k: int| 0 <= k < cpus@.len() ==> cpus@[k] < usize::MAX,
            runs(cpus@.subrange(0, index as int)) == done.push((start, end)),
            out@ == if done.len() == 0 {
                Seq::<char>::empty()
            } else {
                runs_text(done) + seq![',']
            },
        decreases cpus@.len() - index,
    {
        let cpu: usize = cpus[index];
        proof {
            assert(cpus@.subrange(0, index + 1).drop_last() =~= cpus@.subrange(0, index as int));
            assert(done.push((start, end)).last() == (start, end));
        }
        if cpu == end + 1 {
            end = cpu;
            assert(done.push((start, end)) =~= runs(cpus@.subrange(0, index + 1)));
        } else {
            push_run(&mut out, start, end);
            out.push(',');
            proof {
                let prev = done;
                done = prev.push((start, end));
                assert(done.drop_last() =~= prev);
                assert(done.last() == (start, end));
                assert(out@ =~= runs_text(done) + seq![',']);
            }
            start = cpu;
            end = cpu;
        }
        index += 1;
    }
    push_run(&mut out, start, end);
    proof {
        assert(cpus@.subrange(0, index as int) =~= cpus@);
        assert(done.push((start, end)).drop_last() =~= done);
        assert(out@ =~= list_text(cpus@));
    }
    out
}

// ---------------------------------------------------------------------------
// Domains
// ---------------------------------------------------------------------------
/// One cache directory's three interesting files, already read to text.
#[derive(Debug, Clone, Copy)]
pub struct CacheIndex<'a> {
    /// Contents of `level`, e.g. `"3\n"`.
    pub level: &'a str,
    /// Contents of `type`, e.g. `"Unified\n"`.
    pub kind: &'a str,
    /// Contents of `shared_cpu_list`, e.g. `"0-7,64-71\n"`.
    pub shared_cpu_list: &'a str,
}

/// The set of CPUs that share one cache.
#[derive(Debug, Clone, PartialEq, Eq, PartialOrd, Ord)]
pub struct CacheDomain {
    cpus: Vec<usize>,
}

impl View for CacheDomain {
    type V = Seq<usize>;

    closed spec fn view(&self) -> Seq<usize> {
        self.cpus@
    }
}

/// What every domain's list of ids satisfies.
pub open spec fn is_domain(cpus: Seq<usize>) -> bool {
    &&& cpus.len() > 0
    &&& ascending(cpus)
    &&& forall|k: int| 0 <= k < cpus.len() ==> cpus[k] <= MAX_CPU_ID
}

/// The views of some domains.
pub open spec fn domain_views(domains: Seq<CacheDomain>) -> Seq<Seq<usize>> {
    Seq::new(domains.len(), |i: int| domains[i]@)
}

/// Domains all of which are well formed.
pub open spec fn all_domains(domains: Seq<Seq<usize>>) -> bool {
    forall|i: int| 0 <= i < domains.len() ==> is_domain(#[trigger] domains[i])
}

/// The ids of a list that are also in another, in the list's order.
pub open spec fn only(cpus: Seq<usize>, allowed: Seq<usize>) -> Seq<usize>
    decreases cpus.len(),
{
    if cpus.len() == 0 {
        Seq::empty()
    } else {
        let before = only(cpus.drop_last(), allowed);
        if allowed.contains(cpus.last()) {
            before.push(cpus.last())
        } else {
            before
        }
    }
}

proof fn lemma_only(cpus: Seq<usize>, allowed: Seq<usize>)
    ensures
        forall|cpu: usize| #[trigger]
            only(cpus, allowed).contains(cpu) <==> cpus.contains(cpu) && allowed.contains(cpu),
        ascending(cpus) ==> ascending(only(cpus, allowed)),
    decreases cpus.len(),
{
    if cpus.len() > 0 {
        let rest = cpus.drop_last();
        lemma_only(rest, allowed);
        let kept = only(cpus, allowed);
        let before = only(rest, allowed);
        assert forall|cpu: usize| #[trigger] kept.contains(cpu) <==> cpus.contains(cpu)
            && allowed.contains(cpu) by {
            if kept.contains(cpu) {
                let k = choose|k: int| 0 <= k < kept.len() && kept[k] == cpu;
                if k < before.len() {
                    assert(before[k] == cpu);
                    assert(before.contains(cpu));
                    let j = choose|j: int| 0 <= j < rest.len() && rest[j] == cpu;
                    assert(cpus[j] == cpu);
                } else {
                    assert(cpus[cpus.len() - 1] == cpu);
                }
            }
            if cpus.contains(cpu) && allowed.contains(cpu) {
                let j = choose|j: int| 0 <= j < cpus.len() && cpus[j] == cpu;
                if j < rest.len() {
                    assert(rest[j] == cpu);
                    assert(before.contains(cpu));
                    let k = choose|k: int| 0 <= k < before.len() && before[k] == cpu;
                    assert(kept[k] == cpu);
                } else {
                    assert(kept[kept.len() - 1] == cpu);
                }
            }
        }
        if ascending(cpus) {
            assert(ascending(rest));
            assert forall|i: int, j: int| 0 <= i < j < kept.len() implies kept[i] < kept[j] by {
                if j == before.len() {
                    assert(before.contains(before[i]));
                    let k = choose|k: int| 0 <= k < rest.len() && rest[k] == before[i];
                    assert(cpus[k] < cpus[cpus.len() - 1]);
                }
            }
        }
    }
}

/// An id is in a list.
pub fn list_contains(list: &[usize], cpu: usize) -> (r: bool)
    ensures
        r == list@.contains(cpu),
{
    let mut i: usize = 0;
    while i < list.len()
        invariant
            i <= list@.len(),
            forall|k: int| 0 <= k < i ==> list@[k] != cpu,
        decreases list@.len() - i,
    {
        if list[i] == cpu {
            assert(list@[i as int] == cpu);
            return true;
        }
        i += 1;
    }
    false
}

impl CacheDomain {
    /// The domain has ids, in strictly ascending order, all within
    /// [`MAX_CPU_ID`].
    pub open spec fn well_formed(&self) -> bool {
        is_domain(self@)
    }

    /// The domain's CPU ids, ascending and deduplicated.
    #[must_use]
    pub fn cpus(&self) -> (r: &[usize])
        ensures
            r@ == self@,
    {
        self.cpus.as_slice()
    }

    /// The part of this domain that is also in `allowed`, or `None` if none of
    /// it is.
    #[must_use]
    pub fn intersect(&self, allowed: &[usize]) -> (r: Option<Self>)
        requires
            self.well_formed(),
        ensures
            match r {
                None => only(self@, allowed@).len() == 0,
                Some(d) => d@ == only(self@, allowed@) && d.well_formed(),
            },
    {
        let mut cpus: Vec<usize> = Vec::new();
        let mut i: usize = 0;
        assert(self.cpus@.subrange(0, 0) =~= Seq::<usize>::empty());
        while i < self.cpus.len()
            invariant
                i <= self.cpus@.len(),
                cpus@ == only(self.cpus@.subrange(0, i as int), allowed@),
            decreases self.cpus@.len() - i,
        {
            assert(self.cpus@.subrange(0, i + 1).drop_last() =~= self.cpus@.subrange(0, i as int));
            if list_contains(allowed, self.cpus[i]) {
                cpus.push(self.cpus[i]);
            }
            i += 1;
        }
        assert(self.cpus@.subrange(0, i as int) =~= self@);
        if cpus.len() == 0 {
            return None;
        }
        proof {
            lemma_only(self@, allowed@);
            assert forall|k: int| 0 <= k < cpus@.len() implies cpus@[k] <= MAX_CPU_ID by {
                assert(cpus@.contains(cpus@[k]));
            }
        }
        Some(CacheDomain { cpus })
    }

    /// The domain in range syntax, such as `0-7,64-71`.
    pub fn to_string(&self) -> (r: String)
        requires
            self.well_formed(),
        ensures
            r@ == list_text(self@),
    {
        format_cpu_list(self.cpus.as_slice())
    }
}

/// Narrowing a domain keeps exactly its allowed CPUs, still in order.
pub proof fn narrowing_keeps_exactly_the_allowed(cpus: Seq<usize>, allowed: Seq<usize>)
    ensures
        forall|cpu: usize| #[trigger]
            only(cpus, allowed).contains(cpu) <==> cpus.contains(cpu) && allowed.contains(cpu),
        ascending(cpus) ==> ascending(only(cpus, allowed)),
{
    lemma_only(cpus, allowed);
}

/// A name made of a prefix and at least one digit behind it.
pub open spec fn is_numbered(name: Seq<char>, prefix: Seq<char>) -> bool {
    &&& text::starts_with(name, prefix)
    &&& name.len() > prefix.len()
    &&& forall|i: int| prefix.len() <= i < name.len() ==> text::is_digit(#[trigger] name[i])
}

/// A directory of one CPU, such as `cpu12`; `cpufreq`, `cpuidle` and the like
/// live next to those.
pub fn is_cpu_directory(name: &str) -> (r: bool)
    ensures
        r == is_numbered(name@, "cpu"@),
{
    if !text::has_prefix(name, "cpu") {
        return false;
    }
    proof {
        reveal_strlit("cpu");
    }
    let chars = text::chars_of(name);
    let mut i: usize = 3;
    while i < chars.len()
        invariant
            3 <= i <= chars@.len(),
            chars@ == name@,
            "cpu"@.len() == 3,
            forall|k: int| 3 <= k < i ==> text::is_digit(#[trigger] name@[k]),
        decreases chars@.len() - i,
    {
        let c: u32 = chars[i] as u32;
        if !('0' as u32 <= c && c <= '9' as u32) {
            assert(!text::is_digit(name@[i as int]));
            return false;
        }
        i += 1;
    }
    chars.len() > 3
}

/// A directory of one cache, such as `index3`.
pub fn is_index_directory(name: &str) -> (r: bool)
    ensures
        r == text::starts_with(name@, "index"@),
{
    text::has_prefix(name, "index")
}

/// One list of ids comes before another: at the first difference it holds the
/// smaller id, or it is the shorter one.
pub open spec fn list_before(a: Seq<usize>, b: Seq<usize>) -> bool {
    exists|k: int| #[trigger] first_difference(a, b, k) && k < b.len() && (k == a.len() || a[k] < b[k])
}

/// Two lists agree below `k`, within both.
pub open spec fn first_difference(a: Seq<usize>, b: Seq<usize>, k: int) -> bool {
    0 <= k <= a.len() && k <= b.len() && forall|i: int| 0 <= i < k ==> a[i] == b[i]
}

/// Domains in strictly ascending order.
pub open spec fn domains_ordered(domains: Seq<Seq<usize>>) -> bool {
    forall|i: int, j: int| 0 <= i < j < domains.len() ==> list_before(domains[i], domains[j])
}

proof fn lemma_before_transitive(a: Seq<usize>, b: Seq<usize>, c: Seq<usize>)
    requires
        list_before(a, b),
        list_before(b, c),
    ensures
        list_before(a, c),
{
    let k = choose|k: int| #[trigger] first_difference(a, b, k) && k < b.len() && (k == a.len()
        || a[k] < b[k]);
    let m = choose|m: int| #[trigger] first_difference(b, c, m) && m < c.len() && (m == b.len()
        || b[m] < c[m]);
    let n = if k < m {
        k
    } else {
        m
    };
    assert(first_difference(a, c, n));
}

/// How one list stands to another.
pub enum Standing {
    Before,
    Same,
    After,
}

fn list_standing(a: &[usize], b: &[usize]) -> (r: Standing)
    ensures
        match r {
            Standing::Before => list_before(a@, b@),
            Standing::Same => a@ == b@,
            Standing::After => list_before(b@, a@),
        },
{
    let mut k: usize = 0;
    while k < a.len() && k < b.len()
        invariant
            k <= a@.len(),
            k <= b@.len(),
            forall|i: int| 0 <= i < k ==> a@[i] == b@[i],
        decreases a@.len() - k,
    {
        assert(first_difference(a@, b@, k as int));
        assert(first_difference(b@, a@, k as int));
        if a[k] < b[k] {
            return Standing::Before;
        }
        if b[k] < a[k] {
            return Standing::After;
        }
        k += 1;
    }
    assert(first_difference(a@, b@, k as int));
    assert(first_difference(b@, a@, k as int));
    if k < b.len() {
        Standing::Before
    } else if k < a.len() {
        Standing::After
    } else {
        assert(a@ =~= b@);
        Standing::Same
    }
}

/// The entry describes a unified level-3 cache.
pub open spec fn is_level_three(entry: CacheIndex<'_>) -> bool {
    text::trim(entry.level@) == "3"@ && text::trim(entry.kind@) == "Unified"@
}

/// Some of the first `n` entries describes the level-3 domain of these ids.
pub open spec fn described(entries: Seq<CacheIndex<'_>>, n: int, cpus: Seq<usize>) -> bool {
    exists|k: int|
        0 <= k < n && is_level_three(#[trigger] entries[k]) && reads_as(
            entries[k].shared_cpu_list@,
            Some(cpus),
        )
}

/// Every level-3 entry among the first `n` can be read.
pub open spec fn level_three_readable(entries: Seq<CacheIndex<'_>>, n: int) -> bool {
    forall|k: int|
        0 <= k < n && is_level_three(#[trigger] entries[k]) ==> is_readable(
            entries[k].shared_cpu_list@,
        )
}

/// Some entry describes a unified level-3 cache.
pub open spec fn has_level_three(entries: Seq<CacheIndex<'_>>) -> bool {
    exists|k: int| 0 <= k < entries.len() && is_level_three(#[trigger] entries[k])
}

/// The sum of the lengths of some lists.
pub open spec fn cpu_sum(domains: Seq<Seq<usize>>) -> nat
    decreases domains.len(),
{
    if domains.len() == 0 {
        0
    } else {
        cpu_sum(domains.drop_last()) + domains.last().len()
    }
}

/// The distinct level-3 unified cache domains of a machine.
#[derive(Debug, Clone, PartialEq, Eq)]
pub struct L3Domains {
    domains: Vec<CacheDomain>,
}

impl View for L3Domains {
    type V = Seq<Seq<usize>>;

    closed spec fn view(&self) -> Seq<Seq<usize>> {
        domain_views(self.domains@)
    }
}

/// Puts a domain where it belongs, unless it is there already.
fn insert_domain(domains: &mut Vec<CacheDomain>, domain: CacheDomain)
    requires
        domains_ordered(domain_views(old(domains)@)),
        all_domains(domain_views(old(domains)@)),
        domain.well_formed(),
    ensures
        domains_ordered(domain_views(final(domains)@)),
        all_domains(domain_views(final(domains)@)),
        forall|cpus: Seq<usize>| #[trigger]
            domain_views(final(domains)@).contains(cpus) <==> domain_views(old(domains)@).contains(
                cpus,
            ) || cpus == domain@,
{
    let ghost before = domain_views(domains@);
    let ghost start = domains@;
    let mut at: usize = 0;
    while at < domains.len()
        invariant
            at <= domains@.len(),
            domains@ == start,
            before == domain_views(start),
            domains_ordered(before),
            all_domains(before),
            domain.well_formed(),
            forall|i: int| 0 <= i < at ==> list_before(#[trigger] before[i], domain@),
        ensures
            at <= domains@.len(),
            domains@ == start,
            forall|i: int| 0 <= i < at ==> list_before(#[trigger] before[i], domain@),
            at < domains@.len() ==> list_before(domain@, before[at as int]),
        decreases domains@.len() - at,
    {
        assert(before[at as int] == domains@[at as int]@);
        match list_standing(domains[at].cpus.as_slice(), domain.cpus.as_slice()) {
            Standing::Before => {},
            Standing::Same => {
                assert(before[at as int] == domain@);
                return ;
            },
            Standing::After => {
                break;
            },
        }
        at += 1;
    }
    let ghost added = domain@;
    domains.insert(at, domain);
    proof {
        let after = domain_views(domains@);
        assert(after =~= before.insert(at as int, added));
        assert forall|i: int, j: int| 0 <= i < j < after.len() implies list_before(
            after[i],
            after[j],
        ) by {
            if i < at && j == at {
                assert(list_before(before[i], added));
            } else if i < at && j > at {
                assert(list_before(before[i], before[j - 1]));
            } else if i == at {
                if j - 1 > at {
                    assert(list_before(before[at as int], before[j - 1]));
                    lemma_before_transitive(added, before[at as int], before[j - 1]);
                }
            } else if i > at {
                assert(list_before(before[i - 1], before[j - 1]));
            }
        }
        assert forall|i: int| 0 <= i < after.len() implies is_domain(#[trigger] after[i]) by {
            if i < at {
                assert(is_domain(before[i]));
            } else if i > at {
                assert(is_domain(before[i - 1]));
            }
        }
        assert forall|cpus: Seq<usize>| #[trigger] after.contains(cpus) <==> before.contains(cpus)
            || cpus == added by {
            if after.contains(cpus) {
                let k = choose|k: int| 0 <= k < after.len() && after[k] == cpus;
                if k < at {
                    assert(before[k] == cpus);
                } else if k > at {
                    assert(before[k - 1] == cpus);
                }
            }
            if before.contains(cpus) {
                let k = choose|k: int| 0 <= k < before.len() && before[k] == cpus;
                if k < at {
                    assert(after[k] == cpus);
                } else {
                    assert(after[k + 1] == cpus);
                }
            }
            if cpus == added {
                assert(after[at as int] == cpus);
            }
        }
    }
}

/// A list reads one way only.
pub proof fn a_list_reads_one_way(list: Seq<char>, a: Option<Seq<usize>>, b: Option<Seq<usize>>)
    requires
        reads_as(list, a),
        reads_as(list, b),
    ensures
        a == b,
{
    if let (Some(x), Some(y)) = (a, b) {
        assert forall|cpu: usize| #[trigger] x.contains(cpu) <==> y.contains(cpu) by {}
        lemma_ascending_unique(x, y);
    }
}

/// Ascending lists with the same ids are the same.
pub proof fn lemma_ascending_unique(x: Seq<usize>, y: Seq<usize>)
    requires
        ascending(x),
        ascending(y),
        forall|cpu: usize| #[trigger] x.contains(cpu) <==> y.contains(cpu),
    ensures
        x == y,
    decreases x.len(),
{
    if x.len() == 0 {
        if y.len() > 0 {
            assert(y.contains(y[0]));
            assert(x.contains(y[0]));
        }
        assert(x =~= y);
    } else if y.len() == 0 {
        assert(x.contains(x[0]));
    } else {
        let (p, q) = (x.last(), y.last());
        assert(x.contains(p) && y.contains(q));
        assert(x.contains(q) && y.contains(p));
        let i = choose|i: int| 0 <= i < y.len() && y[i] == p;
        let j = choose|j: int| 0 <= j < x.len() && x[j] == q;
        assert(p == q) by {
            if i < y.len() - 1 {
                assert(y[i] < y[y.len() - 1]);
                assert(x[j] <= p);
            }
            if j < x.len() - 1 {
                assert(x[j] < x[x.len() - 1]);
            }
        }
        let (xs, ys) = (x.drop_last(), y.drop_last());
        assert forall|cpu: usize| #[trigger] xs.contains(cpu) <==> ys.contains(cpu) by {
            if xs.contains(cpu) {
                let k = choose|k: int| 0 <= k < xs.len() && xs[k] == cpu;
                assert(x[k] == cpu && x[k] < x[x.len() - 1]);
                assert(x.contains(cpu));
                let m = choose|m: int| 0 <= m < y.len() && y[m] == cpu;
                assert(m < ys.len());
                assert(ys[m] == cpu);
            }
            if ys.contains(cpu) {
                let k = choose|k: int| 0 <= k < ys.len() && ys[k] == cpu;
                assert(y[k] == cpu && y[k] < y[y.len() - 1]);
                assert(y.contains(cpu));
                assert(x.contains(cpu));
                let m = choose|m: int| 0 <= m < x.len() && x[m] == cpu;
                assert(m < xs.len());
                assert(xs[m] == cpu);
            }
        }
        lemma_ascending_unique(xs, ys);
        assert(x =~= xs.push(p));
        assert(y =~= ys.push(q));
    }
}

/// The text of one cache directory's three files.
#[derive(Debug, Clone)]
pub struct CacheFiles {
    pub level: String,
    pub kind: String,
    pub shared_cpu_list: String,
}

/// The entries that the files of a machine's cache directories make up.
pub open spec fn entries_match(files: Seq<CacheFiles>, entries: Seq<CacheIndex<'_>>) -> bool {
    &&& entries.len() == files.len()
    &&& forall|k: int|
        0 <= k < files.len() ==> (#[trigger] entries[k]).level@ == files[k].level@
            && entries[k].kind@ == files[k].kind@ && entries[k].shared_cpu_list@
            == files[k].shared_cpu_list@
}

impl L3Domains {
    /// There are domains, all well formed, in strictly ascending order.
    pub open spec fn well_formed(&self) -> bool {
        &&& self@.len() > 0
        &&& all_domains(self@)
        &&& domains_ordered(self@)
    }

    /// Collects the distinct level-3 unified domains described by `entries`.
    ///
    /// Every CPU in a domain reports that domain, so the same set arrives once
    /// per hardware thread and is deduplicated here. A level-3 list that cannot
    /// be read spoils the whole: guessing at it would be worse than not
    /// pinning.
    #[must_use]
    pub fn from_cache_entries(entries: &[CacheIndex<'_>]) -> (r: Option<Self>)
        ensures
            match r {
                None => !level_three_readable(entries@, entries@.len() as int) || !has_level_three(
                    entries@,
                ),
                Some(found) => {
                    &&& level_three_readable(entries@, entries@.len() as int)
                    &&& has_level_three(entries@)
                    &&& found.well_formed()
                    &&& forall|cpus: Seq<usize>| #[trigger]
                        found@.contains(cpus) <==> described(
                            entries@,
                            entries@.len() as int,
                            cpus,
                        )
                },
            },
    {
        let mut domains: Vec<CacheDomain> = Vec::new();
        let mut i: usize = 0;
        while i < entries.len()
            invariant
                i <= entries@.len(),
                domains_ordered(domain_views(domains@)),
                all_domains(domain_views(domains@)),
                level_three_readable(entries@, i as int),
                forall|cpus: Seq<usize>| #[trigger]
                    domain_views(domains@).contains(cpus) <==> described(entries@, i as int, cpus),
                domains@.len() == 0 <==> !(exists|k: int|
                    0 <= k < i && is_level_three(#[trigger] entries@[k])),
            decreases entries@.len() - i,
        {
            let entry = entries[i];
            let ghost before = domain_views(domains@);
            let level = text::trimmed(entry.level);
            let kind = text::trimmed(entry.kind);
            if text::same_text(level.as_str(), "3") && text::same_text(kind.as_str(), "Unified") {
                assert(is_level_three(entries@[i as int]));
                match parse_cpu_list(entry.shared_cpu_list) {
                    None => {
                        return None;
                    },
                    Some(cpus) => {
                        let ghost ids = cpus@;
                        insert_domain(&mut domains, CacheDomain { cpus });
                        proof {
                            let after = domain_views(domains@);
                            assert forall|cpus: Seq<usize>| #[trigger]
                                after.contains(cpus) <==> described(entries@, i + 1, cpus) by {
                                assert(after.contains(cpus) <==> before.contains(cpus) || cpus
                                    == ids);
                                assert(before.contains(cpus) <==> described(
                                    entries@,
                                    i as int,
                                    cpus,
                                ));
                                if described(entries@, i + 1, cpus) && !described(
                                    entries@,
                                    i as int,
                                    cpus,
                                ) {
                                    a_list_reads_one_way(
                                        entry.shared_cpu_list@,
                                        Some(cpus),
                                        Some(ids),
                                    );
                                }
                                if cpus == ids {
                                    assert(is_level_three(entries@[i as int]));
                                }
                            }
                            assert(after.contains(ids));
                            assert(domains@.len() > 0);
                        }
                    },
                }
            }
            i += 1;
        }
        if domains.len() == 0 {
            return None;
        }
        Some(L3Domains { domains })
    }

    /// The machine's level-3 domains as its cache files describe them, or
    /// `None` if the topology cannot be established from them.
    #[must_use]
    pub fn read(files: &Vec<CacheFiles>) -> (r: Option<Self>)
        ensures
            exists|entries: Seq<CacheIndex<'_>>| #[trigger]
                entries_match(files@, entries) && match r {
                    None => !level_three_readable(entries, entries.len() as int)
                        || !has_level_three(entries),
                    Some(found) => {
                        &&& level_three_readable(entries, entries.len() as int)
                        &&& has_level_three(entries)
                        &&& found.well_formed()
                        &&& forall|cpus: Seq<usize>| #[trigger]
                            found@.contains(cpus) <==> described(
                                entries,
                                entries.len() as int,
                                cpus,
                            )
                    },
                },
    {
        let mut entries: Vec<CacheIndex<'_>> = Vec::new();
        let mut i: usize = 0;
        while i < files.len()
            invariant
                i <= files@.len(),
                entries@.len() == i,
                forall|k: int|
                    0 <= k < i ==> (#[trigger] entries@[k]).level@ == files@[k].level@
                        && entries@[k].kind@ == files@[k].kind@ && entries@[k].shared_cpu_list@
                        == files@[k].shared_cpu_list@,
            decreases files@.len() - i,
        {
            entries.push(
                CacheIndex {
                    level: files[i].level.as_str(),
                    kind: files[i].kind.as_str(),
                    shared_cpu_list: files[i].shared_cpu_list.as_str(),
                },
            );
            i += 1;
        }
        assert(entries_match(files@, entries@));
        Self::from_cache_entries(entries.as_slice())
    }

    /// The domains, ordered by their lowest CPU id.
    #[must_use]
    pub fn domains(&self) -> (r: &[CacheDomain])
        ensures
            domain_views(r@) == self@,
    {
        self.domains.as_slice()
    }

    /// Total CPUs across all domains.
    #[must_use]
    pub fn total_cpus(&self) -> (r: usize)
        requires
            cpu_sum(self@) <= usize::MAX,
        ensures
            r == cpu_sum(self@),
    {
        total_of(self.domains.as_slice())
    }
}

proof fn lemma_cpu_sum_prefix(domains: Seq<Seq<usize>>, n: int)
    requires
        0 <= n <= domains.len(),
    ensures
        cpu_sum(domains.subrange(0, n)) <= cpu_sum(domains),
    decreases domains.len() - n,
{
    if n < domains.len() {
        lemma_cpu_sum_prefix(domains, n + 1);
        assert(domains.subrange(0, n + 1).drop_last() =~= domains.subrange(0, n));
    } else {
        assert(domains.subrange(0, n) =~= domains);
    }
}

/// Total CPUs across some domains.
pub fn total_of(domains: &[CacheDomain]) -> (r: usize)
    requires
        cpu_sum(domain_views(domains@)) <= usize::MAX,
    ensures
        r == cpu_sum(domain_views(domains@)),
{
    let ghost views = domain_views(domains@);
    let mut total: usize = 0;
    let mut i: usize = 0;
    assert(views.subrange(0, 0) =~= Seq::<Seq<usize>>::empty());
    while i < domains.len()
        invariant
            i <= domains@.len(),
            views == domain_views(domains@),
            cpu_sum(views) <= usize::MAX,
            total == cpu_sum(views.subrange(0, i as int)),
        decreases domains@.len() - i,
    {
        proof {
            assert(views.subrange(0, i + 1).drop_last() =~= views.subrange(0, i as int));
            assert(views.subrange(0, i + 1).last() == domains@[i as int]@);
            lemma_cpu_sum_prefix(views, i + 1);
        }
        total += domains[i].cpus.len();
        i += 1;
    }
    assert(views.subrange(0, i as int) =~= views);
    total
}

proof fn lemma_run_chars(run: (usize, usize))
    ensures
        run_text(run).len() > 0,
        forall|i: int|
            0 <= i < run_text(run).len() ==> text::is_digit(#[trigger] run_text(run)[i]) || run_text(
                run,
            )[i] == '-',
        text::is_digit(run_text(run)[0]),
        text::is_digit(run_text(run).last()),
{
    text::lemma_decimal_digits(run.0 as nat);
    text::lemma_decimal_digits(run.1 as nat);
    let (a, b) = (text::decimal(run.0 as nat), text::decimal(run.1 as nat));
    assert(text::is_digit(a[0]) && text::is_digit(a.last()) && text::is_digit(b.last()));
    if run.0 != run.1 {
        let t = run_text(run);
        assert(t.last() == b.last());
        assert forall|i: int| 0 <= i < t.len() implies text::is_digit(#[trigger] t[i]) || t[i]
            == '-' by {
            if i < a.len() {
                assert(t[i] == a[i]);
            } else if i > a.len() {
                assert(t[i] == b[i - a.len() - 1]);
            }
        }
    }
}

proof fn lemma_run_reads(run: (usize, usize))
    requires
        run.0 <= run.1 <= MAX_CPU_ID,
    ensures
        part_range(run_text(run)) == Some((run.0 as int, run.1 as int)),
{
    let (a, b) = (text::decimal(run.0 as nat), text::decimal(run.1 as nat));
    let t = run_text(run);
    lemma_run_chars(run);
    text::lemma_trim_nothing(t);
    text::lemma_decimal_digits(run.0 as nat);
    text::lemma_decimal_digits(run.1 as nat);
    text::lemma_decimal_reads(run.0 as nat, usize::MAX as int);
    text::lemma_decimal_reads(run.1 as nat, usize::MAX as int);
    if run.0 == run.1 {
        assert(!t.contains('-')) by {
            if t.contains('-') {
                let i = choose|i: int| 0 <= i < t.len() && t[i] == '-';
                assert(text::is_digit(a[i]));
            }
        }
    } else {
        assert(t[a.len() as int] == '-');
        t.index_of_first_ensures('-');
        let at = t.index_of_first('-')->0;
        assert(at == a.len()) by {
            if at < a.len() {
                assert(t[at] == a[at]);
                assert(text::is_digit(a[at]));
            }
        }
        assert(t.subrange(0, at) =~= a);
        assert(t.subrange(at + 1, t.len() as int) =~= b);
        assert(text::is_digit(a[0]) && text::is_digit(a.last()));
        assert(text::is_digit(b[0]) && text::is_digit(b.last()));
        text::lemma_trim_nothing(a);
        text::lemma_trim_nothing(b);
    }
}

proof fn lemma_runs_text(all: Seq<(usize, usize)>)
    requires
        all.len() > 0,
    ensures
        runs_text(all).len() > 0,
        text::is_digit(runs_text(all)[0]),
        text::is_digit(runs_text(all).last()),
        text::split_on(runs_text(all), ',') == Seq::new(all.len(), |i: int| run_text(all[i])),
    decreases all.len(),
{
    let last = run_text(all.last());
    lemma_run_chars(all.last());
    assert forall|i: int| 0 <= i < last.len() implies last[i] != ',' by {
        assert(text::is_digit(last[i]) || last[i] == '-');
    }
    if all.len() == 1 {
        text::lemma_split_one(last, ',');
        assert(seq![last] =~= Seq::new(all.len(), |i: int| run_text(all[i])));
    } else {
        let rest = all.drop_last();
        lemma_runs_text(rest);
        text::lemma_split_append(runs_text(rest), last, ',');
        assert(runs_text(all).last() == last.last());
        assert(runs_text(all)[0] == runs_text(rest)[0]);
        assert(text::split_on(runs_text(all), ',') =~= Seq::new(
            all.len(),
            |i: int| run_text(all[i]),
        ));
    }
}

/// Some run holds the id.
spec fn in_runs(all: Seq<(usize, usize)>, cpu: usize) -> bool {
    exists|k: int| 0 <= k < all.len() && (#[trigger] all[k]).0 <= cpu <= all[k].1
}

proof fn lemma_runs_cover(cpus: Seq<usize>)
    requires
        ascending(cpus),
        forall|k: int| 0 <= k < cpus.len() ==> cpus[k] <= MAX_CPU_ID,
    ensures
        cpus.len() > 0 ==> runs(cpus).len() > 0 && runs(cpus).last().1 == cpus.last(),
        forall|k: int|
            0 <= k < runs(cpus).len() ==> (#[trigger] runs(cpus)[k]).0 <= runs(cpus)[k].1
                <= MAX_CPU_ID,
        forall|cpu: usize| #[trigger] in_runs(runs(cpus), cpu) <==> cpus.contains(cpu),
    decreases cpus.len(),
{
    let all = runs(cpus);
    if cpus.len() == 0 {
        assert forall|cpu: usize| #[trigger] in_runs(all, cpu) <==> cpus.contains(cpu) by {}
    } else {
        let rest = cpus.drop_last();
        let before = runs(rest);
        let added = cpus.last();
        lemma_runs_cover(rest);
        assert forall|k: int| 0 <= k < all.len() implies (#[trigger] all[k]).0 <= all[k].1
            <= MAX_CPU_ID by {
            if k < before.len() {
                assert(before[k].0 <= before[k].1);
            }
        }
        assert forall|cpu: usize| #[trigger] in_runs(all, cpu) <==> cpus.contains(cpu) by {
            assert(in_runs(before, cpu) <==> rest.contains(cpu));
            if in_runs(all, cpu) {
                let k = choose|k: int| 0 <= k < all.len() && (#[trigger] all[k]).0 <= cpu
                    <= all[k].1;
                if cpu == added {
                    assert(cpus[cpus.len() - 1] == cpu);
                } else {
                    assert(k < before.len());
                    assert(before[k].0 <= cpu <= before[k].1);
                    assert(rest.contains(cpu));
                    let j = choose|j: int| 0 <= j < rest.len() && rest[j] == cpu;
                    assert(cpus[j] == cpu);
                }
            }
            if cpus.contains(cpu) {
                let j = choose|j: int| 0 <= j < cpus.len() && cpus[j] == cpu;
                if j < rest.len() {
                    assert(rest[j] == cpu);
                    assert(rest.contains(cpu));
                    let k = choose|k: int| 0 <= k < before.len() && (#[trigger] before[k]).0 <= cpu
                        <= before[k].1;
                    assert(all[k].0 <= cpu <= all[k].1);
                } else {
                    let k = all.len() - 1;
                    if before.len() > 0 {
                        assert(before[before.len() - 1].0 <= before[before.len() - 1].1);
                    }
                    assert(all[k].0 <= cpu <= all[k].1);
                }
            }
        }
    }
}

/// A domain's text reads back as exactly the domain.
pub proof fn a_rendered_domain_reads_back(cpus: Seq<usize>)
    requires
        is_domain(cpus),
    ensures
        reads_as(list_text(cpus), Some(cpus)),
{
    let all = runs(cpus);
    let list = list_text(cpus);
    lemma_runs_cover(cpus);
    lemma_runs_text(all);
    text::lemma_trim_nothing(list);
    let parts = list_parts(list);
    assert forall|k: int| 0 <= k < parts.len() implies part_range(#[trigger] parts[k]) == Some(
        (all[k].0 as int, all[k].1 as int),
    ) by {
        assert(all[k].0 <= all[k].1);
        lemma_run_reads(all[k]);
    }
    assert forall|cpu: usize| #[trigger] cpus.contains(cpu) <==> list_names(list, cpu as int) by {
        assert(in_runs(all, cpu) <==> cpus.contains(cpu));
        if in_runs(all, cpu) {
            let k = choose|k: int| 0 <= k < all.len() && (#[trigger] all[k]).0 <= cpu <= all[k].1;
            assert(part_names(parts[k], cpu as int));
        }
        if list_names(list, cpu as int) {
            let k = choose|k: int| 0 <= k < parts.len() && part_names(
                #[trigger] parts[k],
                cpu as int,
            );
            assert(all[k].0 <= cpu <= all[k].1);
        }
    }
}

} // verus!
