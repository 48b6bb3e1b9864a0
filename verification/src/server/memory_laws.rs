//! What holds of the memory that a process may take.

use crate::server::memory;
use crate::server::memory::{CgroupHeadroom, CgroupLevel, CgroupLimit};
use crate::text;
use crate::text_laws;
use vstd::prelude::*;

verus! {

/// The allowance is the host's figure or what the limit leaves, whichever is
/// less, and it is known wherever one of them is and the other leaves it be.
pub proof fn the_allowance_is_the_lesser_of_the_two(host: Option<u64>, left: u64)
    ensures
        memory::allowed(host, CgroupHeadroom::Unlimited) == host,
        memory::allowed(host, CgroupHeadroom::Unreadable) is None,
        memory::allowed(None, CgroupHeadroom::Limited(left)) == Some(left),
        host is Some ==> ({
            let bytes = memory::allowed(host, CgroupHeadroom::Limited(left));
            &&& bytes is Some
            &&& bytes->0 <= left && bytes->0 <= host->0
            &&& bytes->0 == left || bytes->0 == host->0
        }),
{
}

/// What is used and what is left make up the limit, and nothing is left where
/// more is used than it allows.
pub proof fn the_rest_of_a_limit_is_left(limit: u64, used: u64)
    ensures
        ({
            let left = memory::level_headroom(CgroupLimit::Bytes(limit), Some(used));
            &&& left is Limited
            &&& used <= limit ==> left->Limited_0 + used == limit
            &&& used > limit ==> left->Limited_0 == 0
        }),
        memory::level_headroom(CgroupLimit::Bytes(limit), None) is Unreadable,
        memory::level_headroom(CgroupLimit::Unparseable, Some(used)) is Unreadable,
        memory::level_headroom(CgroupLimit::Unlimited, Some(used)) is Unlimited,
        memory::level_headroom(CgroupLimit::Unlimited, None) is Unlimited,
{
}

/// Of two headrooms the narrower counts, in either order: one that cannot be
/// read hides the other, and one without a limit leaves the other as it is.
pub proof fn the_narrower_of_two_counts(a: CgroupHeadroom, b: CgroupHeadroom)
    ensures
        memory::narrower(a, b) == memory::narrower(b, a),
        a is Unreadable ==> memory::narrower(a, b) is Unreadable,
        a is Unlimited ==> memory::narrower(a, b) == b,
        a is Limited && b is Limited ==> ({
            let both = memory::narrower(a, b);
            &&& both == a || both == b
            &&& both is Limited && both->Limited_0 <= a->Limited_0 && both->Limited_0
                <= b->Limited_0
        }),
{
}

/// The headroom of a hierarchy is that of one of its levels, or there is no
/// limit at all of them.
pub proof fn some_level_sets_the_headroom(levels: Seq<CgroupLevel>, n: nat)
    requires
        n <= levels.len(),
    ensures
        memory::levels_headroom(levels, n) is Unlimited || exists|i: int|
            0 <= i < n && memory::levels_headroom(levels, n) == #[trigger] memory::stated_headroom(
                levels[i],
            ),
    decreases n,
{
    if n > 0 {
        let shorter = (n - 1) as nat;
        some_level_sets_the_headroom(levels, shorter);
        let here = memory::stated_headroom(levels[n - 1]);
        if memory::levels_headroom(levels, n) != here && !(memory::levels_headroom(
            levels,
            n,
        ) is Unlimited) {
            let i = choose|i: int|
                0 <= i < shorter && memory::levels_headroom(levels, shorter)
                    == #[trigger] memory::stated_headroom(levels[i]);
            assert(memory::levels_headroom(levels, n) == memory::stated_headroom(levels[i]));
        }
    }
}

proof fn lemma_decimal_trims(n: nat)
    ensures
        text::trim(text::decimal(n)) == text::decimal(n),
        text::decimal(n).len() > 0,
        forall|i: int|
            0 <= i < text::decimal(n).len() ==> !text::is_white(#[trigger] text::decimal(n)[i]),
{
    text::lemma_decimal_digits(n);
    assert forall|i: int| 0 <= i < text::decimal(n).len() implies !text::is_white(
        #[trigger] text::decimal(n)[i],
    ) by {
        assert(text::is_digit(text::decimal(n)[i]));
    }
    text::lemma_trim_nothing(text::decimal(n));
}

proof fn lemma_line_end_trims(s: Seq<char>)
    requires
        s.len() > 0,
        !text::is_white(s[0]),
        !text::is_white(s.last()),
    ensures
        text::trim(s.push('\n')) == s,
{
    let whole = s.push('\n');
    assert(whole[0] == s[0]);
    assert(whole.drop_last() =~= s);
    assert(text::trim_start(whole) == whole);
    assert(text::trim_end(whole) == text::trim_end(s));
    assert(text::trim_end(s) == s);
}

/// A limit file that holds a number below one exbibyte sets that limit; a
/// larger number, like the word `max`, sets none. The charge file holds the
/// bytes used. The line end behind either does not count.
pub proof fn a_limit_file_says_its_bytes(n: nat)
    requires
        n <= u64::MAX,
    ensures
        memory::limit_of(text::decimal(n).push('\n')) == memory::limit_of(text::decimal(n)),
        memory::limit_of(text::decimal(n)) == (if n < 1152921504606846976 {
            CgroupLimit::Bytes(n as u64)
        } else {
            CgroupLimit::Unlimited
        }),
        memory::limit_of("max"@.push('\n')) is Unlimited,
        memory::limit_of("max"@) is Unlimited,
        memory::charge_of(text::decimal(n)) == Some(n as u64),
        memory::charge_of(text::decimal(n).push('\n')) == Some(n as u64),
{
    reveal_strlit("max");
    lemma_decimal_trims(n);
    lemma_line_end_trims(text::decimal(n));
    text::lemma_trim_nothing("max"@);
    lemma_line_end_trims("max"@);
    text::lemma_decimal_digits(n);
    assert(text::is_digit(text::decimal(n)[0]));
    text_laws::a_number_reads_back(n, u64::MAX as int);
}

/// A line of a process's cgroups is a number, the controllers and a path, with
/// colons between. For the unified hierarchy the first line with the number
/// zero and no controllers counts, for a controller the first that lists it;
/// its path is all that stands behind the second colon.
pub proof fn a_cgroup_line_names_its_path(
    number: Seq<char>,
    controllers: Seq<char>,
    path: Seq<char>,
    wanted: Seq<char>,
)
    requires
        !number.contains(':'),
        !controllers.contains(':'),
    ensures
        ({
            let line = number + seq![':'] + (controllers + seq![':'] + path);
            &&& memory::line_path(line) == path
            &&& memory::line_matches(line, None) <==> number == "0"@ && controllers.len() == 0
            &&& memory::line_matches(line, Some(wanted)) <==> text::split_on(
                controllers,
                ',',
            ).contains(wanted)
        }),
{
    let rest = controllers + seq![':'] + path;
    let line = number + seq![':'] + rest;
    text_laws::lemma_split_front(number, rest, ':');
    text_laws::lemma_split_front(controllers, path, ':');
    text::lemma_split_nonempty(path, ':');
    let pieces = text::split_on(line, ':');
    assert(pieces[0] == number);
    assert(pieces[1] == text::split_on(rest, ':')[0]);
    assert(line.subrange((number.len() + controllers.len() + 2) as int, line.len() as int)
        =~= path);
}

/// The path found is that of the first line that matches; none is found
/// exactly where no line does.
pub proof fn the_first_matching_line_counts(
    lines: Seq<Seq<char>>,
    controller: Option<Seq<char>>,
    i: nat,
)
    requires
        i <= lines.len(),
    ensures
        memory::first_path(lines, controller, i) is None ==> forall|k: int|
            i <= k < lines.len() ==> !memory::line_matches(#[trigger] lines[k], controller),
        memory::first_path(lines, controller, i) is Some ==> exists|k: int|
            {
                &&& i <= k < lines.len()
                &&& memory::line_matches(#[trigger] lines[k], controller)
                &&& memory::first_path(lines, controller, i) == Some(memory::line_path(lines[k]))
                &&& forall|j: int|
                    i <= j < k ==> !memory::line_matches(#[trigger] lines[j], controller)
            },
    decreases lines.len() - i,
{
    if i < lines.len() {
        if memory::line_matches(lines[i as int], controller) {
        } else {
            the_first_matching_line_counts(lines, controller, i + 1);
            if memory::first_path(lines, controller, i + 1) is Some {
                let k = choose|k: int|
                    {
                        &&& i + 1 <= k < lines.len()
                        &&& memory::line_matches(#[trigger] lines[k], controller)
                        &&& memory::first_path(lines, controller, i + 1) == Some(
                            memory::line_path(lines[k]),
                        )
                        &&& forall|j: int|
                            i + 1 <= j < k ==> !memory::line_matches(
                                #[trigger] lines[j],
                                controller,
                            )
                    };
                assert(memory::line_matches(lines[k], controller));
            }
        }
    }
}

proof fn lemma_first_white(s: Seq<char>, at: nat, i: nat)
    requires
        i <= at < s.len(),
        text::is_white(s[at as int]),
        forall|k: int| 0 <= k < at ==> !text::is_white(#[trigger] s[k]),
    ensures
        memory::first_white(s, i) == at,
    decreases at - i,
{
    if i < at {
        lemma_first_white(s, at, i + 1);
    }
}

proof fn lemma_blanks_trim(blanks: Seq<char>, s: Seq<char>)
    requires
        s.len() > 0,
        !text::is_white(s[0]),
        !text::is_white(s.last()),
        forall|i: int| 0 <= i < blanks.len() ==> #[trigger] blanks[i] == ' ',
    ensures
        text::trim(blanks + s) == s,
    decreases blanks.len(),
{
    if blanks.len() == 0 {
        assert(blanks + s =~= s);
        text::lemma_trim_nothing(s);
    } else {
        let fewer = blanks.subrange(1, blanks.len() as int);
        assert((blanks + s)[0] == blanks[0]);
        assert((blanks + s).subrange(1, (blanks + s).len() as int) =~= fewer + s);
        lemma_blanks_trim(fewer, s);
    }
}

/// A field of so many kibibytes is 1024 times as many bytes, with any blanks
/// in front; with no unit behind the number nothing is read.
pub proof fn a_field_is_read_in_kibibytes(blanks: Seq<char>, n: nat)
    requires
        n * 1024 <= u64::MAX,
        forall|i: int| 0 <= i < blanks.len() ==> #[trigger] blanks[i] == ' ',
    ensures
        memory::field_bytes(blanks + (text::decimal(n) + " kB"@)) == Some((1024 * n) as u64),
        memory::field_bytes(blanks + text::decimal(n)) is None,
{
    reveal_strlit(" kB");
    lemma_decimal_trims(n);
    let number = text::decimal(n);
    let inner = number + " kB"@;
    assert(inner[0] == number[0]);
    assert(inner.last() == 'B');
    lemma_blanks_trim(blanks, inner);
    assert(inner[number.len() as int] == ' ');
    assert forall|k: int| 0 <= k < number.len() implies !text::is_white(#[trigger] inner[k]) by {
        assert(inner[k] == number[k]);
    }
    lemma_first_white(inner, number.len(), 0);
    let unit = inner.subrange(number.len() as int + 1, inner.len() as int);
    assert(unit =~= seq!['k', 'B']);
    text::lemma_trim_nothing(unit);
    assert(inner.subrange(0, number.len() as int) =~= number);
    text_laws::a_number_reads_back(n, u64::MAX as int);
    lemma_blanks_trim(blanks, number);
    lemma_no_white(number, 0);
}

proof fn lemma_no_white(s: Seq<char>, i: nat)
    requires
        i <= s.len(),
        forall|k: int| 0 <= k < s.len() ==> !text::is_white(#[trigger] s[k]),
    ensures
        memory::first_white(s, i) == s.len(),
    decreases s.len() - i,
{
    if i < s.len() {
        lemma_no_white(s, i + 1);
    }
}

/// What is available is read from the first line that names it; lines before
/// it that name something else do not matter.
pub proof fn the_available_line_is_read(
    before: Seq<Seq<char>>,
    field: Seq<char>,
    after: Seq<Seq<char>>,
    i: nat,
)
    requires
        i <= before.len(),
        forall|k: int|
            0 <= k < before.len() ==> !text::starts_with(#[trigger] before[k], "MemAvailable:"@),
    ensures
        memory::available_field(before + seq!["MemAvailable:"@ + field] + after, i) == Some(field),
        memory::available_field(before, i) is None,
    decreases before.len() - i,
{
    let lines = before + seq!["MemAvailable:"@ + field] + after;
    if i < before.len() {
        assert(lines[i as int] == before[i as int]);
        the_available_line_is_read(before, field, after, i + 1);
    } else {
        assert(lines[i as int] == "MemAvailable:"@ + field);
        text_laws::a_prefix_comes_off("MemAvailable:"@, field, field);
    }
}

/// A level without a limit file binds nothing; one whose files hold a limit
/// and a charge leaves the difference, and one whose limit or charge cannot be
/// read leaves nothing that is known.
pub proof fn a_level_leaves_limit_less_charge(level: CgroupLevel, limit: nat, charge: nat)
    requires
        limit < 1152921504606846976,
        charge <= limit,
    ensures
        level.limit is Absent ==> memory::stated_headroom(level) is Unlimited,
        level.limit is Unreadable ==> memory::stated_headroom(level) is Unreadable,
        level.limit is Text && level.limit->Text_0@ == text::decimal(limit) ==> {
            &&& level.current is Text && level.current->Text_0@ == text::decimal(charge)
                ==> memory::stated_headroom(level) == CgroupHeadroom::Limited(
                (limit - charge) as u64,
            )
            &&& !(level.current is Text) ==> memory::stated_headroom(level) is Unreadable
        },
{
    a_limit_file_says_its_bytes(limit);
    a_limit_file_says_its_bytes(charge);
}

/// What is available is the field of the first line that names it, and nothing
/// is known where no line does.
pub proof fn available_memory_is_that_of_its_line(
    meminfo: Seq<char>,
    before: Seq<Seq<char>>,
    field: Seq<char>,
    after: Seq<Seq<char>>,
)
    requires
        forall|k: int|
            0 <= k < before.len() ==> !text::starts_with(#[trigger] before[k], "MemAvailable:"@),
    ensures
        text::lines_of(meminfo) == before + seq!["MemAvailable:"@ + field] + after
            ==> memory::available_of(meminfo) == memory::field_bytes(field),
        text::lines_of(meminfo) == before ==> memory::available_of(meminfo) is None,
{
    the_available_line_is_read(before, field, after, 0);
}

} // verus!
