//! What holds of lists of processors and of masks.

use crate::cpu::affinity;
use crate::cpu::affinity::CpuMask;
use crate::cpu::topology;
use crate::text;
use crate::text_laws;
use vstd::prelude::*;

verus! {

proof fn lemma_id(n: nat)
    requires
        n <= usize::MAX,
    ensures
        topology::id_of(text::decimal(n)) == Some(n as int),
        text::trim(text::decimal(n)) == text::decimal(n),
        !text::decimal(n).contains('-'),
        text::decimal(n).len() > 0,
{
    text::lemma_decimal_digits(n);
    let number = text::decimal(n);
    assert(text::is_digit(number[0]));
    assert(text::is_digit(number.last()));
    text::lemma_trim_nothing(number);
    text_laws::a_number_reads_back(n, usize::MAX as int);
    if number.contains('-') {
        let k = choose|k: int| 0 <= k < number.len() && number[k] == '-';
        assert(text::is_digit(number[k]));
    }
}

/// A number names one processor and two with a dash between name all from the
/// first to the last, up to the largest id that is taken; a range that runs
/// backwards, or a number with a sign, is not read.
pub proof fn a_part_names_its_range(first: nat, last: nat)
    requires
        first <= usize::MAX,
        last <= usize::MAX,
    ensures
        topology::part_range(text::decimal(first)) == (if first <= 8192 {
            Some((first as int, first as int))
        } else {
            None
        }),
        topology::part_range(text::decimal(first) + seq!['-'] + text::decimal(last)) == (if first
            <= last && last <= 8192 {
            Some((first as int, last as int))
        } else {
            None
        }),
        topology::part_range(seq!['+'] + text::decimal(first)) is None,
{
    lemma_id(first);
    lemma_id(last);
    let a = text::decimal(first);
    let b = text::decimal(last);
    text::lemma_decimal_digits(first);
    text::lemma_decimal_digits(last);
    assert(text::is_digit(a[0]));
    assert(text::is_digit(a.last()));
    assert(text::is_digit(b.last()));
    let both = a + seq!['-'] + b;
    assert(both[0] == a[0]);
    assert(both.last() == b.last());
    text::lemma_trim_nothing(both);
    assert(both[a.len() as int] == '-');
    assert(both.contains('-'));
    text_laws::a_text_is_cut_at_its_first_separator(both, '-');
    let cut = text::split_once(both, '-')->0;
    assert(cut.0.len() == a.len()) by {
        if cut.0.len() < a.len() {
            assert(both[cut.0.len() as int] == '-');
            assert(a[cut.0.len() as int] == '-');
            assert(a.contains('-'));
        }
        if cut.0.len() > a.len() {
            assert(cut.0[a.len() as int] == both[a.len() as int]);
            assert(cut.0.contains('-'));
        }
    }
    assert(cut.0 =~= a) by {
        assert forall|k: int| 0 <= k < a.len() implies cut.0[k] == a[k] by {
            assert(both[k] == a[k]);
        }
    }
    assert(cut.1 =~= b) by {
        assert forall|k: int| 0 <= k < b.len() implies cut.1[k] == b[k] by {
            assert(both[a.len() + 1 + k] == b[k]);
        }
    }
    let plus = seq!['+'] + a;
    assert(plus.last() == a.last());
    text::lemma_trim_nothing(plus);
    assert(!plus.contains('-')) by {
        if plus.contains('-') {
            let k = choose|k: int| 0 <= k < plus.len() && plus[k] == '-';
            assert(k > 0);
            assert(a[k - 1] == '-');
            assert(a.contains('-'));
        }
    }
}

/// A part of a list is read, and a processor lies in its range.
pub open spec fn covers(part: Seq<char>, cpu: int) -> bool {
    topology::part_range(part) is Some && ({
        let range = topology::part_range(part)->0;
        range.0 <= cpu && cpu <= range.1
    })
}

/// A list's parts are what stands between its commas, and it names what any of
/// them covers.
pub proof fn a_list_names_what_its_parts_cover(list: Seq<char>, cpu: int)
    ensures
        text_laws::joined(topology::list_parts(list), ',') == text::trim(list),
        topology::list_names(list, cpu) <==> exists|k: int|
            0 <= k < topology::list_parts(list).len() && covers(
                #[trigger] topology::list_parts(list)[k],
                cpu,
            ),
{
    text_laws::the_pieces_make_up_the_text(text::trim(list), ',');
    let parts = topology::list_parts(list);
    assert forall|k: int| 0 <= k < parts.len() implies topology::part_names(
        #[trigger] parts[k],
        cpu,
    ) == covers(parts[k], cpu) by {}
}

/// The runs of an ascending list are as long as they can be: behind a run at
/// least one processor is missing before the next, and the last run ends with
/// the last processor.
pub proof fn runs_are_as_long_as_they_can_be(cpus: Seq<usize>)
    requires
        topology::ascending(cpus),
    ensures
        ({
            let all = topology::runs(cpus);
            &&& all.len() == 0 <==> cpus.len() == 0
            &&& forall|i: int| 0 <= i < all.len() ==> (#[trigger] all[i]).0 <= all[i].1
            &&& forall|i: int, j: int|
                #![trigger all[i], all[j]]
                0 <= i && j == i + 1 && j < all.len() ==> all[i].1 + 1 < all[j].0
            &&& cpus.len() > 0 ==> all.last().1 == cpus.last() && all[0].0 == cpus[0]
        }),
    decreases cpus.len(),
{
    if cpus.len() > 0 {
        let shorter = cpus.drop_last();
        runs_are_as_long_as_they_can_be(shorter);
        if shorter.len() > 0 {
            assert(shorter.last() < cpus.last());
            assert(shorter[0] == cpus[0]);
        }
    }
}

/// A mask is sixteen words of sixty-four processors each: the word that a
/// processor's number falls into has the bit set at the rest, for all of the
/// 1024 and for none beyond.
pub proof fn a_mask_has_a_bit_for_each_cpu(mask: CpuMask, word: int, at: u64)
    requires
        0 <= word < 16,
        at < 64,
    ensures
        mask.holds(64 * word + at) <==> (mask.words@[word] >> at) & 1 == 1,
        !mask.holds(1024 + word),
        !mask.holds(-1 - word),
{
    let cpu = 64 * word + at;
    assert(cpu / 64 == word && cpu % 64 == at);
}

/// The third level of a cache that holds both code and data is named by the
/// digit three and the word for it, with any white space around.
pub proof fn a_level_three_cache_is_unified(entry: topology::CacheIndex<'_>)
    ensures
        topology::is_level_three(entry) <==> text::trim(entry.level@) == seq!['3'] && text::trim(
            entry.kind@,
        ) == seq!['U', 'n', 'i', 'f', 'i', 'e', 'd'],
{
    reveal_strlit("3");
    reveal_strlit("Unified");
    assert("3"@ =~= seq!['3']);
    assert("Unified"@ =~= seq!['U', 'n', 'i', 'f', 'i', 'e', 'd']);
}

/// A directory is a processor's where its name is the word and a number behind
/// it, and not where the number is missing.
pub proof fn a_numbered_name_ends_in_its_number(prefix: Seq<char>, n: nat)
    ensures
        topology::is_numbered(prefix + text::decimal(n), prefix),
        !topology::is_numbered(prefix, prefix),
        !topology::is_numbered(prefix + text::decimal(n) + seq!['x'], prefix),
        !topology::is_numbered(prefix + seq!['x'] + text::decimal(n), prefix),
{
    text::lemma_decimal_digits(n);
    let number = text::decimal(n);
    let name = prefix + number;
    text_laws::a_prefix_comes_off(prefix, number, name);
    assert forall|i: int| prefix.len() <= i < name.len() implies text::is_digit(
        #[trigger] name[i],
    ) by {
        assert(name[i] == number[i - prefix.len()]);
    }
    let longer = name + seq!['x'];
    assert(longer[name.len() as int] == 'x');
    let marked = prefix + seq!['x'] + number;
    assert(marked[prefix.len() as int] == 'x');
}

/// Of two lists the one whose first different processor is smaller stands
/// first, and a list stands before those that go on from it.
pub proof fn lists_stand_by_their_first_difference(
    common: Seq<usize>,
    a: usize,
    b: usize,
    rest: Seq<usize>,
    other: Seq<usize>,
)
    requires
        a < b,
    ensures
        topology::list_before(common + seq![a] + rest, common + seq![b] + other),
        topology::list_before(common, common + seq![b] + other),
        !topology::list_before(common, common),
{
    let first = common + seq![a] + rest;
    let second = common + seq![b] + other;
    let k = common.len() as int;
    assert(topology::first_difference(first, second, k));
    assert(topology::first_difference(common, second, k));
}

/// One entry more is a third level cache where it is one itself or another
/// was, and all of them are readable where it is or is none.
pub proof fn each_entry_counts_for_itself(
    entries: Seq<topology::CacheIndex<'_>>,
    one: topology::CacheIndex<'_>,
)
    ensures
        ({
            let more = entries.push(one);
            &&& topology::has_level_three(more) <==> topology::has_level_three(entries)
                || topology::is_level_three(one)
            &&& topology::level_three_readable(more, more.len() as int)
                <==> topology::level_three_readable(entries, entries.len() as int) && (
            topology::is_level_three(one) ==> topology::is_readable(one.shared_cpu_list@))
        }),
        !topology::has_level_three(Seq::empty()),
{
    let more = entries.push(one);
    assert(more[entries.len() as int] == one);
    if topology::has_level_three(entries) {
        let k = choose|k: int|
            0 <= k < entries.len() && topology::is_level_three(#[trigger] entries[k]);
        assert(more[k] == entries[k]);
    }
    if topology::has_level_three(more) {
        let k = choose|k: int| 0 <= k < more.len() && topology::is_level_three(#[trigger] more[k]);
        if k < entries.len() {
            assert(entries[k] == more[k]);
        }
    }
    if topology::level_three_readable(more, more.len() as int) {
        assert forall|k: int|
            0 <= k < entries.len() && topology::is_level_three(
                #[trigger] entries[k],
            ) implies topology::is_readable(entries[k].shared_cpu_list@) by {
            assert(more[k] == entries[k]);
        }
    }
    if topology::level_three_readable(entries, entries.len() as int) && (topology::is_level_three(
        one,
    ) ==> topology::is_readable(one.shared_cpu_list@)) {
        assert forall|k: int|
            0 <= k < more.len() && topology::is_level_three(
                #[trigger] more[k],
            ) implies topology::is_readable(more[k].shared_cpu_list@) by {
            if k < entries.len() {
                assert(entries[k] == more[k]);
            }
        }
    }
}

} // verus!
