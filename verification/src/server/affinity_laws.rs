//! What holds of the placement of generation threads.

use crate::cpu::topology;
use crate::server::generation_affinity;
use crate::server::generation_affinity::{GenerationAffinity, PinCheckpoint, Split};
use crate::text;
use crate::text_laws;
use vstd::prelude::*;

verus! {

/// A worker's domain stands among the domains where the worker stands among
/// the workers.
pub proof fn a_worker_is_placed_in_proportion(worker: int, workers: int, domains: int)
    requires
        0 <= worker < workers,
        0 < domains,
    ensures
        ({
            let domain = generation_affinity::domain_index(worker, workers, domains);
            &&& 0 <= domain < domains
            &&& domain * workers <= worker * domains
            &&& worker * domains < (domain + 1) * workers
        }),
{
    let product = worker * domains;
    let share = product / workers;
    vstd::arithmetic::div_mod::lemma_fundamental_div_mod(product, workers);
    vstd::arithmetic::div_mod::lemma_mod_bound(product, workers);
    assert(product < domains * workers) by (nonlinear_arith)
        requires
            product == worker * domains,
            worker < workers,
            0 < domains,
    ;
    assert(0 <= product) by (nonlinear_arith)
        requires
            product == worker * domains,
            0 <= worker,
            0 < domains,
    ;
    assert(share * workers <= product && product < (share + 1) * workers) by (nonlinear_arith)
        requires
            product == workers * share + product % workers,
            0 <= product % workers < workers,
    ;
    assert(0 <= share < domains) by (nonlinear_arith)
        requires
            share * workers <= product,
            product < (share + 1) * workers,
            0 <= product < domains * workers,
            0 < workers,
    ;
}

/// A processor that a domain has and the process may use is in a domain that
/// is left; every domain that is left has one, and no processor but such.
pub proof fn every_allowed_cpu_keeps_its_domain(
    machine: Seq<Seq<usize>>,
    allowed: Seq<usize>,
    j: int,
    cpu: usize,
)
    requires
        0 <= j < machine.len(),
        machine[j].contains(cpu),
        allowed.contains(cpu),
    ensures
        exists|i: int|
            0 <= i < generation_affinity::narrowed(machine, allowed).len()
                && (#[trigger] generation_affinity::narrowed(machine, allowed)[i]).contains(cpu),
    decreases machine.len(),
{
    let before = generation_affinity::narrowed(machine.drop_last(), allowed);
    let kept = topology::only(machine.last(), allowed);
    let all = generation_affinity::narrowed(machine, allowed);
    topology::narrowing_keeps_exactly_the_allowed(machine.last(), allowed);
    if j == machine.len() - 1 {
        assert(kept.contains(cpu));
        assert(all[all.len() - 1] == kept);
    } else {
        assert(machine.drop_last()[j] == machine[j]);
        every_allowed_cpu_keeps_its_domain(machine.drop_last(), allowed, j, cpu);
        let i = choose|i: int| 0 <= i < before.len() && (#[trigger] before[i]).contains(cpu);
        assert(all[i] == before[i]);
    }
}

/// No domain that is left is empty, and there are no more than the machine
/// has.
pub proof fn what_is_left_is_worth_pinning_to(machine: Seq<Seq<usize>>, allowed: Seq<usize>)
    ensures
        forall|i: int|
            0 <= i < generation_affinity::narrowed(machine, allowed).len() ==> (
            #[trigger] generation_affinity::narrowed(machine, allowed)[i]).len() > 0,
        generation_affinity::narrowed(machine, allowed).len() <= machine.len(),
    decreases machine.len(),
{
    if machine.len() > 0 {
        what_is_left_is_worth_pinning_to(machine.drop_last(), allowed);
    }
}

/// Threads are pinned only on a machine of several domains of which at least
/// two are left, with a processor for every worker; and then the domains that
/// are left are what is used.
pub proof fn pinning_wants_two_domains_and_a_cpu_each(
    machine: Seq<Seq<usize>>,
    allowed: Seq<usize>,
    workers: nat,
)
    ensures
        ({
            let left = generation_affinity::narrowed(machine, allowed);
            let found = generation_affinity::usable_of(machine, allowed, workers);
            &&& found is Ok <==> machine.len() != 1 && left.len() >= 2 && topology::cpu_sum(left)
                >= workers
            &&& found is Ok ==> found->Ok_0.0 == left
            &&& found is Ok ==> (found->Ok_0.1.len() == 0 <== topology::cpu_sum(left)
                == topology::cpu_sum(machine))
        }),
{
}

/// One domain more has its processors more.
pub proof fn domains_add_up_their_cpus(domains: Seq<Seq<usize>>, one: Seq<usize>)
    ensures
        topology::cpu_sum(domains.push(one)) == topology::cpu_sum(domains) + one.len(),
        topology::cpu_sum(Seq::empty()) == 0,
{
    assert(domains.push(one).drop_last() =~= domains);
}

/// Domains are set aside where some are asked for, at least one is left, and
/// those left have a processor for every worker.
pub proof fn domains_are_set_aside_where_enough_is_left(
    domains: Seq<Seq<usize>>,
    wanted: int,
    setting: Seq<char>,
    workers: int,
)
    requires
        0 <= wanted,
    ensures
        generation_affinity::refusal(domains, wanted, setting, workers) is None <==> 0 < wanted
            < domains.len() && topology::cpu_sum(domains.subrange(0, domains.len() - wanted))
            >= workers,
{
}

/// A setting asks for as many domains as it says; without one, or where it is
/// no number, none are asked for.
pub proof fn a_setting_asks_for_its_number(n: nat)
    requires
        n <= usize::MAX,
    ensures
        generation_affinity::reserve_of(Some(text::decimal(n))).0 == n,
        generation_affinity::reserve_of(None).0 == 0,
        generation_affinity::reserve_of(Some(seq!['-'] + text::decimal(n))).0 == 0,
{
    text::lemma_decimal_digits(n);
    let number = text::decimal(n);
    assert(text::is_digit(number[0]));
    assert(text::is_digit(number.last()));
    text::lemma_trim_nothing(number);
    text_laws::a_number_reads_back(n, usize::MAX as int);
    let negative = seq!['-'] + number;
    assert(negative.last() == number.last());
    text::lemma_trim_nothing(negative);
    text_laws::what_is_no_number(negative, usize::MAX as int);
}

/// A switch is on where it says one of four words, in capitals or not and with
/// any white space around.
pub proof fn a_switch_is_on_by_one_of_four_words(value: Seq<char>)
    ensures
        generation_affinity::is_truthy(value) <==> ({
            let word = text::ascii_lower(text::trim(value));
            word == seq!['1'] || word == seq!['t', 'r', 'u', 'e'] || word == seq!['y', 'e', 's']
                || word == seq!['o', 'n']
        }),
{
    reveal_strlit("1");
    reveal_strlit("true");
    reveal_strlit("yes");
    reveal_strlit("on");
    assert("1"@ =~= seq!['1']);
    assert("true"@ =~= seq!['t', 'r', 'u', 'e']);
    assert("yes"@ =~= seq!['y', 'e', 's']);
    assert("on"@ =~= seq!['o', 'n']);
}

/// A report comes exactly where more pins failed than had by then.
pub proof fn a_report_comes_with_new_failures(affinity: GenerationAffinity, since: PinCheckpoint)
    ensures
        affinity.worker_report(since) is Some <==> affinity.plan is Some
            && affinity.plan->0.failures > since.generation_failures,
        affinity.reserved_report(since) is Some <==> affinity.reserved is Some
            && affinity.reserved->0.failures > since.reserved_failures,
{
}

/// A count goes up by one, and starts again at zero behind the largest number.
pub proof fn a_count_goes_up(n: usize)
    ensures
        n < usize::MAX ==> generation_affinity::counted(n) == n + 1,
        generation_affinity::counted(usize::MAX) == 0,
{
}

/// The block of a worker starts with the first worker of its domain.
pub proof fn a_block_starts_with_the_first_of_its_domain(
    worker: int,
    workers: int,
    domains: int,
)
    requires
        0 <= worker < workers,
        0 < domains,
    ensures
        ({
            let first = generation_affinity::block_start(worker, workers, domains);
            let domain = generation_affinity::domain_index(worker, workers, domains);
            &&& 0 <= first <= worker
            &&& generation_affinity::domain_index(first, workers, domains) == domain
            &&& first > 0 ==> generation_affinity::domain_index(first - 1, workers, domains)
                != domain
        }),
    decreases worker,
{
    if worker > 0 && !generation_affinity::ends_block(worker - 1, workers, domains) {
        a_block_starts_with_the_first_of_its_domain(worker - 1, workers, domains);
    }
}

/// Pinning is not skipped at once exactly where its switch is on and there are
/// workers to pin.
pub proof fn pinning_wants_its_switch_and_workers(pin: Option<String>, workers: int)
    requires
        0 <= workers,
    ensures
        generation_affinity::early_skip(pin, workers) is None <==> pin is Some
            && generation_affinity::is_truthy(pin->0@) && workers > 0,
{
}

/// Without pinned or reserved threads there is nothing to count.
pub proof fn nothing_pinned_counts_nothing(affinity: GenerationAffinity)
    ensures
        affinity.plan is None ==> affinity.counters().generation_failures == 0,
        affinity.plan is Some ==> affinity.counters().generation_failures
            == affinity.plan->0.failures,
        affinity.reserved is None ==> affinity.counters().reserved_threads == 0
            && affinity.counters().reserved_failures == 0,
        affinity.reserved is Some ==> affinity.counters().reserved_threads
            == affinity.reserved->0.threads && affinity.counters().reserved_failures
            == affinity.reserved->0.failures,
{
}

/// The domains that generation keeps are the first ones, all but as many as
/// were set aside, or all of them where none were.
pub proof fn generation_keeps_the_first_domains(
    domains: Seq<Seq<usize>>,
    wanted: int,
    setting: Seq<char>,
    workers: int,
    split: Split,
    i: int,
)
    requires
        generation_affinity::splits(domains, wanted, setting, workers, split),
        0 <= wanted,
        0 <= i < split.generation@.len(),
    ensures
        split.generation@.len() == (if split.reserved is Some {
            domains.len() - wanted
        } else {
            domains.len() as int
        }),
        split.generation@[i]@ == domains[i],
        split.reserved is Some <==> generation_affinity::refusal(
            domains,
            wanted,
            setting,
            workers,
        ) is None,
{
    let kept = topology::domain_views(split.generation@);
    assert(kept[i] == split.generation@[i]@);
    assert(kept.len() == split.generation@.len());
}

/// A block of one worker names it, and a longer one its first and its last.
pub proof fn a_block_names_its_workers(first: int, last: int, cpus: Seq<usize>)
    ensures
        first == last ==> generation_affinity::block_clause(first, last, cpus) == " "@ + ("worker "@
            + text::decimal(last as nat)) + " -> cpus "@ + topology::list_text(cpus) + ";"@,
        first != last ==> generation_affinity::block_clause(first, last, cpus) == " "@ + (
        "workers "@ + text::decimal(first as nat) + "-"@ + text::decimal(last as nat))
            + " -> cpus "@ + topology::list_text(cpus) + ";"@,
{
}

} // verus!
