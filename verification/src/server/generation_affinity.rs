//! Optional L3-domain pinning for the chunk generation pool, and an optional
//! reservation of domains that generation is kept off.
//!
//! Each generation worker is confined to one cache domain, in contiguous
//! blocks of worker indices. With a reservation, the last domains stay clear
//! of generation and everything else is confined to those. All decisions are
//! made once, from readings of the environment and the machine, and reported
//! in one line.

use vstd::prelude::*;

use crate::cpu::topology;
use crate::cpu::topology::{CacheDomain, L3Domains};
use crate::text;

verus! {

/// Runtime switch for generation-pool pinning, default off.
pub const PIN_ENV: &'static str = "STEEL_GENERATION_PIN_L3";

/// How many L3 domains to keep clear of generation, default 0.
pub const RESERVE_ENV: &'static str = "STEEL_GENERATION_RESERVE_DOMAINS";

/// What runs on the reserved domains.
pub const RESERVED_TENANTS: &'static str = "the chunk runtime, the main runtime and the encoding pool";

// ---------------------------------------------------------------------------
// Which domain a worker belongs to
// ---------------------------------------------------------------------------
/// The domain of a worker: the workers in proportion over the domains.
pub open spec fn domain_index(worker: int, workers: int, domains: int) -> int {
    let share = worker * domains / (if workers > 1 {
        workers
    } else {
        1
    });
    if share < domains - 1 {
        share
    } else {
        domains - 1
    }
}

/// Maps a worker index onto a domain index in contiguous blocks.
///
/// Contiguous, not round-robin: neighbouring worker indices end up on the same
/// domain, so that spatially adjacent chunks routed to neighbouring workers
/// share a cache.
pub fn domain_index_for_worker(worker: usize, workers: usize, domains: usize) -> (r: usize)
    requires
        workers > 0,
        domains > 0,
        worker * domains <= usize::MAX,
    ensures
        r == domain_index(worker as int, workers as int, domains as int),
        r < domains,
{
    let product: usize = worker * domains;
    let share: usize = product / workers;
    proof {
        assert(share >= 0);
    }
    if share < domains - 1 {
        share
    } else {
        domains - 1
    }
}

/// The first worker of a domain's block.
pub open spec fn block_first(domain: int, workers: int, domains: int) -> int {
    (domain * workers + domains - 1) / domains
}

proof fn lemma_index(worker: int, workers: int, domains: int)
    requires
        0 <= worker < workers,
        domains > 0,
    ensures
        domain_index(worker, workers, domains) == worker * domains / workers,
        0 <= domain_index(worker, workers, domains) < domains,
        domain_index(worker, workers, domains) * workers <= worker * domains,
        worker * domains < (domain_index(worker, workers, domains) + 1) * workers,
{
    let q = worker * domains / workers;
    assert(q * workers <= worker * domains < (q + 1) * workers && 0 <= q < domains)
        by (nonlinear_arith)
        requires
            q == worker * domains / workers,
            0 <= worker < workers,
            domains > 0,
    ;
}

proof fn lemma_block_first(domain: int, workers: int, domains: int)
    requires
        0 <= domain,
        0 < workers,
        0 < domains,
    ensures
        domain * workers <= block_first(domain, workers, domains) * domains,
        (block_first(domain, workers, domains) - 1) * domains < domain * workers,
{
    let p = domain * workers;
    let f = (p + domains - 1) / domains;
    assert(p <= f * domains && (f - 1) * domains < p) by (nonlinear_arith)
        requires
            f == (p + domains - 1) / domains,
            domains > 0,
    ;
}

/// The workers of one domain are exactly a block of consecutive indices.
pub proof fn a_domains_workers_are_one_block(worker: int, domain: int, workers: int, domains: int)
    requires
        0 <= worker < workers,
        0 <= domain < domains,
    ensures
        domain_index(worker, workers, domains) == domain <==> block_first(domain, workers, domains)
            <= worker < block_first(domain + 1, workers, domains),
{
    lemma_index(worker, workers, domains);
    lemma_block_first(domain, workers, domains);
    lemma_block_first(domain + 1, workers, domains);
    let q = domain_index(worker, workers, domains);
    let f = block_first(domain, workers, domains);
    let g = block_first(domain + 1, workers, domains);
    if q == domain {
        assert(f <= worker) by (nonlinear_arith)
            requires
                (f - 1) * domains < domain * workers,
                domain * workers <= worker * domains,
                domains > 0,
        ;
        assert(worker < g) by (nonlinear_arith)
            requires
                worker * domains < (domain + 1) * workers,
                (domain + 1) * workers <= g * domains,
                domains > 0,
        ;
    }
    if f <= worker < g {
        assert(domain * workers <= worker * domains) by (nonlinear_arith)
            requires
                domain * workers <= f * domains,
                f <= worker,
                domains > 0,
        ;
        assert(worker * domains < (domain + 1) * workers) by (nonlinear_arith)
            requires
                (g - 1) * domains < (domain + 1) * workers,
                worker <= g - 1,
                domains > 0,
        ;
        assert(q == domain) by (nonlinear_arith)
            requires
                q * workers <= worker * domains,
                worker * domains < (q + 1) * workers,
                domain * workers <= worker * domains,
                worker * domains < (domain + 1) * workers,
                workers > 0,
        ;
    }
}

/// Blocks stay balanced: every domain gets the same number of workers, or one
/// more; together they get all of them.
pub proof fn blocks_stay_balanced(domain: int, workers: int, domains: int)
    requires
        0 < workers,
        0 <= domain < domains,
    ensures
        workers / domains <= block_first(domain + 1, workers, domains) - block_first(
            domain,
            workers,
            domains,
        ) <= workers / domains + 1,
        block_first(0, workers, domains) == 0,
        block_first(domains, workers, domains) == workers,
{
    lemma_block_first(domain, workers, domains);
    lemma_block_first(domain + 1, workers, domains);
    lemma_block_first(0, workers, domains);
    lemma_block_first(domains, workers, domains);
    let f = block_first(domain, workers, domains);
    let g = block_first(domain + 1, workers, domains);
    let q = workers / domains;
    assert(q * domains <= workers < (q + 1) * domains) by (nonlinear_arith)
        requires
            q == workers / domains,
            domains > 0,
            workers > 0,
    ;
    assert((domain + 1) * workers == domain * workers + workers) by (nonlinear_arith);
    assert((g - f) * domains == g * domains - f * domains) by (nonlinear_arith);
    assert((f - 1) * domains == f * domains - domains) by (nonlinear_arith);
    assert((g - 1) * domains == g * domains - domains) by (nonlinear_arith);
    assert((q + 1) * domains == q * domains + domains) by (nonlinear_arith);
    assert(q <= g - f) by (nonlinear_arith)
        requires
            (g - f) * domains > q * domains - domains,
            domains > 0,
    ;
    assert(g - f <= q + 1) by (nonlinear_arith)
        requires
            (g - f) * domains < q * domains + 2 * domains,
            domains > 0,
    ;
    let z = block_first(0, workers, domains);
    assert(z == 0) by (nonlinear_arith)
        requires
            0 * workers <= z * domains,
            (z - 1) * domains < 0 * workers,
            domains > 0,
    ;
    let e = block_first(domains, workers, domains);
    assert(e == workers) by (nonlinear_arith)
        requires
            domains * workers <= e * domains,
            (e - 1) * domains < domains * workers,
            domains > 0,
    ;
}

/// The domain never decreases from one worker to the next, and with at least
/// as many workers as domains it never skips one.
pub proof fn neighbours_share_or_touch(worker: int, workers: int, domains: int)
    requires
        0 <= worker,
        worker + 1 < workers,
        0 < domains,
    ensures
        domain_index(worker, workers, domains) <= domain_index(worker + 1, workers, domains),
        domains <= workers ==> domain_index(worker + 1, workers, domains) <= domain_index(
            worker,
            workers,
            domains,
        ) + 1,
{
    lemma_index(worker, workers, domains);
    lemma_index(worker + 1, workers, domains);
    let p = domain_index(worker, workers, domains);
    let q = domain_index(worker + 1, workers, domains);
    assert((worker + 1) * domains == worker * domains + domains) by (nonlinear_arith);
    assert(p <= q) by (nonlinear_arith)
        requires
            p * workers <= worker * domains,
            worker * domains + domains < (q + 1) * workers,
            domains > 0,
            workers > 0,
    ;
    if domains <= workers {
        assert(q <= p + 1) by (nonlinear_arith)
            requires
                q * workers <= worker * domains + domains,
                worker * domains < (p + 1) * workers,
                domains <= workers,
                workers > 0,
        ;
    }
}

/// With at least as many workers as domains, every domain is used.
pub proof fn every_domain_is_used(domain: int, workers: int, domains: int)
    requires
        0 <= domain < domains <= workers,
    ensures
        0 <= block_first(domain, workers, domains) < workers,
        domain_index(block_first(domain, workers, domains), workers, domains) == domain,
{
    blocks_stay_balanced(domain, workers, domains);
    lemma_block_first(domain, workers, domains);
    let f = block_first(domain, workers, domains);
    assert(workers / domains >= 1) by (nonlinear_arith)
        requires
            0 < domains <= workers,
    ;
    assert(f < workers) by (nonlinear_arith)
        requires
            (f - 1) * domains < domain * workers,
            domain <= domains - 1,
            0 < domains <= workers,
    ;
    assert(f >= 0) by (nonlinear_arith)
        requires
            domain * workers <= f * domains,
            domain >= 0,
            workers > 0,
            domains > 0,
    ;
    a_domains_workers_are_one_block(f, domain, workers, domains);
}

// ---------------------------------------------------------------------------
// The plan
// ---------------------------------------------------------------------------
/// A count one higher, starting over behind the largest.
pub open spec fn counted(n: usize) -> usize {
    if n == usize::MAX {
        0
    } else {
        (n + 1) as usize
    }
}

fn count_up(n: usize) -> (r: usize)
    ensures
        r == counted(n),
{
    if n == usize::MAX {
        0
    } else {
        n + 1
    }
}

/// Which L3 domain each generation worker index belongs to.
#[derive(Debug)]
pub struct PinPlan {
    /// Domains already narrowed to the CPUs this process may use, and already
    /// stripped of any reserved ones.
    pub domains: Vec<CacheDomain>,
    pub workers: usize,
    /// Workers that could not be pinned.
    pub failures: usize,
}

/// The worker is the last of its block.
pub open spec fn ends_block(worker: int, workers: int, domains: int) -> bool {
    worker + 1 == workers || domain_index(worker, workers, domains) != domain_index(
        worker + 1,
        workers,
        domains,
    )
}

/// The first worker of the block that the worker is in.
pub open spec fn block_start(worker: int, workers: int, domains: int) -> int
    decreases worker,
{
    if worker <= 0 || ends_block(worker - 1, workers, domains) {
        worker
    } else {
        block_start(worker - 1, workers, domains)
    }
}

/// The clause for one block of workers.
pub open spec fn block_clause(first: int, last: int, cpus: Seq<usize>) -> Seq<char> {
    " "@ + (if first == last {
        "worker "@ + text::decimal(last as nat)
    } else {
        "workers "@ + text::decimal(first as nat) + "-"@ + text::decimal(last as nat)
    }) + " -> cpus "@ + topology::list_text(cpus) + ";"@
}

/// The clauses of the blocks that end among the first `n` workers.
pub open spec fn blocks_text(n: int, workers: int, domains: Seq<Seq<usize>>) -> Seq<char>
    decreases n,
{
    if n <= 0 {
        Seq::empty()
    } else {
        let before = blocks_text(n - 1, workers, domains);
        if ends_block(n - 1, workers, domains.len() as int) {
            let first = block_start(n - 1, workers, domains.len() as int);
            before + block_clause(
                first,
                n - 1,
                domains[domain_index(first, workers, domains.len() as int)],
            )
        } else {
            before
        }
    }
}

impl PinPlan {
    /// The ids of the plan's domains.
    pub open spec fn views(&self) -> Seq<Seq<usize>> {
        topology::domain_views(self.domains@)
    }

    /// There are workers and well-formed domains, few enough to be counted.
    pub open spec fn well_formed(&self) -> bool {
        &&& self.workers > 0
        &&& self.domains@.len() > 0
        &&& self.domains@.len() * self.workers <= usize::MAX
        &&& topology::all_domains(self.views())
        &&& topology::cpu_sum(self.views()) <= usize::MAX
    }

    /// The domain that a worker is confined to.
    pub fn domain_for_worker(&self, worker: usize) -> (r: &CacheDomain)
        requires
            self.well_formed(),
            worker < self.workers,
        ensures
            r@ == self.views()[domain_index(
                worker as int,
                self.workers as int,
                self.domains@.len() as int,
            )],
            r.well_formed(),
    {
        proof {
            lemma_fits(worker as int, self.workers as int, self.domains@.len() as int);
        }
        let index: usize = domain_index_for_worker(worker, self.workers, self.domains.len());
        assert(topology::is_domain(self.views()[index as int]));
        &self.domains[index]
    }

    /// Counts a worker that could not be pinned.
    pub fn note_failure(&mut self)
        ensures
            final(self).failures == counted(old(self).failures),
            final(self).domains == old(self).domains,
            final(self).workers == old(self).workers,
    {
        self.failures = count_up(self.failures);
    }

    /// The CPUs over all domains.
    pub fn cpus(&self) -> (r: usize)
        requires
            self.well_formed(),
        ensures
            r == topology::cpu_sum(self.views()),
    {
        topology::total_of(self.domains.as_slice())
    }

    /// Renders the worker-block assignment, e.g.
    /// `workers 0-14 -> cpus 0-7,64-71;`, one clause per block.
    pub fn describe_blocks(&self) -> (r: String)
        requires
            self.well_formed(),
        ensures
            r@ == blocks_text(self.workers as int, self.workers as int, self.views()),
    {
        let mut blocks = String::new();
        let mut first: usize = 0;
        let mut worker: usize = 0;
        let ghost count = self.domains@.len() as int;
        while worker < self.workers
            invariant
                self.well_formed(),
                worker <= self.workers,
                first <= worker,
                count == self.domains@.len(),
                worker < self.workers ==> first == block_start(
                    worker as int,
                    self.workers as int,
                    count,
                ),
                blocks@ == blocks_text(worker as int, self.workers as int, self.views()),
            decreases self.workers - worker,
        {
            proof {
                lemma_fits(worker as int, self.workers as int, count);
            }
            let last: bool = worker + 1 == self.workers;
            let ends: bool = if last {
                true
            } else {
                proof {
                    lemma_fits(worker + 1, self.workers as int, count);
                }
                domain_index_for_worker(worker, self.workers, self.domains.len())
                    != domain_index_for_worker(worker + 1, self.workers, self.domains.len())
            };
            if ends {
                let domain = self.domain_for_worker(first);
                let ghost before = blocks@;
                blocks.append(" ");
                if first == worker {
                    blocks.append("worker ");
                    text::push_decimal(&mut blocks, worker as u64);
                } else {
                    blocks.append("workers ");
                    text::push_decimal(&mut blocks, first as u64);
                    blocks.append("-");
                    text::push_decimal(&mut blocks, worker as u64);
                }
                blocks.append(" -> cpus ");
                blocks.append(domain.to_string().as_str());
                blocks.append(";");
                assert(blocks@ =~= before + block_clause(first as int, worker as int, domain@));
                first = worker + 1;
            }
            worker += 1;
        }
        blocks
    }
}

proof fn lemma_fits(worker: int, workers: int, domains: int)
    requires
        0 <= worker < workers,
        domains >= 0,
        domains * workers <= usize::MAX,
    ensures
        worker * domains <= usize::MAX,
{
    assert(worker * domains <= domains * workers) by (nonlinear_arith)
        requires
            0 <= worker < workers,
            domains >= 0,
    ;
}

/// The domains generation is kept off, and their CPUs as one mask.
#[derive(Debug)]
pub struct ReservedPlan {
    /// Union of the reserved domains' CPUs, ascending.
    pub cpus: Vec<usize>,
    /// Threads that asked to be pinned here.
    pub threads: usize,
    /// The ones that could not be.
    pub failures: usize,
}

impl ReservedPlan {
    /// Counts a thread that asked to be pinned here, and whether it could be.
    pub fn note_pin(&mut self, pinned: bool)
        ensures
            final(self).cpus == old(self).cpus,
            final(self).threads == counted(old(self).threads),
            final(self).failures == if pinned {
                old(self).failures
            } else {
                counted(old(self).failures)
            },
    {
        self.threads = count_up(self.threads);
        if !pinned {
            self.failures = count_up(self.failures);
        }
    }
}

// ---------------------------------------------------------------------------
// Usable domains
// ---------------------------------------------------------------------------
/// The domains narrowed to the allowed CPUs, without those that keep none.
pub open spec fn narrowed(domains: Seq<Seq<usize>>, allowed: Seq<usize>) -> Seq<Seq<usize>>
    decreases domains.len(),
{
    if domains.len() == 0 {
        Seq::empty()
    } else {
        let before = narrowed(domains.drop_last(), allowed);
        let kept = topology::only(domains.last(), allowed);
        if kept.len() == 0 {
            before
        } else {
            before.push(kept)
        }
    }
}

/// The usable domains and a note for the summary, or the reason to skip.
pub open spec fn usable_of(
    machine: Seq<Seq<usize>>,
    allowed: Seq<usize>,
    workers: nat,
) -> Result<(Seq<Seq<usize>>, Seq<char>), Seq<char>> {
    let domains = narrowed(machine, allowed);
    let machine_cpus = topology::cpu_sum(machine);
    let total = topology::cpu_sum(domains);
    if machine.len() == 1 {
        Err(
            "the machine reports a single L3 domain of "@ + topology::list_text(machine[0])
                + "; pinning could only take CPUs away"@,
        )
    } else if domains.len() < 2 {
        Err(
            "the "@ + text::decimal(allowed.len()) + " CPUs this process may use reach only "@
                + text::decimal(domains.len()) + " of the machine's "@ + text::decimal(machine.len())
                + " L3 domains; with fewer than two domains to spread over, pinning could only take CPUs away"@,
        )
    } else if total < workers {
        Err(
            "only "@ + text::decimal(total) + " CPUs across "@ + text::decimal(domains.len())
                + " L3 domains are usable by this process, fewer than the pool's "@ + text::decimal(
                workers,
            ) + " workers"@,
        )
    } else if total == machine_cpus {
        Ok((domains, Seq::empty()))
    } else {
        Ok(
            (
                domains,
                " (narrowed by this process's affinity mask from the machine's "@ + text::decimal(
                    machine_cpus,
                ) + " CPUs in "@ + text::decimal(machine.len()) + " domains)"@,
            ),
        )
    }
}

proof fn lemma_only_shorter(cpus: Seq<usize>, allowed: Seq<usize>)
    ensures
        topology::only(cpus, allowed).len() <= cpus.len(),
    decreases cpus.len(),
{
    if cpus.len() > 0 {
        lemma_only_shorter(cpus.drop_last(), allowed);
    }
}

proof fn lemma_narrowed(domains: Seq<Seq<usize>>, allowed: Seq<usize>)
    ensures
        narrowed(domains, allowed).len() <= domains.len(),
        topology::cpu_sum(narrowed(domains, allowed)) <= topology::cpu_sum(domains),
        forall|i: int|
            0 <= i < narrowed(domains, allowed).len() ==> exists|j: int|
                0 <= j < domains.len() && #[trigger] narrowed(domains, allowed)[i]
                    == topology::only(#[trigger] domains[j], allowed),
    decreases domains.len(),
{
    if domains.len() > 0 {
        let rest = domains.drop_last();
        lemma_narrowed(rest, allowed);
        lemma_only_shorter(domains.last(), allowed);
        let now = narrowed(domains, allowed);
        let before = narrowed(rest, allowed);
        if topology::only(domains.last(), allowed).len() > 0 {
            assert(now.drop_last() =~= before);
        }
        assert forall|i: int| 0 <= i < now.len() implies exists|j: int|
            0 <= j < domains.len() && #[trigger] now[i] == topology::only(
                #[trigger] domains[j],
                allowed,
            ) by {
            if i < before.len() {
                assert(before[i] == now[i]);
                let j = choose|j: int|
                    0 <= j < rest.len() && before[i] == topology::only(#[trigger] rest[j], allowed);
                assert(domains[j] == rest[j]);
            } else {
                assert(domains[domains.len() - 1] == domains.last());
            }
        }
    }
}

/// A plan never escapes the mask the process was started with: every CPU of a
/// usable domain is allowed, and belongs to one of the machine's domains.
pub proof fn usable_domains_stay_in_the_mask(
    machine: Seq<Seq<usize>>,
    allowed: Seq<usize>,
    domain: int,
    cpu: usize,
)
    requires
        0 <= domain < narrowed(machine, allowed).len(),
        narrowed(machine, allowed)[domain].contains(cpu),
    ensures
        allowed.contains(cpu),
        exists|j: int| 0 <= j < machine.len() && (#[trigger] machine[j]).contains(cpu),
{
    lemma_narrowed(machine, allowed);
    let now = narrowed(machine, allowed);
    assert(now[domain] == now[domain]);
    let j = choose|j: int|
        0 <= j < machine.len() && now[domain] == topology::only(#[trigger] machine[j], allowed);
    topology::narrowing_keeps_exactly_the_allowed(machine[j], allowed);
    assert(topology::only(machine[j], allowed).contains(cpu));
}

/// Narrows a machine's L3 domains to the ones this process can usefully pin
/// `workers` threads across, given the CPUs it is `allowed` to run on.
///
/// Returns the usable domains and a note for the summary, or the reason to
/// skip.
pub fn usable_domains(topology: &L3Domains, allowed: &[usize], workers: usize) -> (r: Result<
    (Vec<CacheDomain>, String),
    String,
>)
    requires
        topology.well_formed(),
        topology::cpu_sum(topology@) <= usize::MAX,
    ensures
        match r {
            Ok(found) => usable_of(topology@, allowed@, workers as nat) == Ok::<
                (Seq<Seq<usize>>, Seq<char>),
                Seq<char>,
            >((topology::domain_views(found.0@), found.1@)),
            Err(reason) => usable_of(topology@, allowed@, workers as nat) == Err::<
                (Seq<Seq<usize>>, Seq<char>),
                Seq<char>,
            >(reason@),
        },
        r matches Ok(found) ==> topology::all_domains(topology::domain_views(found.0@)),
{
    let all = topology.domains();
    let ghost machine = topology@;
    let machine_cpus: usize = topology.total_cpus();
    if all.len() == 1 {
        let mut reason = "the machine reports a single L3 domain of ".to_owned();
        assert(machine[0] == all@[0]@);
        assert(topology::is_domain(machine[0]));
        reason.append(all[0].to_string().as_str());
        reason.append("; pinning could only take CPUs away");
        return Err(reason);
    }
    let mut domains: Vec<CacheDomain> = Vec::new();
    let mut i: usize = 0;
    assert(machine.subrange(0, 0) =~= Seq::<Seq<usize>>::empty());
    assert(topology::domain_views(domains@) =~= Seq::<Seq<usize>>::empty());
    while i < all.len()
        invariant
            i <= all@.len(),
            machine == topology::domain_views(all@),
            topology::all_domains(machine),
            topology::all_domains(topology::domain_views(domains@)),
            topology::domain_views(domains@) == narrowed(machine.subrange(0, i as int), allowed@),
        decreases all@.len() - i,
    {
        let ghost before = topology::domain_views(domains@);
        assert(machine.subrange(0, i + 1).drop_last() =~= machine.subrange(0, i as int));
        assert(machine[i as int] == all@[i as int]@);
        assert(topology::is_domain(machine[i as int]));
        match all[i].intersect(allowed) {
            None => {},
            Some(domain) => {
                domains.push(domain);
                assert(topology::domain_views(domains@) =~= before.push(domain@));
            },
        }
        i += 1;
    }
    proof {
        assert(machine.subrange(0, i as int) =~= machine);
        lemma_narrowed(machine, allowed@);
    }
    let ghost views = topology::domain_views(domains@);
    if domains.len() < 2 {
        let mut reason = "the ".to_owned();
        text::push_decimal(&mut reason, allowed.len() as u64);
        reason.append(" CPUs this process may use reach only ");
        text::push_decimal(&mut reason, domains.len() as u64);
        reason.append(" of the machine's ");
        text::push_decimal(&mut reason, all.len() as u64);
        reason.append(
            " L3 domains; with fewer than two domains to spread over, pinning could only take CPUs away",
        );
        return Err(reason);
    }
    let total: usize = topology::total_of(domains.as_slice());
    if total < workers {
        let mut reason = "only ".to_owned();
        text::push_decimal(&mut reason, total as u64);
        reason.append(" CPUs across ");
        text::push_decimal(&mut reason, domains.len() as u64);
        reason.append(" L3 domains are usable by this process, fewer than the pool's ");
        text::push_decimal(&mut reason, workers as u64);
        reason.append(" workers");
        return Err(reason);
    }
    if total == machine_cpus {
        Ok((domains, String::new()))
    } else {
        let mut note = " (narrowed by this process's affinity mask from the machine's ".to_owned();
        text::push_decimal(&mut note, machine_cpus as u64);
        note.append(" CPUs in ");
        text::push_decimal(&mut note, all.len() as u64);
        note.append(" domains)");
        Ok((domains, note))
    }
}

// ---------------------------------------------------------------------------
// The reservation
// ---------------------------------------------------------------------------
/// The reservation setting as read.
#[derive(Debug)]
pub struct Requested {
    /// How many domains to reserve.
    pub domains: usize,
    /// How to name the setting in the summary. Unset and unparseable both mean
    /// zero domains, and the summary tells them apart.
    pub setting: String,
}

/// How many domains a setting asks for, and how the summary names it.
pub open spec fn reserve_of(raw: Option<Seq<char>>) -> (int, Seq<char>) {
    match raw {
        None => (0, RESERVE_ENV@ + " is unset"@),
        Some(raw) => match text::parsed_unsigned(text::trim(raw), usize::MAX as int) {
            Ok(domains) => (domains, RESERVE_ENV@ + "="@ + text::decimal(domains as nat)),
            Err(_) => (
                0,
                RESERVE_ENV@ + "="@ + text::quoted(raw) + " is not a domain count"@,
            ),
        },
    }
}

/// The text behind an optional string.
pub open spec fn raw_text(raw: Option<&str>) -> Option<Seq<char>> {
    match raw {
        None => None,
        Some(raw) => Some(raw@),
    }
}

/// Reads the reservation setting: a count, or zero domains if it is unset or
/// no number.
pub fn interpret_reserve(raw: Option<&str>) -> (r: Requested)
    ensures
        (r.domains as int, r.setting@) == reserve_of(raw_text(raw)),
{
    let mut setting = RESERVE_ENV.to_owned();
    match raw {
        None => {
            setting.append(" is unset");
            Requested { domains: 0, setting }
        },
        Some(raw) => {
            let trimmed = text::trimmed(raw);
            setting.append("=");
            match text::parse_usize(trimmed.as_str()) {
                Ok(domains) => {
                    text::push_decimal(&mut setting, domains as u64);
                    Requested { domains, setting }
                },
                Err(_) => {
                    let quoted = text::quote(raw);
                    setting.append(quoted.as_str());
                    setting.append(" is not a domain count");
                    Requested { domains: 0, setting }
                },
            }
        },
    }
}

/// How the usable domains were carved up.
#[derive(Debug)]
pub struct Split {
    /// The domains generation workers are spread over. Never empty.
    pub generation: Vec<CacheDomain>,
    /// The mask nothing but the reserved tenants runs on. `None` when no
    /// reservation was asked for or when one was refused.
    pub reserved: Option<ReservedPlan>,
    /// The clause the summary ends with, stating what was reserved or why
    /// nothing was.
    pub note: String,
}

/// The note for a reservation that was not made.
pub open spec fn refused_note(reason: Seq<char>) -> Seq<char> {
    "no L3 domains reserved: "@ + reason + ", so "@ + RESERVED_TENANTS@
        + " keep the process-wide mask and stay free to run on generation's CPUs"@
}

fn refused(reason: &str) -> (r: String)
    ensures
        r@ == refused_note(reason@),
{
    let mut note = "no L3 domains reserved: ".to_owned();
    note.append(reason);
    note.append(", so ");
    note.append(RESERVED_TENANTS);
    note.append(" keep the process-wide mask and stay free to run on generation's CPUs");
    note
}

/// Why a reservation of `wanted` domains is refused, if it is.
pub open spec fn refusal(
    domains: Seq<Seq<usize>>,
    wanted: int,
    setting: Seq<char>,
    workers: int,
) -> Option<Seq<char>> {
    let kept = domains.len() - wanted;
    let left = topology::cpu_sum(domains.subrange(0, kept));
    if wanted == 0 {
        Some(setting)
    } else if wanted >= domains.len() {
        Some(
            setting + " is not fewer than the "@ + text::decimal(domains.len())
                + " usable L3 domains, and generation needs at least one"@,
        )
    } else if left < workers {
        Some(
            setting + " would leave "@ + text::decimal(left) + " CPUs across "@ + text::decimal(
                kept as nat,
            ) + " L3 domains for "@ + text::decimal(workers as nat) + " generation workers"@,
        )
    } else {
        None
    }
}

/// One of the first `n` domains holds the CPU.
pub open spec fn in_domains(domains: Seq<Seq<usize>>, n: int, cpu: usize) -> bool {
    exists|i: int| 0 <= i < n && (#[trigger] domains[i]).contains(cpu)
}

/// A list in strictly ascending order.
pub open spec fn ascending(ids: Seq<usize>) -> bool {
    forall|i: int, j: int| 0 <= i < j < ids.len() ==> ids[i] < ids[j]
}

/// A reservation: the union of the last domains' CPUs, ascending, kept off
/// generation, and the note that says so.
pub open spec fn reserves(
    domains: Seq<Seq<usize>>,
    wanted: int,
    setting: Seq<char>,
    plan: ReservedPlan,
    note: Seq<char>,
) -> bool {
    let rest = domains.subrange(domains.len() - wanted, domains.len() as int);
    &&& plan.threads == 0
    &&& plan.failures == 0
    &&& ascending(plan.cpus@)
    &&& forall|cpu: usize| #[trigger]
        plan.cpus@.contains(cpu) <==> in_domains(rest, rest.len() as int, cpu)
    &&& note == "the last "@ + text::decimal(wanted as nat) + " of "@ + text::decimal(domains.len())
        + " usable L3 domains reserved ("@ + setting + ") for "@ + RESERVED_TENANTS@ + ": cpus "@
        + topology::list_text(plan.cpus@)
}

/// How some domains are split.
pub open spec fn splits(
    domains: Seq<Seq<usize>>,
    wanted: int,
    setting: Seq<char>,
    workers: int,
    split: Split,
) -> bool {
    match refusal(domains, wanted, setting, workers) {
        Some(reason) => {
            &&& topology::domain_views(split.generation@) == domains
            &&& split.reserved is None
            &&& split.note@ == refused_note(reason)
        },
        None => {
            &&& topology::domain_views(split.generation@) == domains.subrange(
                0,
                domains.len() - wanted,
            )
            &&& split.reserved is Some
            &&& reserves(domains, wanted, setting, split.reserved->0, split.note@)
        },
    }
}

/// Puts an id where it belongs in an ascending list, unless it is there.
fn insert_id(ids: &mut Vec<usize>, id: usize)
    requires
        ascending(old(ids)@),
    ensures
        ascending(final(ids)@),
        forall|k: usize| #[trigger]
            final(ids)@.contains(k) <==> old(ids)@.contains(k) || k == id,
{
    let ghost before = ids@;
    let mut at: usize = ids.len();
    while at > 0 && ids[at - 1] > id
        invariant
            at <= ids@.len(),
            ids@ == before,
            forall|k: int| at <= k < ids@.len() ==> ids@[k] > id,
        decreases at,
    {
        at -= 1;
    }
    if at > 0 && ids[at - 1] == id {
        assert(before.contains(id)) by {
            assert(before[at - 1] == id);
        }
        return ;
    }
    ids.insert(at, id);
    proof {
        let after = ids@;
        assert(after =~= before.insert(at as int, id));
        assert forall|i: int, j: int| 0 <= i < j < after.len() implies after[i] < after[j] by {
            if j == at {
                if i < at - 1 {
                    assert(before[i] < before[at - 1]);
                }
            } else if i != at {
                let a = if i < at {
                    i
                } else {
                    i - 1
                };
                let b = if j < at {
                    j
                } else {
                    j - 1
                };
                assert(before[a] < before[b]);
            }
        }
        assert forall|k: usize| #[trigger] after.contains(k) <==> before.contains(k) || k == id by {
            if after.contains(k) {
                let m = choose|m: int| 0 <= m < after.len() && after[m] == k;
                if m < at {
                    assert(before[m] == k);
                } else if m > at {
                    assert(before[m - 1] == k);
                }
            }
            if before.contains(k) {
                let m = choose|m: int| 0 <= m < before.len() && before[m] == k;
                if m < at {
                    assert(after[m] == k);
                } else {
                    assert(after[m + 1] == k);
                }
            }
            if k == id {
                assert(after[at as int] == k);
            }
        }
    }
}

proof fn lemma_sum_prefix(domains: Seq<Seq<usize>>, n: int)
    requires
        0 <= n <= domains.len(),
    ensures
        topology::cpu_sum(domains.subrange(0, n)) <= topology::cpu_sum(domains),
    decreases domains.len() - n,
{
    if n < domains.len() {
        lemma_sum_prefix(domains, n + 1);
        assert(domains.subrange(0, n + 1).drop_last() =~= domains.subrange(0, n));
    } else {
        assert(domains.subrange(0, n) =~= domains);
    }
}

/// The union of some domains' CPUs, ascending.
fn union_of(domains: &Vec<CacheDomain>) -> (r: Vec<usize>)
    requires
        topology::all_domains(topology::domain_views(domains@)),
    ensures
        ascending(r@),
        forall|cpu: usize| #[trigger]
            r@.contains(cpu) <==> in_domains(
                topology::domain_views(domains@),
                domains@.len() as int,
                cpu,
            ),
        forall|k: int| 0 <= k < r@.len() ==> r@[k] < usize::MAX,
{
    let ghost views = topology::domain_views(domains@);
    let mut r: Vec<usize> = Vec::new();
    let mut i: usize = 0;
    while i < domains.len()
        invariant
            i <= domains@.len(),
            views == topology::domain_views(domains@),
            ascending(r@),
            forall|cpu: usize| #[trigger]
                r@.contains(cpu) <==> in_domains(views, i as int, cpu),
        decreases domains@.len() - i,
    {
        let cpus = domains[i].cpus();
        assert(cpus@ == views[i as int]);
        let mut c: usize = 0;
        while c < cpus.len()
            invariant
                c <= cpus@.len(),
                ascending(r@),
                forall|cpu: usize| #[trigger]
                    r@.contains(cpu) <==> in_domains(views, i as int, cpu) || cpus@.subrange(
                        0,
                        c as int,
                    ).contains(cpu),
            decreases cpus@.len() - c,
        {
            let ghost so_far = cpus@.subrange(0, c as int);
            insert_id(&mut r, cpus[c]);
            proof {
                let now = cpus@.subrange(0, c + 1);
                assert(now =~= so_far.push(cpus@[c as int]));
                assert forall|cpu: usize| #[trigger] r@.contains(cpu) <==> in_domains(
                    views,
                    i as int,
                    cpu,
                ) || now.contains(cpu) by {
                    if so_far.contains(cpu) {
                        let m = choose|m: int| 0 <= m < so_far.len() && so_far[m] == cpu;
                        assert(now[m] == cpu);
                    }
                    if cpu == cpus@[c as int] {
                        assert(now[c as int] == cpu);
                    }
                    if now.contains(cpu) && cpu != cpus@[c as int] {
                        let m = choose|m: int| 0 <= m < now.len() && now[m] == cpu;
                        assert(so_far[m] == cpu);
                    }
                }
            }
            c += 1;
        }
        proof {
            assert(cpus@.subrange(0, c as int) =~= cpus@);
            assert forall|cpu: usize| #[trigger] r@.contains(cpu) <==> in_domains(
                views,
                i + 1,
                cpu,
            ) by {
                if views[i as int].contains(cpu) {
                    assert(in_domains(views, i + 1, cpu));
                }
                if in_domains(views, i as int, cpu) {
                    let d = choose|d: int|
                        0 <= d < i && (#[trigger] views[d]).contains(cpu);
                    assert(views[d].contains(cpu));
                }
            }
        }
        i += 1;
    }
    proof {
        assert forall|k: int| 0 <= k < r@.len() implies r@[k] < usize::MAX by {
            assert(r@.contains(r@[k]));
            let d = choose|d: int|
                0 <= d < views.len() && (#[trigger] views[d]).contains(r@[k]);
            assert(topology::is_domain(views[d]));
        }
    }
    r
}

/// Splits `domains` into the block generation may use and the last
/// `requested.domains`, which are reserved for everything else.
///
/// A reservation that cannot be honoured leaves all domains to generation and
/// says so.
pub fn split_reserved(domains: Vec<CacheDomain>, requested: &Requested, workers: usize) -> (r:
    Split)
    requires
        topology::all_domains(topology::domain_views(domains@)),
        topology::cpu_sum(topology::domain_views(domains@)) <= usize::MAX,
    ensures
        splits(
            topology::domain_views(domains@),
            requested.domains as int,
            requested.setting@,
            workers as int,
            r,
        ),
{
    let ghost views = topology::domain_views(domains@);
    let usable: usize = domains.len();
    if requested.domains == 0 {
        let note = refused(requested.setting.as_str());
        return Split { generation: domains, reserved: None, note };
    }
    if requested.domains >= usable {
        let mut reason = requested.setting.clone();
        reason.append(" is not fewer than the ");
        text::push_decimal(&mut reason, usable as u64);
        reason.append(" usable L3 domains, and generation needs at least one");
        let note = refused(reason.as_str());
        return Split { generation: domains, reserved: None, note };
    }
    let kept: usize = usable - requested.domains;
    let mut generation = domains;
    let rest: Vec<CacheDomain> = generation.split_off(kept);
    proof {
        assert(topology::domain_views(generation@) =~= views.subrange(0, kept as int));
        assert(topology::domain_views(rest@) =~= views.subrange(kept as int, views.len() as int));
        lemma_sum_prefix(views, kept as int);
        assert forall|i: int| 0 <= i < rest@.len() implies topology::is_domain(
            #[trigger] topology::domain_views(rest@)[i],
        ) by {
            assert(topology::is_domain(views[kept + i]));
        }
    }
    let generation_cpus: usize = topology::total_of(generation.as_slice());
    if generation_cpus < workers {
        let mut reason = requested.setting.clone();
        reason.append(" would leave ");
        text::push_decimal(&mut reason, generation_cpus as u64);
        reason.append(" CPUs across ");
        text::push_decimal(&mut reason, kept as u64);
        reason.append(" L3 domains for ");
        text::push_decimal(&mut reason, workers as u64);
        reason.append(" generation workers");
        let note = refused(reason.as_str());
        let mut rest = rest;
        generation.append(&mut rest);
        assert(topology::domain_views(generation@) =~= views);
        return Split { generation, reserved: None, note };
    }
    let cpus = union_of(&rest);
    let mut note = "the last ".to_owned();
    text::push_decimal(&mut note, requested.domains as u64);
    note.append(" of ");
    text::push_decimal(&mut note, usable as u64);
    note.append(" usable L3 domains reserved (");
    note.append(requested.setting.as_str());
    note.append(") for ");
    note.append(RESERVED_TENANTS);
    note.append(": cpus ");
    note.append(topology::format_cpu_list(cpus.as_slice()).as_str());
    Split { generation, reserved: Some(ReservedPlan { cpus, threads: 0, failures: 0 }), note }
}

/// Domains no two of which share a CPU.
pub open spec fn disjoint(domains: Seq<Seq<usize>>) -> bool {
    forall|i: int, j: int, cpu: usize|
        0 <= i < j < domains.len() && #[trigger] domains[i].contains(cpu)
            ==> !#[trigger] domains[j].contains(cpu)
}

/// Where domains share no CPU, a reserved CPU is none that generation runs on.
pub proof fn reserved_cpus_are_kept_off_generation(
    domains: Seq<Seq<usize>>,
    wanted: int,
    setting: Seq<char>,
    workers: int,
    split: Split,
    domain: int,
    cpu: usize,
)
    requires
        splits(domains, wanted, setting, workers, split),
        wanted >= 0,
        disjoint(domains),
        split.reserved is Some,
        split.reserved->0.cpus@.contains(cpu),
        0 <= domain < split.generation@.len(),
    ensures
        !split.generation@[domain]@.contains(cpu),
{
    let rest = domains.subrange(domains.len() - wanted, domains.len() as int);
    assert(in_domains(rest, rest.len() as int, cpu));
    let j = choose|j: int| 0 <= j < rest.len() && (#[trigger] rest[j]).contains(cpu);
    let views = topology::domain_views(split.generation@);
    assert(views[domain] == domains[domain]);
    assert(rest[j] == domains[domains.len() - wanted + j]);
    if domains[domain].contains(cpu) {
        assert(!domains[domains.len() - wanted + j].contains(cpu));
    }
}

// ---------------------------------------------------------------------------
// The decision
// ---------------------------------------------------------------------------
/// The two free-text clauses the summary cannot derive from the plan.
#[derive(Debug)]
pub struct Notes {
    /// Whether an operator confinement narrowed what the machine offered.
    pub mask: String,
    /// What was reserved, or why nothing was.
    pub reservation: String,
}

/// The one line the startup log gets for a pinned pool.
pub open spec fn summary_text(
    workers: int,
    domains: Seq<Seq<usize>>,
    usable_domains: int,
    usable_cpus: int,
    mask: Seq<char>,
    reservation: Seq<char>,
) -> Seq<char> {
    "generation pool L3 pinning enabled ("@ + PIN_ENV@ + "): "@ + text::decimal(workers as nat)
        + " workers over "@ + text::decimal(domains.len()) + " of "@ + text::decimal(
        usable_domains as nat,
    ) + " usable L3 domains, "@ + text::decimal(topology::cpu_sum(domains)) + " of "@
        + text::decimal(usable_cpus as nat) + " CPUs"@ + mask + ";"@ + blocks_text(
        workers,
        workers,
        domains,
    ) + " "@ + reservation
}

/// The one line the startup log gets for a pinned pool.
pub fn summary_line(
    plan: &PinPlan,
    usable_domains: usize,
    usable_cpus: usize,
    notes: &Notes,
) -> (r: String)
    requires
        plan.well_formed(),
    ensures
        r@ == summary_text(
            plan.workers as int,
            plan.views(),
            usable_domains as int,
            usable_cpus as int,
            notes.mask@,
            notes.reservation@,
        ),
{
    let mut line = "generation pool L3 pinning enabled (".to_owned();
    line.append(PIN_ENV);
    line.append("): ");
    text::push_decimal(&mut line, plan.workers as u64);
    line.append(" workers over ");
    text::push_decimal(&mut line, plan.domains.len() as u64);
    line.append(" of ");
    text::push_decimal(&mut line, usable_domains as u64);
    line.append(" usable L3 domains, ");
    text::push_decimal(&mut line, plan.cpus() as u64);
    line.append(" of ");
    text::push_decimal(&mut line, usable_cpus as u64);
    line.append(" CPUs");
    line.append(notes.mask.as_str());
    line.append(";");
    line.append(plan.describe_blocks().as_str());
    line.append(" ");
    line.append(notes.reservation.as_str());
    line
}

/// A reading of the pin counters, to be handed back when the pools built since
/// are checked.
#[derive(Debug, Clone, Copy)]
pub struct PinCheckpoint {
    pub generation_failures: usize,
    pub reserved_threads: usize,
    pub reserved_failures: usize,
}

impl PinCheckpoint {
    /// The reading before this process pinned anything.
    pub fn process_start() -> (r: Self)
        ensures
            r == (PinCheckpoint {
                generation_failures: 0,
                reserved_threads: 0,
                reserved_failures: 0,
            }),
    {
        PinCheckpoint { generation_failures: 0, reserved_threads: 0, reserved_failures: 0 }
    }
}

/// What the decision is made from.
pub struct Readings {
    /// The pinning switch, if it is set.
    pub pin: Option<String>,
    /// The machine's domains, if they could be read.
    pub topology: Option<L3Domains>,
    /// The CPUs this process may run on, or why they could not be read.
    pub allowed: Result<Vec<usize>, String>,
    /// The reservation setting, if it is set.
    pub reserve: Option<String>,
}

/// A switch value that turns pinning on.
pub open spec fn is_truthy(value: Seq<char>) -> bool {
    let word = text::ascii_lower(text::trim(value));
    word == "1"@ || word == "true"@ || word == "yes"@ || word == "on"@
}

/// The switch value turns pinning on.
pub fn truthy(value: &str) -> (r: bool)
    ensures
        r == is_truthy(value@),
{
    let word = text::ascii_lowercase(text::trimmed(value).as_str());
    let word = word.as_str();
    text::same_text(word, "1") || text::same_text(word, "true") || text::same_text(word, "yes")
        || text::same_text(word, "on")
}

/// Why pinning is off or skipped before the machine is looked at, if it is.
pub open spec fn early_skip(pin: Option<String>, workers: int) -> Option<Seq<char>> {
    match pin {
        None => Some("disabled ("@ + PIN_ENV@ + " unset)"@),
        Some(value) => if !is_truthy(value@) {
            Some(
                "disabled ("@ + PIN_ENV@ + "="@ + text::quoted(value@)
                    + " is not one of [\"1\", \"true\", \"yes\", \"on\"])"@,
            )
        } else if workers == 0 {
            Some("skipped ("@ + PIN_ENV@ + " set, but the pool has no workers)"@)
        } else {
            None
        },
    }
}

/// Why pinning is off or skipped, if it is.
pub open spec fn skip_reason(readings: Readings, workers: int) -> Option<Seq<char>> {
    match early_skip(readings.pin, workers) {
        Some(reason) => Some(reason),
        None => match readings.topology {
            None => Some(
                "skipped ("@ + PIN_ENV@
                    + " set, but no level-3 unified cache domains could be read from /sys/devices/system/cpu)"@,
            ),
            Some(machine) => match readings.allowed {
                Err(error) => Some(
                    "skipped ("@ + PIN_ENV@
                        + " set, but this process's own affinity mask could not be read: "@
                        + error@ + ")"@,
                ),
                Ok(allowed) => match usable_of(machine@, allowed@, workers as nat) {
                    Err(reason) => Some("skipped ("@ + PIN_ENV@ + " set, but "@ + reason + ")"@),
                    Ok(_) => None,
                },
            },
        },
    }
}

/// What to do with the generation pool's worker threads and with everything
/// else's, decided once at startup.
#[derive(Debug)]
pub struct GenerationAffinity {
    /// `None` when pinning is off or was skipped.
    pub plan: Option<PinPlan>,
    /// `None` unless a reservation was asked for and could be spared.
    pub reserved: Option<ReservedPlan>,
    pub summary: String,
}

/// The text behind an optional setting.
pub open spec fn setting_text(setting: Option<String>) -> Option<Seq<char>> {
    match setting {
        None => None,
        Some(value) => Some(value@),
    }
}

/// The decision the readings lead to.
pub open spec fn decides(readings: Readings, workers: int, made: GenerationAffinity) -> bool {
    match skip_reason(readings, workers) {
        Some(reason) => {
            &&& made.plan is None
            &&& made.reserved is None
            &&& made.summary@ == "generation pool L3 pinning "@ + reason
        },
        None => {
            let found = usable_of(
                readings.topology->0@,
                readings.allowed->Ok_0@,
                workers as nat,
            )->Ok_0;
            let wanted = reserve_of(setting_text(readings.reserve));
            &&& made.plan is Some
            &&& made.plan->0.workers == workers
            &&& made.plan->0.failures == 0
            &&& made.plan->0.well_formed()
            &&& exists|split: Split| #[trigger]
                splits(found.0, wanted.0, wanted.1, workers, split) && made.plan->0.domains
                    == split.generation && made.reserved == split.reserved && made.summary@
                    == summary_text(
                    workers,
                    made.plan->0.views(),
                    found.0.len() as int,
                    topology::cpu_sum(found.0) as int,
                    found.1,
                    split.note@,
                )
        },
    }
}

/// What was read of the machine can be decided on: its domains are in order,
/// and the counts that the decision takes of them fit a word.
pub open spec fn resolvable(readings: Readings, workers: usize) -> bool {
    readings.topology matches Some(machine) ==> machine.well_formed() && topology::cpu_sum(machine@)
        <= usize::MAX && machine@.len() * workers <= usize::MAX
}

impl GenerationAffinity {
    /// Both decisions confine the same threads to the same CPUs and say so in
    /// the same words; they may differ in what was counted.
    pub open spec fn arranged_as(&self, other: GenerationAffinity) -> bool {
        &&& self.summary == other.summary
        &&& match (self.plan, other.plan) {
            (None, None) => true,
            (Some(a), Some(b)) => a.domains == b.domains && a.workers == b.workers,
            _ => false,
        }
        &&& match (self.reserved, other.reserved) {
            (None, None) => true,
            (Some(a), Some(b)) => a.cpus == b.cpus,
            _ => false,
        }
    }

    /// Whether the machine has to be looked at: with the switch off nothing is
    /// read at all.
    pub fn wants_readings(pin: &Option<String>, workers: usize) -> (r: bool)
        ensures
            r == early_skip(*pin, workers as int) is None,
    {
        match pin {
            None => false,
            Some(value) => truthy(value.as_str()) && workers > 0,
        }
    }

    /// The affinity decision for a generation pool of `workers` threads.
    pub fn resolve(readings: Readings, workers: usize) -> (r: Self)
        requires
            resolvable(readings, workers),
        ensures
            decides(readings, workers as int, r),
    {
        let Some(requested) = &readings.pin else {
            let mut reason = "disabled (".to_owned();
            reason.append(PIN_ENV);
            reason.append(" unset)");
            return Self::skipped(reason);
        };
        if !truthy(requested.as_str()) {
            let mut reason = "disabled (".to_owned();
            reason.append(PIN_ENV);
            reason.append("=");
            reason.append(text::quote(requested.as_str()).as_str());
            reason.append(" is not one of [\"1\", \"true\", \"yes\", \"on\"])");
            return Self::skipped(reason);
        }
        if workers == 0 {
            let mut reason = "skipped (".to_owned();
            reason.append(PIN_ENV);
            reason.append(" set, but the pool has no workers)");
            return Self::skipped(reason);
        }
        let Some(machine) = &readings.topology else {
            let mut reason = "skipped (".to_owned();
            reason.append(PIN_ENV);
            reason.append(
                " set, but no level-3 unified cache domains could be read from /sys/devices/system/cpu)",
            );
            return Self::skipped(reason);
        };
        let allowed = match &readings.allowed {
            Ok(allowed) => allowed,
            Err(error) => {
                let mut reason = "skipped (".to_owned();
                reason.append(PIN_ENV);
                reason.append(
                    " set, but this process's own affinity mask could not be read: ",
                );
                reason.append(error.as_str());
                reason.append(")");
                return Self::skipped(reason);
            },
        };
        match usable_domains(machine, allowed.as_slice(), workers) {
            Err(why) => {
                let mut reason = "skipped (".to_owned();
                reason.append(PIN_ENV);
                reason.append(" set, but ");
                reason.append(why.as_str());
                reason.append(")");
                Self::skipped(reason)
            },
            Ok((domains, mask)) => {
                proof {
                    lemma_narrowed(machine@, allowed@);
                    let n = topology::domain_views(domains@).len() as int;
                    assert(n * workers <= machine@.len() * workers) by (nonlinear_arith)
                        requires
                            n <= machine@.len(),
                            workers >= 0,
                    ;
                }
                let ghost views = topology::domain_views(domains@);
                let usable_count: usize = domains.len();
                let usable_cpus: usize = topology::total_of(domains.as_slice());
                let wanted = match &readings.reserve {
                    None => interpret_reserve(None),
                    Some(value) => interpret_reserve(Some(value.as_str())),
                };
                let split = split_reserved(domains, &wanted, workers);
                let ghost carved = split;
                let plan = PinPlan { domains: split.generation, workers, failures: 0 };
                let notes = Notes { mask, reservation: split.note };
                proof {
                    let kept = views.len() - wanted.domains;
                    if carved.reserved is Some {
                        lemma_sum_prefix(views, kept);
                        assert(kept * workers <= views.len() * workers) by (nonlinear_arith)
                            requires
                                kept <= views.len(),
                                workers >= 0,
                        ;
                        assert forall|i: int| 0 <= i < kept implies topology::is_domain(
                            #[trigger] plan.views()[i],
                        ) by {
                            assert(topology::is_domain(views[i]));
                        }
                    }
                    assert(plan.domains@.len() == plan.views().len());
                }
                let summary = summary_line(&plan, usable_count, usable_cpus, &notes);
                proof {
                    assert(splits(
                        views,
                        wanted.domains as int,
                        wanted.setting@,
                        workers as int,
                        carved,
                    ));
                }
                let made = GenerationAffinity {
                    plan: Some(plan),
                    reserved: split.reserved,
                    summary,
                };
                proof {
                    let want = reserve_of(setting_text(readings.reserve));
                    assert(want.0 == wanted.domains && want.1 == wanted.setting@);
                    let found = usable_of(machine@, allowed@, workers as nat)->Ok_0;
                    assert(found.0 == views && found.1 == notes.mask@);
                    assert(splits(found.0, want.0, want.1, workers as int, carved));
                    assert(made.plan->0.well_formed());
                    assert(made.plan->0.domains == carved.generation);
                    assert(made.reserved == carved.reserved);
                    assert(notes.reservation@ == carved.note@);
                }
                made
            },
        }
    }

    fn skipped(summary: String) -> (r: Self)
        ensures
            r.plan is None,
            r.reserved is None,
            r.summary@ == "generation pool L3 pinning "@ + summary@,
    {
        let mut line = "generation pool L3 pinning ".to_owned();
        line.append(summary.as_str());
        GenerationAffinity { plan: None, reserved: None, summary: line }
    }

    /// One line describing what was found and what will happen, for the startup
    /// log.
    #[must_use]
    pub fn summary(&self) -> (r: &str)
        ensures
            r@ == self.summary@,
    {
        self.summary.as_str()
    }

    /// The CPUs a generation worker is to be confined to, or `None` when
    /// pinning is off.
    pub fn worker_cpus(&self, worker: usize) -> (r: Option<&[usize]>)
        requires
            self.plan matches Some(plan) ==> plan.well_formed() && worker < plan.workers,
        ensures
            match self.plan {
                None => r is None,
                Some(plan) => r is Some && r->0@ == plan.views()[domain_index(
                    worker as int,
                    plan.workers as int,
                    plan.domains@.len() as int,
                )],
            },
    {
        match &self.plan {
            None => None,
            Some(plan) => Some(plan.domain_for_worker(worker).cpus()),
        }
    }

    /// The CPUs everything else is to be confined to, or `None` when nothing
    /// was reserved.
    pub fn reserved_cpus(&self) -> (r: Option<&[usize]>)
        ensures
            match self.reserved {
                None => r is None,
                Some(reserved) => r is Some && r->0@ == reserved.cpus@,
            },
    {
        match &self.reserved {
            None => None,
            Some(reserved) => Some(reserved.cpus.as_slice()),
        }
    }

    /// Counts whether a generation worker could be pinned.
    pub fn note_worker_pin(&mut self, pinned: bool)
        ensures
            final(self).arranged_as(*old(self)),
            final(self).reserved == old(self).reserved,
            final(self).summary == old(self).summary,
            match old(self).plan {
                None => final(self).plan is None,
                Some(plan) => {
                    &&& final(self).plan is Some
                    &&& final(self).plan->0.domains == plan.domains
                    &&& final(self).plan->0.workers == plan.workers
                    &&& final(self).plan->0.failures == if pinned {
                        plan.failures
                    } else {
                        counted(plan.failures)
                    }
                },
            },
    {
        if !pinned {
            if let Some(plan) = &mut self.plan {
                plan.note_failure();
            }
        }
    }

    /// Counts a thread that was asked to run on the reserved domains, and
    /// whether it could be pinned there.
    ///
    /// Nothing changes when nothing was reserved.
    pub fn pin_calling_thread_to_reserved(&mut self, pinned: bool)
        ensures
            final(self).arranged_as(*old(self)),
            final(self).plan == old(self).plan,
            final(self).summary == old(self).summary,
            match old(self).reserved {
                None => final(self).reserved is None,
                Some(reserved) => {
                    &&& final(self).reserved is Some
                    &&& final(self).reserved->0.cpus == reserved.cpus
                    &&& final(self).reserved->0.threads == counted(reserved.threads)
                    &&& final(self).reserved->0.failures == if pinned {
                        reserved.failures
                    } else {
                        counted(reserved.failures)
                    }
                },
            },
    {
        if let Some(reserved) = &mut self.reserved {
            reserved.note_pin(pinned);
        }
    }

    /// The counters as they stand.
    pub open spec fn counters(&self) -> PinCheckpoint {
        PinCheckpoint {
            generation_failures: match self.plan {
                None => 0,
                Some(plan) => plan.failures,
            },
            reserved_threads: match self.reserved {
                None => 0,
                Some(reserved) => reserved.threads,
            },
            reserved_failures: match self.reserved {
                None => 0,
                Some(reserved) => reserved.failures,
            },
        }
    }

    /// The counters as they stand, for a caller about to build a set of pools.
    #[must_use]
    pub fn checkpoint(&self) -> (r: PinCheckpoint)
        ensures
            r == self.counters(),
    {
        PinCheckpoint {
            generation_failures: match &self.plan {
                None => 0,
                Some(plan) => plan.failures,
            },
            reserved_threads: match &self.reserved {
                None => 0,
                Some(reserved) => reserved.threads,
            },
            reserved_failures: match &self.reserved {
                None => 0,
                Some(reserved) => reserved.failures,
            },
        }
    }

    /// The failures among the generation workers started since a checkpoint,
    /// in words, or nothing if there are none.
    pub open spec fn worker_report(&self, since: PinCheckpoint) -> Option<Seq<char>> {
        match self.plan {
            None => None,
            Some(plan) => if plan.failures > since.generation_failures {
                Some(
                    "generation pool L3 pinning did not take effect for "@ + text::decimal(
                        (plan.failures - since.generation_failures) as nat,
                    ) + " of "@ + text::decimal(plan.workers as nat)
                        + " workers, which keep the default affinity mask; this run is not a clean pinned arm"@,
                )
            } else {
                None
            },
        }
    }

    /// Checks, once every worker has come up, that the plan is what actually
    /// happened; returns a line to surface if it is not.
    #[must_use]
    pub fn verify(&self, since: PinCheckpoint) -> (r: Option<String>)
        ensures
            setting_text(r) == self.worker_report(since),
    {
        match &self.plan {
            None => None,
            Some(plan) => {
                let failures: usize = plan.failures.saturating_sub(since.generation_failures);
                if failures > 0 {
                    let mut line = "generation pool L3 pinning did not take effect for ".to_owned();
                    text::push_decimal(&mut line, failures as u64);
                    line.append(" of ");
                    text::push_decimal(&mut line, plan.workers as u64);
                    line.append(
                        " workers, which keep the default affinity mask; this run is not a clean pinned arm",
                    );
                    Some(line)
                } else {
                    None
                }
            },
        }
    }

    /// The failures among the threads asked onto the reserved domains since a
    /// checkpoint, in words, or nothing if there are none.
    pub open spec fn reserved_report(&self, since: PinCheckpoint) -> Option<Seq<char>> {
        match self.reserved {
            None => None,
            Some(reserved) => if reserved.failures > since.reserved_failures {
                Some(
                    text::decimal((reserved.failures - since.reserved_failures) as nat)
                        + " of the "@ + text::decimal(
                        if reserved.threads > since.reserved_threads {
                            (reserved.threads - since.reserved_threads) as nat
                        } else {
                            0
                        },
                    ) + " threads so far asked to run on the reserved L3 domains (cpus "@
                        + topology::list_text(reserved.cpus@)
                        + ") could not be pinned there and keep the default affinity mask; this run is not a clean reserved arm"@,
                )
            } else {
                None
            },
        }
    }

    /// The same check for the reserved side, or `None` if it is clean so far.
    #[must_use]
    pub fn verify_reserved(&self, since: PinCheckpoint) -> (r: Option<String>)
        requires
            self.reserved matches Some(reserved) ==> forall|k: int|
                0 <= k < reserved.cpus@.len() ==> reserved.cpus@[k] < usize::MAX,
        ensures
            setting_text(r) == self.reserved_report(since),
    {
        match &self.reserved {
            None => None,
            Some(reserved) => {
                let failures: usize = reserved.failures.saturating_sub(since.reserved_failures);
                let threads: usize = reserved.threads.saturating_sub(since.reserved_threads);
                if failures > 0 {
                    let mut line = text::decimal_text(failures as u64);
                    line.append(" of the ");
                    text::push_decimal(&mut line, threads as u64);
                    line.append(" threads so far asked to run on the reserved L3 domains (cpus ");
                    line.append(topology::format_cpu_list(reserved.cpus.as_slice()).as_str());
                    line.append(
                        ") could not be pinned there and keep the default affinity mask; this run is not a clean reserved arm",
                    );
                    Some(line)
                } else {
                    None
                }
            },
        }
    }
}

/// The process's affinity decision, made once.
#[derive(Debug)]
pub struct Resolution {
    made: Option<GenerationAffinity>,
}

impl Resolution {
    /// The decision, if it was made.
    pub closed spec fn decision(&self) -> Option<GenerationAffinity> {
        self.made
    }

    /// Nothing is decided yet.
    pub fn new() -> (r: Self)
        ensures
            r.decision() is None,
    {
        Resolution { made: None }
    }

    /// Whether the decision is still to be made, so that what it is made from
    /// has to be read.
    pub fn is_pending(&self) -> (r: bool)
        ensures
            r == (self.decision() is None),
    {
        self.made.is_none()
    }

    /// The decision, made on the first call and reused after: later readings
    /// and later worker counts do not matter.
    pub fn resolve(&mut self, readings: Readings, workers: usize) -> (r: &GenerationAffinity)
        requires
            old(self).decision() is None ==> resolvable(readings, workers),
        ensures
            final(self).decision() == Some(*r),
            match old(self).decision() {
                Some(first) => *r == first,
                None => decides(readings, workers as int, *r),
            },
    {
        if self.made.is_none() {
            self.made = Some(GenerationAffinity::resolve(readings, workers));
        }
        self.made.as_ref().unwrap()
    }

    /// The decision as it stands, for a thread that counts a pin.
    pub fn decided(&mut self) -> (r: Option<&mut GenerationAffinity>)
        ensures
            match r {
                None => old(self).decision() is None && final(self).decision() is None,
                Some(made) => old(self).decision() == Some(*made) && final(self).decision()
                    == Some(*final(made)),
            },
    {
        self.made.as_mut()
    }
}

/// However often the decision is asked for, the first one is what is given:
/// only the counts of pins move in between.
///
/// `found` is what each call found decided, and `given` what it returned; the
/// first call is the one that decided.
pub proof fn the_first_decision_stays(
    found: Seq<Resolution>,
    given: Seq<GenerationAffinity>,
    i: int,
)
    requires
        found.len() == given.len(),
        0 <= i < given.len(),
        forall|k: int|
            0 < k < given.len() ==> (#[trigger] found[k]).decision() == Some(given[k])
                && given[k].arranged_as(given[k - 1]),
    ensures
        given[i].arranged_as(given[0]),
    decreases i,
{
    if i > 0 {
        the_first_decision_stays(found, given, i - 1);
        assert(found[i].decision() == Some(given[i]));
    }
}

/// A report covers only what happened since its checkpoint: taken at once, both
/// sides are clean.
pub proof fn a_fresh_checkpoint_is_clean(affinity: GenerationAffinity)
    ensures
        affinity.worker_report(affinity.counters()) is None,
        affinity.reserved_report(affinity.counters()) is None,
{
}

} // verus!
