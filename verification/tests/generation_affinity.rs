//! Pinning of the generation pool, and the reservation of domains.

use steel::cpu::affinity::mask_of_cpus;
use steel::cpu::topology::{format_cpu_list, CacheDomain, CacheIndex, L3Domains};
use steel::server::generation_affinity::{
    domain_index_for_worker, interpret_reserve, split_reserved, summary_line, truthy,
    usable_domains, GenerationAffinity, Notes, PinCheckpoint, PinPlan, Readings, Requested,
    ReservedPlan, Resolution,
};

/// A topology over the domains described by `lists`.
fn topology(lists: &[&str]) -> L3Domains {
    let entries: Vec<CacheIndex> = lists
        .iter()
        .map(|list| CacheIndex { level: "3", kind: "Unified", shared_cpu_list: list })
        .collect();
    L3Domains::from_cache_entries(&entries).expect("the test's cpu lists should parse")
}

/// The domains described by `lists`, as `usable_domains` would hand them on.
fn domains(lists: &[&str]) -> Vec<CacheDomain> {
    topology(lists).domains().to_vec()
}

/// Eight L3 domains, in sysfs's own syntax.
const ZEN5: [&str; 8] = [
    "0-7,64-71",
    "8-15,72-79",
    "16-23,80-87",
    "24-31,88-95",
    "32-39,96-103",
    "40-47,104-111",
    "48-55,112-119",
    "56-63,120-127",
];

/// A plan over the domains described by `lists`.
fn plan(workers: usize, lists: &[&str]) -> PinPlan {
    PinPlan { domains: domains(lists), workers, failures: 0 }
}

/// A reserved mask over `cpus`, standing in for one `split_reserved` built.
fn reserved(cpus: &[usize]) -> ReservedPlan {
    ReservedPlan { cpus: cpus.to_vec(), threads: 0, failures: 0 }
}

/// The setting as a plain count, as an operator's sweep would have it.
fn asked(domains: usize) -> Requested {
    Requested { domains, setting: format!("STEEL_GENERATION_RESERVE_DOMAINS={domains}") }
}

fn notes(reservation: &str) -> Notes {
    Notes { mask: String::new(), reservation: reservation.to_owned() }
}

/// The CPU ids a domain was narrowed to, per surviving domain.
fn narrowed(domains: &[CacheDomain]) -> Vec<String> {
    domains.iter().map(|domain| domain.to_string()).collect()
}

/// Starts the generation workers of a pool: each asks for its mask, and a mask
/// that cannot be built is a pin that failed.
fn start_generation_pool(affinity: &mut GenerationAffinity, threads: usize) {
    for worker in 0..threads {
        let pinned = affinity.worker_cpus(worker).map(|cpus| mask_of_cpus(cpus).is_ok());
        if let Some(pinned) = pinned {
            affinity.note_worker_pin(pinned);
        }
    }
}

/// Starts the threads of a pool on the reserved side.
fn start_encoding_pool(affinity: &mut GenerationAffinity, threads: usize) {
    for _ in 0..threads {
        let pinned = affinity.reserved_cpus().map(|cpus| mask_of_cpus(cpus).is_ok());
        if let Some(pinned) = pinned {
            affinity.pin_calling_thread_to_reserved(pinned);
        }
    }
}

fn blocks(workers: usize, domains: usize) -> Vec<usize> {
    (0..workers)
        .map(|worker| domain_index_for_worker(worker, workers, domains))
        .collect()
}

#[test]
fn assigns_contiguous_blocks() {
    let assignment = blocks(120, 8);
    assert_eq!(assignment[0..15], [0; 15]);
    assert_eq!(assignment[15..30], [1; 15]);
    assert_eq!(assignment[105..120], [7; 15]);
}

#[test]
fn every_domain_is_used_and_never_exceeded() {
    for (workers, domains) in [(120, 8), (8, 8), (9, 8), (121, 8), (127, 8), (16, 2)] {
        let assignment = blocks(workers, domains);
        assert_eq!(*assignment.iter().max().unwrap_or(&0), domains - 1);
        assert_eq!(assignment.iter().min().copied(), Some(0));
        // Contiguity: the domain index never decreases and never skips.
        for pair in assignment.windows(2) {
            assert!(pair[1] == pair[0] || pair[1] == pair[0] + 1);
        }
    }
}

#[test]
fn block_sizes_stay_balanced() {
    let assignment = blocks(121, 8);
    let mut counts = vec![0usize; 8];
    for domain in assignment {
        counts[domain] += 1;
    }
    assert_eq!(counts.iter().sum::<usize>(), 121);
    let (min, max) = (
        counts.iter().min().copied().unwrap_or(0),
        counts.iter().max().copied().unwrap_or(0),
    );
    assert!(max - min <= 1, "unbalanced blocks: {counts:?}");
}

#[test]
fn an_unrestricted_process_gets_the_whole_machine_and_no_note() {
    let all: Vec<usize> = (0..128).collect();
    let (domains, note) =
        usable_domains(&topology(&ZEN5), &all, 120).expect("120 workers fit on 128 CPUs");

    assert_eq!(narrowed(&domains), ZEN5);
    assert_eq!(note, "");
}

#[test]
fn a_taskset_confined_process_is_pinned_only_inside_its_mask() {
    // `taskset -c 0-15`. sysfs still reports all eight domains
    // and 128 CPUs; without the intersection the plan would hand workers
    // cpus 16-127, which the kernel would grant -- silently escaping the
    // operator's restriction and making the pinned arm run on eight times
    // the hardware of the control arm.
    let allowed: Vec<usize> = (0..16).collect();
    let (domains, note) =
        usable_domains(&topology(&ZEN5), &allowed, 8).expect("two domains and 16 CPUs remain");

    assert_eq!(narrowed(&domains), ["0-7", "8-15"]);
    for domain in &domains {
        assert!(
            domain.cpus().iter().all(|cpu| allowed.contains(cpu)),
            "worker mask escaped the process's own affinity mask: {}",
            domain.to_string()
        );
    }
    assert!(note.contains("128 CPUs in 8 domains"), "{note}");
}

#[test]
fn a_cpuset_that_leaves_one_domain_is_skipped_not_half_pinned() {
    // `--cpuset-cpus=0-7`: sysfs claims 8 domains and 128 CPUs, so a guard
    // that only compared the machine's CPU count against the worker count
    // would pass and then pin the one overlapping block while every other
    // worker failed with EINVAL.
    let allowed: Vec<usize> = (0..8).collect();
    let reason = usable_domains(&topology(&ZEN5), &allowed, 7)
        .expect_err("a single reachable domain is not worth pinning");

    assert!(
        reason.contains("reach only 1 of the machine's 8"),
        "{reason}"
    );
}

#[test]
fn more_workers_than_usable_cpus_is_skipped() {
    // The container case the machine-wide CPU count cannot see: 32 allowed
    // CPUs, but sysfs says 128 and the pool was sized elsewhere.
    let allowed: Vec<usize> = (0..32).collect();
    let reason = usable_domains(&topology(&ZEN5), &allowed, 64)
        .expect_err("64 workers do not fit on 32 usable CPUs");

    assert!(reason.contains("only 32 CPUs"), "{reason}");
    assert!(reason.contains("64 workers"), "{reason}");
}

#[test]
fn a_single_domain_machine_is_skipped_before_anything_else() {
    let reason = usable_domains(&topology(&["0-15"]), &(0..16).collect::<Vec<_>>(), 8)
        .expect_err("one domain is not worth pinning");

    assert!(reason.contains("single L3 domain of 0-15"), "{reason}");
}

#[test]
fn an_unset_or_mistyped_setting_reserves_nothing_and_says_which() {
    // Both mean zero domains, but an operator sweeping this variable has to
    // be able to tell "I did not set it" from "I set it to something the
    // server could not read" -- reporting either as `=0` would claim they
    // typed a 0.
    let unset = interpret_reserve(None);
    assert_eq!(unset.domains, 0);
    assert_eq!(unset.setting, "STEEL_GENERATION_RESERVE_DOMAINS is unset");

    let typo = interpret_reserve(Some("one"));
    assert_eq!(typo.domains, 0);
    assert_eq!(
        typo.setting,
        "STEEL_GENERATION_RESERVE_DOMAINS=\"one\" is not a domain count"
    );

    let zero = interpret_reserve(Some("0"));
    assert_eq!(zero.domains, 0);
    assert_eq!(zero.setting, "STEEL_GENERATION_RESERVE_DOMAINS=0");

    let set = interpret_reserve(Some(" 2\n"));
    assert_eq!(set.domains, 2);
    assert_eq!(set.setting, "STEEL_GENERATION_RESERVE_DOMAINS=2");
}

#[test]
fn reserving_nothing_leaves_every_domain_to_generation() {
    let split = split_reserved(domains(&ZEN5), &asked(0), 120);

    assert_eq!(narrowed(&split.generation), ZEN5);
    assert!(split.reserved.is_none());
    assert!(
        split.note.contains("no L3 domains reserved"),
        "{}",
        split.note
    );
}

#[test]
fn reserving_one_domain_takes_the_last_one() {
    let split = split_reserved(domains(&ZEN5), &asked(1), 112);

    assert_eq!(narrowed(&split.generation), ZEN5[..7]);
    // The mask the runtimes and the encoding pool get: the union of the
    // reserved domains, merged across the join and sorted, because that is
    // what `sched_setaffinity` is handed.
    let reserved = split.reserved.expect("one domain was reserved");
    assert_eq!(format_cpu_list(&reserved.cpus), "56-63,120-127");
    assert!(split.note.contains("the last 1 of 8"), "{}", split.note);
}

#[test]
fn reserving_all_but_one_domain_leaves_generation_the_first() {
    // N = D - 1: the extreme the sweep ends at, where generation has one
    // domain and everything else has seven.
    let split = split_reserved(domains(&ZEN5), &asked(7), 16);

    assert_eq!(narrowed(&split.generation), ["0-7,64-71"]);
    let reserved = split.reserved.expect("seven domains were reserved");
    assert_eq!(format_cpu_list(&reserved.cpus), "8-63,72-127");
}

#[test]
fn reserving_every_domain_is_refused_not_obeyed() {
    // N >= D would leave generation nowhere to run. Falling back to the
    // unreserved plan keeps the server up and says so.
    for requested in [8, 9, 100] {
        let split = split_reserved(domains(&ZEN5), &asked(requested), 120);

        assert_eq!(narrowed(&split.generation), ZEN5);
        assert!(split.reserved.is_none());
        assert!(
            split.note.contains(&format!(
                "STEEL_GENERATION_RESERVE_DOMAINS={requested} is not fewer than the 8"
            )),
            "{}",
            split.note
        );
    }
}

#[test]
fn a_single_domain_is_never_reserved_away_from_generation() {
    // D == 1 cannot reach `split_reserved` through `usable_domains`, which
    // rejects it first, but the arithmetic must not depend on that.
    let split = split_reserved(domains(&["0-15"]), &asked(1), 8);

    assert_eq!(narrowed(&split.generation), ["0-15"]);
    assert!(split.reserved.is_none());
}

#[test]
fn a_reservation_that_would_oversubscribe_generation_is_refused() {
    // A default pool of 120 workers, and reserving one of eight
    // domains leaves 112 CPUs -- so the default configuration refuses the
    // reservation rather than squeezing into it, because squeezing in would
    // put back exactly the preemption the reservation exists to remove. A
    // sweep has to bring `--gen-threads` down with the reservation, which
    // is why this refuses instead of shrinking the pool itself.
    let split = split_reserved(domains(&ZEN5), &asked(1), 120);
    assert_eq!(narrowed(&split.generation), ZEN5);
    assert!(split.reserved.is_none());
    assert!(
        split.note.contains("would leave 112 CPUs across 7"),
        "{}",
        split.note
    );
    assert!(
        split.note.contains("120 generation workers"),
        "{}",
        split.note
    );

    // Exactly one worker per CPU is the tightest fit accepted.
    let fits = split_reserved(domains(&ZEN5), &asked(1), 112);
    assert!(fits.reserved.is_some());
}

#[test]
fn workers_not_divisible_by_the_remaining_domains_still_spread_evenly() {
    // A reservation leaves 7 domains, which divides no round worker count.
    // 110 workers must come out 15 or 16 per domain with the two short
    // blocks spread through the range, not as six full domains and a
    // starved one at the end.
    let split = split_reserved(domains(&ZEN5), &asked(1), 110);
    assert_eq!(split.generation.len(), 7);
    let mut counts = vec![0usize; split.generation.len()];
    for domain in blocks(110, split.generation.len()) {
        counts[domain] += 1;
    }

    assert_eq!(counts.iter().sum::<usize>(), 110);
    assert_eq!(counts, [16, 16, 16, 15, 16, 16, 15]);
}

#[test]
fn summary_names_every_block_and_its_cpus() {
    let plan = plan(120, &ZEN5);
    let summary = summary_line(&plan, 8, 128, &notes("no L3 domains reserved: ..."));

    assert!(
        summary.contains("120 workers over 8 of 8 usable L3 domains, 128 of 128 CPUs"),
        "{summary}"
    );
    assert!(
        summary.contains("workers 0-14 -> cpus 0-7,64-71"),
        "{summary}"
    );
    assert!(
        summary.contains("workers 15-29 -> cpus 8-15,72-79"),
        "{summary}"
    );
    assert!(
        summary.contains("workers 105-119 -> cpus 56-63,120-127"),
        "{summary}"
    );
    assert_eq!(summary.matches("-> cpus").count(), 8, "{summary}");
}

#[test]
fn summary_states_the_whole_carve_up_in_one_line() {
    // What an operator has to be able to read off a single line: how many
    // domains generation got out of how many, where its workers went, which
    // domains were reserved, and what runs on them.
    let split = split_reserved(domains(&ZEN5), &asked(1), 112);
    let plan = PinPlan {
        domains: split.generation,
        workers: 112,
        failures: 0,
    };
    let summary = summary_line(&plan, 8, 128, &notes(&split.note));

    assert_eq!(summary.lines().count(), 1, "{summary}");
    assert!(
        summary.contains("112 workers over 7 of 8 usable L3 domains, 112 of 128 CPUs"),
        "{summary}"
    );
    assert!(
        summary.contains("workers 0-15 -> cpus 0-7,64-71"),
        "{summary}"
    );
    assert!(
        summary.contains("workers 96-111 -> cpus 48-55,112-119"),
        "{summary}"
    );
    assert_eq!(summary.matches("-> cpus").count(), 7, "{summary}");
    assert!(
        summary.contains(
            "the last 1 of 8 usable L3 domains reserved (STEEL_GENERATION_RESERVE_DOMAINS=1) for the chunk runtime, the main runtime and the encoding pool: cpus 56-63,120-127"
        ),
        "{summary}"
    );
}

#[test]
fn summary_names_a_lone_worker_in_the_singular() {
    let plan = plan(2, &["0-3", "4-7"]);
    let summary = summary_line(&plan, 2, 8, &notes(""));
    assert!(summary.contains("worker 0 -> cpus 0-3"), "{summary}");
    assert!(summary.contains("worker 1 -> cpus 4-7"), "{summary}");
}

#[test]
fn a_pool_whose_workers_all_failed_to_pin_is_reported_not_just_logged() {
    // CPU ids above the capacity of a mask, so every worker's pin is refused.
    let mut affinity = GenerationAffinity {
        plan: Some(plan(2, &["2000-2001", "3000-3001"])),
        reserved: None,
        summary: String::new(),
    };
    start_generation_pool(&mut affinity, 2);

    let warning = affinity
        .verify(PinCheckpoint::process_start())
        .expect("two failed pins should be reported");
    assert!(warning.contains("2 of 2 workers"), "{warning}");
    assert_eq!(affinity.verify_reserved(PinCheckpoint::process_start()), None);
}

#[test]
fn a_reserved_pool_that_could_not_pin_is_reported_not_just_logged() {
    let mut affinity = GenerationAffinity {
        plan: None,
        reserved: Some(reserved(&[2000, 2001])),
        summary: String::new(),
    };
    start_encoding_pool(&mut affinity, 2);

    let warning = affinity
        .verify_reserved(PinCheckpoint::process_start())
        .expect("two failed pins should be reported");
    assert!(warning.contains("2 of the 2 threads"), "{warning}");
    assert!(warning.contains("(cpus 2000-2001)"), "{warning}");
}

#[test]
fn a_pool_that_pinned_cleanly_reports_nothing() {
    let allowed: Vec<usize> = (0..4).collect();
    let list = format_cpu_list(&allowed);
    let mut affinity = GenerationAffinity {
        plan: Some(plan(2, &[&list])),
        reserved: Some(reserved(&allowed)),
        summary: String::new(),
    };
    start_generation_pool(&mut affinity, 2);
    start_encoding_pool(&mut affinity, 2);

    assert_eq!(affinity.verify(PinCheckpoint::process_start()), None);
    assert_eq!(affinity.verify_reserved(PinCheckpoint::process_start()), None);
    assert_eq!(affinity.checkpoint().reserved_threads, 2);
}

#[test]
fn nothing_is_installed_when_there_is_no_plan() {
    let mut affinity =
        GenerationAffinity { plan: None, reserved: None, summary: String::new() };
    assert_eq!(affinity.worker_cpus(0), None);
    assert_eq!(affinity.reserved_cpus(), None);
    start_generation_pool(&mut affinity, 1);
    start_encoding_pool(&mut affinity, 1);

    assert_eq!(affinity.verify(PinCheckpoint::process_start()), None);
    assert_eq!(affinity.verify_reserved(PinCheckpoint::process_start()), None);
}

/// An affinity whose every pin fails: CPU ids above the capacity of a mask.
fn unpinnable() -> GenerationAffinity {
    GenerationAffinity {
        plan: Some(plan(2, &["2000-2001", "3000-3001"])),
        reserved: Some(reserved(&[2000, 2001])),
        summary: String::new(),
    }
}

#[test]
fn a_second_set_of_pools_is_reported_on_its_own() {
    // One decision, a fresh generation pool and encoding pool per repetition.
    // Reported as running totals, the second repetition would claim more
    // failures than the pool has workers.
    let mut affinity = unpinnable();
    start_generation_pool(&mut affinity, 2);
    start_encoding_pool(&mut affinity, 2);
    let first_generation = affinity
        .verify(PinCheckpoint::process_start())
        .expect("the first pool's two failures should be reported");
    assert!(first_generation.contains("2 of 2 workers"), "{first_generation}");
    let first_reserved = affinity
        .verify_reserved(PinCheckpoint::process_start())
        .expect("the first pool's two reserved failures should be reported");
    assert!(first_reserved.contains("2 of the 2 threads"), "{first_reserved}");

    let checkpoint = affinity.checkpoint();
    start_generation_pool(&mut affinity, 2);
    start_encoding_pool(&mut affinity, 2);
    let second_generation = affinity
        .verify(checkpoint)
        .expect("the second pool's two failures should be reported");
    assert!(second_generation.contains("2 of 2 workers"), "{second_generation}");
    let second_reserved = affinity
        .verify_reserved(checkpoint)
        .expect("the second pool's two reserved failures should be reported");
    assert!(second_reserved.contains("2 of the 2 threads"), "{second_reserved}");
}

#[test]
fn a_clean_set_after_a_dirty_one_reports_nothing() {
    // Cumulative counters would report a clean repetition as dirty forever
    // after the first failure.
    let mut dirty = unpinnable();
    start_generation_pool(&mut dirty, 2);
    start_encoding_pool(&mut dirty, 2);
    assert!(dirty.verify(PinCheckpoint::process_start()).is_some());
    assert!(dirty.verify_reserved(PinCheckpoint::process_start()).is_some());
    let checkpoint = dirty.checkpoint();

    let allowed: Vec<usize> = (0..4).collect();
    let list = format_cpu_list(&allowed);
    let mut workable = GenerationAffinity {
        plan: Some(plan(2, &[&list])),
        reserved: Some(reserved(&allowed)),
        summary: String::new(),
    };
    start_generation_pool(&mut workable, 2);
    start_encoding_pool(&mut workable, 2);

    assert_eq!(dirty.verify(checkpoint), None);
    assert_eq!(dirty.verify_reserved(checkpoint), None);
    assert_eq!(workable.verify(PinCheckpoint::process_start()), None);
}

#[test]
fn the_calling_thread_is_untouched_when_nothing_was_reserved() {
    let mut affinity =
        GenerationAffinity { plan: None, reserved: None, summary: String::new() };
    assert_eq!(affinity.reserved_cpus(), None);
    affinity.pin_calling_thread_to_reserved(false);

    assert!(affinity.reserved.is_none());
    assert_eq!(affinity.checkpoint().reserved_threads, 0);
    assert_eq!(affinity.verify_reserved(PinCheckpoint::process_start()), None);
}

#[test]
fn more_domains_than_workers_still_stays_in_range() {
    let assignment = blocks(3, 8);
    assert!(assignment.iter().all(|&domain| domain < 8));
    assert_eq!(assignment[0], 0);
}

fn readings(pin: Option<&str>, reserve: Option<&str>) -> Readings {
    Readings {
        pin: pin.map(str::to_owned),
        topology: Some(topology(&ZEN5)),
        allowed: Ok((0..128).collect()),
        reserve: reserve.map(str::to_owned),
    }
}

#[test]
fn the_switch_takes_the_usual_words() {
    for word in ["1", "true", "YES", " on\n"] {
        assert!(truthy(word), "{word:?}");
    }
    for word in ["0", "", "enabled", "2"] {
        assert!(!truthy(word), "{word:?}");
    }
}

#[test]
fn an_unset_or_odd_switch_is_disabled() {
    let unset = GenerationAffinity::resolve(readings(None, None), 120);
    assert_eq!(
        unset.summary(),
        "generation pool L3 pinning disabled (STEEL_GENERATION_PIN_L3 unset)"
    );
    assert!(unset.plan.is_none());

    let odd = GenerationAffinity::resolve(readings(Some("ma\"ybe"), None), 120);
    assert_eq!(
        odd.summary(),
        "generation pool L3 pinning disabled (STEEL_GENERATION_PIN_L3=\"ma\\\"ybe\" is not one of \
         [\"1\", \"true\", \"yes\", \"on\"])"
    );
    assert!(!GenerationAffinity::wants_readings(&Some("no".to_owned()), 4));
    assert!(GenerationAffinity::wants_readings(&Some("yes".to_owned()), 4));
}

#[test]
fn missing_readings_skip_the_pinning() {
    let mut no_topology = readings(Some("1"), None);
    no_topology.topology = None;
    let skipped = GenerationAffinity::resolve(no_topology, 8);
    assert!(
        skipped.summary().contains("no level-3 unified cache domains could be read"),
        "{}",
        skipped.summary()
    );

    let mut no_mask = readings(Some("1"), None);
    no_mask.allowed = Err("EPERM".to_owned());
    let skipped = GenerationAffinity::resolve(no_mask, 8);
    assert!(skipped.summary().contains("could not be read: EPERM"), "{}", skipped.summary());

    let idle = GenerationAffinity::resolve(readings(Some("1"), None), 0);
    assert!(idle.summary().contains("the pool has no workers"), "{}", idle.summary());
}

#[test]
fn a_reservation_splits_workers_from_the_rest() {
    let made = GenerationAffinity::resolve(readings(Some("on"), Some("1")), 112);
    assert_eq!(made.worker_cpus(0).map(format_cpu_list).as_deref(), Some("0-7,64-71"));
    assert_eq!(made.worker_cpus(111).map(format_cpu_list).as_deref(), Some("48-55,112-119"));
    assert_eq!(made.reserved_cpus().map(format_cpu_list).as_deref(), Some("56-63,120-127"));
    let reserved = made.reserved_cpus().expect("one domain is reserved").to_vec();
    for worker in 0..112 {
        let cpus = made.worker_cpus(worker).expect("every worker has a domain");
        assert!(cpus.iter().all(|cpu| !reserved.contains(cpu)));
    }
}

#[test]
fn the_first_decision_is_kept() {
    let mut resolution = Resolution::new();
    assert!(resolution.is_pending());
    assert!(resolution.decided().is_none());
    let first = resolution.resolve(readings(Some("on"), Some("1")), 112).summary().to_owned();
    assert!(!resolution.is_pending());
    if let Some(made) = resolution.decided() {
        made.note_worker_pin(false);
    }
    // Neither another worker count nor other readings matter any more.
    let later = resolution.resolve(readings(None, None), 3);
    assert_eq!(later.summary(), first);
    assert_eq!(later.plan.as_ref().map(|plan| plan.workers), Some(112));
    assert_eq!(later.checkpoint().generation_failures, 1);
}

#[test]
fn a_cpu_that_two_domains_report_is_reserved_once() {
    let split = split_reserved(domains(&["0-3", "4-7", "6-9"]), &asked(2), 4);
    let reserved = split.reserved.expect("two domains can be spared");
    assert_eq!(reserved.cpus, [4, 5, 6, 7, 8, 9]);
    assert!(split.note.ends_with("cpus 4-9"), "{}", split.note);
}
