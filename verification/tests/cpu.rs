//! CPU lists, cache domains and affinity masks.

use steel::cpu::affinity::{cpus_of_mask, mask_of_cpus, MaskError, MASK_CAPACITY};
use steel::cpu::parallelism::Machine;
use steel::cpu::topology::{
    format_cpu_list, is_cpu_directory, is_index_directory, parse_cpu_list, CacheFiles, CacheIndex,
    L3Domains,
};

fn entry<'a>(level: &'a str, kind: &'a str, shared_cpu_list: &'a str) -> CacheIndex<'a> {
    CacheIndex { level, kind, shared_cpu_list }
}

fn read(entries: &[CacheIndex]) -> Option<L3Domains> {
    L3Domains::from_cache_entries(entries)
}

/// Eight domains, in the exact form sysfs prints them (trailing newline
/// included).
fn zen5_entries() -> Vec<(String, String, String)> {
    let mut entries = Vec::new();
    for domain in 0..8 {
        let low = domain * 8;
        let high = 64 + domain * 8;
        let list = format!("{low}-{},{high}-{}\n", low + 7, high + 7);
        // Every one of the 16 threads in the domain reports it.
        for _ in 0..16 {
            entries.push(("3\n".to_owned(), "Unified\n".to_owned(), list.clone()));
        }
    }
    entries
}

fn files(level: &str, kind: &str, list: &str) -> CacheFiles {
    CacheFiles {
        level: level.to_owned(),
        kind: kind.to_owned(),
        shared_cpu_list: list.to_owned(),
    }
}

#[test]
fn reads_a_sysfs_tree_where_l3_is_not_index3() {
    // The level comes from the `level` file, never from the directory number.
    let topology = L3Domains::read(&vec![
        files("3\n", "Unified\n", "0-1\n"),
        files("1\n", "Data\n", "0\n"),
        files("1\n", "Data\n", "1\n"),
        files("3\n", "Unified\n", "0-1\n"),
    ])
    .expect("the tree describes one L3 domain");
    assert_eq!(topology.domains().len(), 1);
    assert_eq!(topology.domains()[0].to_string(), "0-1");
}

#[test]
fn sysfs_tree_without_caches_is_none() {
    assert!(L3Domains::read(&vec![]).is_none());
}

#[test]
fn only_numbered_directories_are_cpus() {
    for name in ["cpu0", "cpu127"] {
        assert!(is_cpu_directory(name), "{name}");
    }
    for name in ["cpufreq", "online", "cpuidle", "xcpu0"] {
        assert!(!is_cpu_directory(name), "{name}");
    }
    assert!(is_index_directory("index3"));
    assert!(!is_index_directory("uevent"));
}

#[test]
fn a_rendered_list_reads_back() {
    for list in ["0-7,64-71", "3", "0,2,4-6", "5,7"] {
        let cpus = parse_cpu_list(list).expect("a list");
        assert_eq!(format_cpu_list(&cpus), list);
    }
    assert_eq!(format_cpu_list(&[]), "");
    assert_eq!(format_cpu_list(&[1, 2]), "1-2");
}

#[test]
fn rejects_an_empty_mask() {
    let error = mask_of_cpus(&[]).expect_err("no CPU");
    assert_eq!(error, MaskError::Empty);
    assert_eq!(error.describe(), "an empty CPU set would not be a valid affinity mask");
}

#[test]
fn refuses_rather_than_truncating_an_out_of_range_domain() {
    // A domain straddling the mask's capacity must not be applied as the part
    // that fits.
    assert_eq!(
        mask_of_cpus(&[MASK_CAPACITY - 1, MASK_CAPACITY]).expect_err("beyond the mask"),
        MaskError::BeyondCapacity(MASK_CAPACITY)
    );
    assert!(mask_of_cpus(&[usize::MAX]).is_err());
    assert_eq!(
        MaskError::BeyondCapacity(2000).describe(),
        "CPU id 2000 is beyond the 1024 ids a cpu_set_t can hold"
    );
}

#[test]
fn mask_capacity_is_the_whole_cpu_set_t() {
    assert_eq!(MASK_CAPACITY, 1024);
}

#[test]
fn a_mask_gives_back_its_cpus_in_order() {
    let mask = mask_of_cpus(&[1023, 0, 64, 63, 0]).expect("a mask");
    assert_eq!(cpus_of_mask(&mask), [0, 63, 64, 1023]);
}

#[test]
fn the_reading_is_stable_and_positive() {
    let mut machine = Machine::new();
    let first = machine.machine_parallelism(Some(16));
    assert!(first > 0);
    assert_eq!(machine.machine_parallelism(Some(1)), first);

    let mut unknown = Machine::new();
    unknown.snapshot(None);
    assert_eq!(unknown.machine_parallelism(Some(16)), 4);
}

#[test]
fn parses_multiple_ranges() {
    assert_eq!(
        parse_cpu_list("0-3,64-67"),
        Some(vec![0, 1, 2, 3, 64, 65, 66, 67])
    );
}

#[test]
fn parses_single_ids_and_mixed_forms() {
    assert_eq!(parse_cpu_list("3"), Some(vec![3]));
    assert_eq!(parse_cpu_list("0,2,4-6"), Some(vec![0, 2, 4, 5, 6]));
    assert_eq!(parse_cpu_list("5-5"), Some(vec![5]));
}

#[test]
fn parses_trailing_newline_and_sorts() {
    assert_eq!(parse_cpu_list("64-65,0-1\n"), Some(vec![0, 1, 64, 65]));
}

#[test]
fn rejects_garbage() {
    assert_eq!(parse_cpu_list(""), None);
    assert_eq!(parse_cpu_list("\n"), None);
    assert_eq!(parse_cpu_list("0-7,"), None);
    assert_eq!(parse_cpu_list("a-b"), None);
    assert_eq!(parse_cpu_list("0..7"), None);
    assert_eq!(parse_cpu_list("7-0"), None);
    assert_eq!(parse_cpu_list("-4"), None);
    // Would allocate ~800 GB if the range were expanded.
    assert_eq!(parse_cpu_list("0-99999999999"), None);
}

#[test]
fn deduplicates_the_domain_every_cpu_reports() {
    let raw = zen5_entries();
    let topology = read(
        &raw.iter().map(|(level, kind, list)| entry(level, kind, list)).collect::<Vec<_>>(),
    )
    .expect("eight well-formed L3 domains should parse");

    assert_eq!(topology.domains().len(), 8);
    assert_eq!(topology.total_cpus(), 128);
    assert_eq!(topology.domains()[0].cpus().len(), 16);
    assert_eq!(topology.domains()[0].to_string(), "0-7,64-71");
    assert_eq!(topology.domains()[7].to_string(), "56-63,120-127");
}

#[test]
fn ignores_other_levels_and_types() {
    let topology = read(&[
        entry("1\n", "Data\n", "0,64\n"),
        entry("1\n", "Instruction\n", "0,64\n"),
        entry("2\n", "Unified\n", "0,64\n"),
        entry("3\n", "Unified\n", "0-3\n"),
        // An L3 victim cache exposed as Data would not be a sharing domain.
        entry("3\n", "Data\n", "0-63\n"),
    ])
    .expect("the level-3 unified entry should be found");

    assert_eq!(topology.domains().len(), 1);
    assert_eq!(topology.domains()[0].to_string(), "0-3");
}

#[test]
fn single_domain_machine_is_reported_as_one_domain() {
    let topology = read(&[
        entry("3", "Unified", "0-15"),
        entry("3", "Unified", "0-15"),
    ])
    .expect("a single-socket single-CCX machine still has one domain");

    assert_eq!(topology.domains().len(), 1);
    assert_eq!(topology.total_cpus(), 16);
}

#[test]
fn domains_are_ordered_by_lowest_cpu_regardless_of_read_order() {
    let topology = read(&[
        entry("3", "Unified", "16-31"),
        entry("3", "Unified", "0-15"),
        entry("3", "Unified", "48-63"),
        entry("3", "Unified", "32-47"),
    ])
    .expect("four domains should parse");

    let firsts: Vec<usize> = topology
        .domains()
        .iter()
        .map(|domain| domain.cpus()[0])
        .collect();
    assert_eq!(firsts, vec![0, 16, 32, 48]);
}

#[test]
fn no_level_three_entries_is_none() {
    assert!(read(&[entry("1", "Data", "0"), entry("2", "Unified", "0")]).is_none());
    assert!(read(&[]).is_none());
}

#[test]
fn intersecting_a_domain_keeps_only_allowed_cpus() {
    let topology = read(&[
        entry("3", "Unified", "0-7,64-71"),
        entry("3", "Unified", "8-15,72-79"),
    ])
    .expect("two domains should parse");
    // What a `taskset -c 0-15` process sees: the first domain survives as
    // its low half, the second as the other low half, and the SMT siblings
    // above 63 are gone from both.
    let allowed: Vec<usize> = (0..16).collect();

    assert_eq!(
        topology.domains()[0]
            .intersect(&allowed)
            .expect("cpus 0-7 are allowed")
            .to_string(),
        "0-7"
    );
    assert_eq!(
        topology.domains()[1]
            .intersect(&allowed)
            .expect("cpus 8-15 are allowed")
            .to_string(),
        "8-15"
    );
}

#[test]
fn a_domain_outside_the_allowed_set_intersects_to_none() {
    let topology = read(&[
        entry("3", "Unified", "0-7"),
        entry("3", "Unified", "8-15"),
    ])
    .expect("two domains should parse");

    assert_eq!(topology.domains()[1].intersect(&[0, 1, 2]), None);
    assert_eq!(topology.domains()[0].intersect(&[]), None);
}

#[test]
fn unparseable_level_three_domain_is_none_not_a_guess() {
    assert!(read(&[
        entry("3", "Unified", "0-15"),
        entry("3", "Unified", "not-a-list"),
    ])
    .is_none());
}

#[test]
fn an_id_is_made_of_digits_alone() {
    assert_eq!(parse_cpu_list("+3"), None);
    assert_eq!(parse_cpu_list("+1-3"), None);
    assert_eq!(parse_cpu_list("1-+3"), None);
    assert_eq!(parse_cpu_list("1-3,7"), Some(vec![1, 2, 3, 7]));
}
