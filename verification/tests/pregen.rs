//! Pregeneration: its settings, its depth, and the memory it may take.

use steel::pos::ChunkPos;
use steel::server::memory::{
    available_within_cgroup, cgroup_headroom, cgroup_hierarchy_headroom, cgroup_level_headroom,
    cgroup_path, narrower_headroom, parse_cgroup_current, parse_cgroup_limit, parse_mem_available,
    CgroupFile, CgroupHeadroom, CgroupLevel, CgroupLimit,
};
use steel::server::pregen::{
    check_pregen_window_budget, choose_pregen_active_windows,
    default_pregen_unload_backpressure_high, describe_pregen_depth, get_pregen_active_windows,
    get_pregen_size, get_pregen_unload_backpressure_override, get_pregen_window_size,
    parse_pregen_active_windows, parse_pregen_window_size, plan_area, plan_spawn_area,
    pregen_center, EnvValue, PregenDepth, PregenDepthBasis, PregenSettings, PregenSize,
    UnloadBackpressure, DEEP_PREGEN_ACTIVE_WINDOWS, DEFAULT_PREGEN_ACTIVE_WINDOWS,
    DEFAULT_PREGEN_UNLOAD_BACKPRESSURE_HIGH, DEFAULT_PREGEN_WINDOW_SIZE,
    PREGEN_ACTIVE_WINDOWS_ENV, PREGEN_DEEP_PIPELINE_MEMORY_DIVISOR, PREGEN_IN_FLIGHT_CHUNK_BYTES,
};
use steel::server::pregen_run::total_chunks;
use steel::server::windows::build_pregen_windows;

/// How far a full chunk's dependencies reach.
const HALO: i32 = 11;

#[test]
fn pregen_size_accepts_zero_as_disabled() {
    assert_eq!(PregenSize::from_side_length(0), Ok(None));
}

#[test]
fn pregen_size_accepts_odd_side_lengths() {
    assert_eq!(
        PregenSize::from_side_length(7),
        Ok(Some(PregenSize {
            side_length: 7,
            radius: 3,
        }))
    );
}

#[test]
fn pregen_size_rejects_even_side_lengths() {
    assert!(PregenSize::from_side_length(2).is_err());
}

#[test]
fn pregen_size_rejects_negative_side_lengths() {
    assert!(PregenSize::from_side_length(-1).is_err());
}

#[test]
fn pregen_window_order_keeps_consecutive_dependency_areas_local() {
    let radius = DEFAULT_PREGEN_WINDOW_SIZE * 2;
    let windows = build_pregen_windows(ChunkPos::new(0, 0), radius, DEFAULT_PREGEN_WINDOW_SIZE);

    assert_eq!(windows.len(), 25);
    assert_eq!(
        windows
            .iter()
            .map(|window| window.chunk_count())
            .sum::<usize>(),
        total_chunks(radius * 2 + 1)
    );
    assert!(
        windows
            .iter()
            .zip(windows.iter().skip(1))
            .all(|(current, next)| current.protected_rect(HALO).overlaps(next.protected_rect(HALO)))
    );
}

/// Parses a window size and then budget-checks it, the way startup does.
fn checked_window_size(
    value: &str,
    active_windows: usize,
    backpressure: UnloadBackpressure,
) -> Result<i32, String> {
    check_pregen_window_budget(
        parse_pregen_window_size(value)?,
        active_windows,
        backpressure,
    )
}

#[test]
fn pregen_window_size_requires_a_positive_integer() {
    assert_eq!(parse_pregen_window_size("1"), Ok(1));
    assert_eq!(parse_pregen_window_size("64"), Ok(64));
    assert!(parse_pregen_window_size("0").is_err());
    assert!(parse_pregen_window_size("-1").is_err());
    assert!(parse_pregen_window_size("wide").is_err());
}

#[test]
fn pregen_window_size_must_fit_unload_backpressure_budget() {
    // Pinned budgets rather than the shipped constant: the rule under test is
    // `window^2 * depth <= high`, and asserting it against whatever the default
    // happens to be makes the test fail whenever the default is retuned.
    let budget = UnloadBackpressure::from_high(8192);
    assert!(checked_window_size("64", 2, budget).is_ok());
    assert!(checked_window_size("65", 2, budget).is_err());
    assert!(checked_window_size(&i32::MAX.to_string(), 2, budget).is_err());
    // Depth trades against window area for the same budget.
    assert!(checked_window_size("32", 8, budget).is_ok());
    assert!(checked_window_size("32", 9, budget).is_err());
    // A larger budget admits a deeper pipeline at the same window size.
    let wide = UnloadBackpressure::from_high(32768);
    assert!(checked_window_size("32", 9, wide).is_ok());
    assert_eq!(wide.low, 16384);

    assert!(parse_pregen_active_windows("0").is_err());
    assert_eq!(parse_pregen_active_windows("4"), Ok(4));
}

#[test]
fn shipped_pregen_defaults_fit_their_own_budget() {
    let budget = UnloadBackpressure::from_high(default_pregen_unload_backpressure_high(16));
    assert!(
        check_pregen_window_budget(DEFAULT_PREGEN_WINDOW_SIZE, 16, budget,).is_ok(),
        "default window size and pipeline depth must not trip their own backpressure budget"
    );
}

#[test]
fn any_pipeline_depth_fits_its_own_backpressure_budget() {
    // The watermark is derived from the depth, so every depth the server can
    // choose has to clear the budget check its own watermark implies --
    // otherwise picking a depth is a way to make startup fail.
    for depth in [
        1,
        8,
        DEFAULT_PREGEN_ACTIVE_WINDOWS,
        DEEP_PREGEN_ACTIVE_WINDOWS,
        96,
        127,
    ] {
        let budget =
            UnloadBackpressure::from_high(default_pregen_unload_backpressure_high(depth));
        assert!(
            check_pregen_window_budget(DEFAULT_PREGEN_WINDOW_SIZE, depth, budget).is_ok(),
            "depth {depth} must fit the watermark it derives"
        );
    }
}

#[test]
fn the_shipped_depths_share_one_floor_clamped_watermark() {
    // The watermark is derived from depth but floored, and at the 32-chunk
    // window both shipped depths land on the floor. Asserted because the
    // doc above it explains the deep pipeline's slack in terms of this
    // clamp: if the floor or the multiplier moves, the two stop sharing a
    // watermark and that explanation is no longer the truth.
    let floor_depth = default_pregen_unload_backpressure_high(DEFAULT_PREGEN_ACTIVE_WINDOWS);
    let deep_depth = default_pregen_unload_backpressure_high(DEEP_PREGEN_ACTIVE_WINDOWS);
    assert_eq!(floor_depth, DEFAULT_PREGEN_UNLOAD_BACKPRESSURE_HIGH);
    assert_eq!(deep_depth, DEFAULT_PREGEN_UNLOAD_BACKPRESSURE_HIGH);

    // What that costs, stated so it cannot change unnoticed: the deep
    // pipeline runs at half the floor pipeline's backlog slack, and its low
    // watermark is exactly its own in-flight count -- so if backpressure
    // ever does trip at depth 32, activation resumes only after a full
    // pipeline's worth of chunks has drained.
    let window = DEFAULT_PREGEN_WINDOW_SIZE as usize * DEFAULT_PREGEN_WINDOW_SIZE as usize;
    let floor_in_flight = window * DEFAULT_PREGEN_ACTIVE_WINDOWS;
    let deep_in_flight = window * DEEP_PREGEN_ACTIVE_WINDOWS;
    assert_eq!(floor_depth - floor_in_flight, 49152);
    assert_eq!(deep_depth - deep_in_flight, 32768);
    assert_eq!(
        UnloadBackpressure::from_high(deep_depth).low,
        deep_in_flight
    );

    // Above the shipped depths the derivation does take over, which is what
    // keeps a deeper operator-pinned depth from failing its own budget.
    assert_eq!(default_pregen_unload_backpressure_high(48), 98304);
}

const GIB: u64 = 1024 * 1024 * 1024;

/// Memory a window of `window_size` needs before the deep pipeline is taken.
fn deep_pipeline_requirement(window_size: u64) -> u64 {
    let extra_chunks = window_size
        * window_size
        * (DEEP_PREGEN_ACTIVE_WINDOWS - DEFAULT_PREGEN_ACTIVE_WINDOWS) as u64;
    extra_chunks * PREGEN_IN_FLIGHT_CHUNK_BYTES * PREGEN_DEEP_PIPELINE_MEMORY_DIVISOR
}

#[test]
fn pipeline_depth_deepens_only_with_memory_to_spare() {
    // The shipped window: 16 extra windows of 32x32 is 16,384 in-flight
    // chunks at 256 KiB each, so 4 GiB projected and 16 GiB required.
    assert_eq!(deep_pipeline_requirement(32), 16 * GIB);

    let deep = choose_pregen_active_windows(Some(64 * GIB), DEFAULT_PREGEN_WINDOW_SIZE, None);
    assert_eq!(deep.active_windows, DEEP_PREGEN_ACTIVE_WINDOWS);
    assert_eq!(
        deep.basis,
        PregenDepthBasis::MemoryHeadroom {
            available_bytes: 64 * GIB,
            projected_extra_bytes: 4 * GIB,
        }
    );

    // Exactly enough qualifies; one byte less does not. The boundary is
    // asserted from both sides because a `<` here would silently move the
    // requirement by a whole factor of the divisor on the next edit.
    assert_eq!(
        choose_pregen_active_windows(Some(16 * GIB), DEFAULT_PREGEN_WINDOW_SIZE, None)
            .active_windows,
        DEEP_PREGEN_ACTIVE_WINDOWS
    );
    let tight =
        choose_pregen_active_windows(Some(16 * GIB - 1), DEFAULT_PREGEN_WINDOW_SIZE, None);
    assert_eq!(tight.active_windows, DEFAULT_PREGEN_ACTIVE_WINDOWS);
    assert_eq!(
        tight.basis,
        PregenDepthBasis::MemoryTight {
            available_bytes: 16 * GIB - 1,
            projected_extra_bytes: 4 * GIB,
        }
    );

    // A machine with 4 GiB to spare runs the pregeneration, just not the
    // deep one. That the 4 GiB *container* case reaches this decision with
    // 4 GiB rather than its host's figure is a property of the reader, and
    // is asserted in `a_container_memory_limit_caps_the_hosts_figure`.
    assert_eq!(
        choose_pregen_active_windows(Some(4 * GIB), DEFAULT_PREGEN_WINDOW_SIZE, None)
            .active_windows,
        DEFAULT_PREGEN_ACTIVE_WINDOWS
    );

    // No reading means no evidence of headroom, not permission to assume it.
    let unknown = choose_pregen_active_windows(None, DEFAULT_PREGEN_WINDOW_SIZE, None);
    assert_eq!(unknown.active_windows, DEFAULT_PREGEN_ACTIVE_WINDOWS);
    assert_eq!(unknown.basis, PregenDepthBasis::MemoryUnknown);
}

#[test]
fn pipeline_depth_requirement_scales_with_window_area() {
    // In-flight chunks are `depth * window_size^2`, so halving the window
    // quarters what the deeper pipeline costs and quarters what it demands.
    for (window_size, required) in [(8, GIB), (16, 4 * GIB), (32, 16 * GIB)] {
        assert_eq!(deep_pipeline_requirement(window_size), required);
        let window_size = i32::try_from(window_size).expect("window size fits an i32");
        assert_eq!(
            choose_pregen_active_windows(Some(required), window_size, None).active_windows,
            DEEP_PREGEN_ACTIVE_WINDOWS,
            "window {window_size} should deepen with {required} bytes available"
        );
        assert_eq!(
            choose_pregen_active_windows(Some(required - 1), window_size, None).active_windows,
            DEFAULT_PREGEN_ACTIVE_WINDOWS,
            "window {window_size} should not deepen just below its requirement"
        );
    }
}

#[test]
fn pipeline_depth_never_deepens_past_the_unload_watermark() {
    // A 48-chunk window is inside the budget at depth 16 (36,864 in-flight
    // against a 65,536 watermark) and outside it at depth 32 (73,728), so
    // deepening would turn a working configuration into a startup failure.
    // Memory is deliberately absurd here: the watermark has to veto first.
    let wide = choose_pregen_active_windows(Some(1024 * GIB), 48, None);
    assert_eq!(wide.active_windows, DEFAULT_PREGEN_ACTIVE_WINDOWS);
    assert_eq!(
        wide.basis,
        PregenDepthBasis::BudgetTooTight { watermark: 65536 }
    );
    let budget = UnloadBackpressure::from_high(default_pregen_unload_backpressure_high(
        wide.active_windows,
    ));
    assert!(check_pregen_window_budget(48, wide.active_windows, budget).is_ok());

    // Same veto when the operator pinned a watermark too low for depth 32.
    let pinned =
        choose_pregen_active_windows(Some(1024 * GIB), DEFAULT_PREGEN_WINDOW_SIZE, Some(20000));
    assert_eq!(pinned.active_windows, DEFAULT_PREGEN_ACTIVE_WINDOWS);
    assert_eq!(
        pinned.basis,
        PregenDepthBasis::BudgetTooTight { watermark: 20000 }
    );
    // 32 windows of 32x32 is 32,768 in-flight chunks, so a watermark that
    // clears that leaves the choice to memory again.
    assert_eq!(
        choose_pregen_active_windows(Some(1024 * GIB), DEFAULT_PREGEN_WINDOW_SIZE, Some(32768))
            .active_windows,
        DEEP_PREGEN_ACTIVE_WINDOWS
    );
}

#[test]
fn depth_log_line_carries_the_number_and_the_evidence() {
    // The whole point of the basis is that an operator staring at a resident
    // set can read why it is that size, so the numbers behind the decision
    // have to reach the log, not just the verdict.
    let deep = describe_pregen_depth(choose_pregen_active_windows(
        Some(64 * GIB),
        DEFAULT_PREGEN_WINDOW_SIZE,
        None,
    ));
    assert!(deep.contains("depth 32 windows"), "{deep}");
    assert!(deep.contains("65536 MiB available"), "{deep}");
    assert!(deep.contains("4096 MiB"), "{deep}");

    let tight = describe_pregen_depth(choose_pregen_active_windows(
        Some(GIB),
        DEFAULT_PREGEN_WINDOW_SIZE,
        None,
    ));
    assert!(tight.contains("depth 16 windows"), "{tight}");
    assert!(tight.contains("wants 16384 MiB"), "{tight}");
    assert!(tight.contains("has 1024 MiB"), "{tight}");

    let explicit = describe_pregen_depth(PregenDepth {
        active_windows: 48,
        basis: PregenDepthBasis::Explicit,
    });
    assert!(explicit.contains("depth 48 windows"), "{explicit}");
    assert!(explicit.contains(PREGEN_ACTIVE_WINDOWS_ENV), "{explicit}");
}

#[test]
fn available_memory_reads_the_kernel_estimate_not_free_pages() {
    // MemFree first and larger, so a parser that matched the wrong field or
    // took the first number would be caught.
    let meminfo = "MemTotal:       32000000 kB\n\
                   MemFree:         9000000 kB\n\
                   MemAvailable:    1048576 kB\n\
                   Buffers:          100000 kB\n";
    assert_eq!(parse_mem_available(meminfo), Some(GIB));
    assert_eq!(parse_mem_available("MemTotal: 32000000 kB\n"), None);
    // A unit this does not understand is not worth guessing at.
    assert_eq!(parse_mem_available("MemAvailable:  16 GB\n"), None);
    assert_eq!(parse_mem_available("MemAvailable:  many kB\n"), None);
}

#[test]
fn a_container_memory_limit_caps_the_hosts_figure() {
    // The deployment the margin exists for: a host's MemAvailable
    // (1,154,764,308 kB) inside `docker run -m 4g`. Reading the host figure
    // clears the 16 GiB requirement seventy times over and grows the pass
    // toward the 13,007 MiB the deep pipeline was measured at, inside a 4
    // GiB cap. The cgroup's headroom has to win.
    let host = 1_154_764_308 * 1024;
    let container = available_within_cgroup(
        Some(host),
        cgroup_level_headroom(CgroupLimit::Bytes(4 * GIB), Some(GIB / 2)),
    );
    assert_eq!(container, Some(4 * GIB - GIB / 2));
    assert_eq!(
        choose_pregen_active_windows(container, DEFAULT_PREGEN_WINDOW_SIZE, None)
            .active_windows,
        DEFAULT_PREGEN_ACTIVE_WINDOWS,
        "a 4 GiB container must not take the deep pipeline off its host's free memory"
    );

    // The cap is a cap, not a replacement: a container far larger than what
    // the host has left still cannot have more than the host has left.
    assert_eq!(
        available_within_cgroup(
            Some(2 * GIB),
            cgroup_level_headroom(CgroupLimit::Bytes(512 * GIB), Some(0)),
        ),
        Some(2 * GIB)
    );
    // And with no limit anywhere, the host figure is the answer -- otherwise
    // this would have taken the deep pipeline away from every bare-metal
    // machine that was choosing it correctly.
    assert_eq!(
        available_within_cgroup(Some(64 * GIB), CgroupHeadroom::Unlimited),
        Some(64 * GIB)
    );
    assert_eq!(
        choose_pregen_active_windows(
            available_within_cgroup(Some(64 * GIB), CgroupHeadroom::Unlimited),
            DEFAULT_PREGEN_WINDOW_SIZE,
            None
        )
        .active_windows,
        DEEP_PREGEN_ACTIVE_WINDOWS
    );
}

#[test]
fn a_limit_that_cannot_be_read_is_not_headroom() {
    // A limit exists, so `/proc/meminfo` is known to be the wrong number;
    // falling back to it is the failure mode this whole reading exists to
    // avoid, so an unreadable limit has to erase the host figure entirely.
    assert_eq!(
        cgroup_level_headroom(CgroupLimit::Bytes(4 * GIB), None),
        CgroupHeadroom::Unreadable
    );
    assert_eq!(
        cgroup_level_headroom(CgroupLimit::Unparseable, Some(0)),
        CgroupHeadroom::Unreadable
    );
    assert_eq!(
        available_within_cgroup(Some(1024 * GIB), CgroupHeadroom::Unreadable),
        None
    );
    assert_eq!(
        choose_pregen_active_windows(
            available_within_cgroup(Some(1024 * GIB), CgroupHeadroom::Unreadable),
            DEFAULT_PREGEN_WINDOW_SIZE,
            None
        )
        .basis,
        PregenDepthBasis::MemoryUnknown
    );

    // An unreadable level poisons the whole walk for the same reason: it
    // could be the one that binds.
    assert_eq!(
        narrower_headroom(
            CgroupHeadroom::Limited(64 * GIB),
            CgroupHeadroom::Unreadable
        ),
        CgroupHeadroom::Unreadable
    );
    // A charged limit with no host figure at all still answers.
    assert_eq!(
        available_within_cgroup(None, CgroupHeadroom::Limited(4 * GIB)),
        Some(4 * GIB)
    );
}

#[test]
fn an_ancestor_limit_binds_as_hard_as_the_leafs() {
    // Kubernetes puts the pod limit on the parent of the container's own
    // cgroup, so a walk that stopped at the leaf would read a pod capped at
    // 2 GiB as uncapped.
    let leaf = cgroup_level_headroom(CgroupLimit::Unlimited, Some(GIB));
    let parent = cgroup_level_headroom(CgroupLimit::Bytes(2 * GIB), Some(GIB));
    assert_eq!(
        narrower_headroom(leaf, parent),
        CgroupHeadroom::Limited(GIB)
    );
    // Two real limits: the tighter one is what the process is killed at.
    assert_eq!(
        narrower_headroom(
            CgroupHeadroom::Limited(32 * GIB),
            CgroupHeadroom::Limited(3 * GIB)
        ),
        CgroupHeadroom::Limited(3 * GIB)
    );
    // A charge above the limit is a cgroup already in reclaim, not headroom
    // that wrapped around.
    assert_eq!(
        cgroup_level_headroom(CgroupLimit::Bytes(GIB), Some(2 * GIB)),
        CgroupHeadroom::Limited(0)
    );
}

#[test]
fn cgroup_limit_files_are_read_in_both_generations_spellings() {
    // v2 writes `max` for no limit; v1 writes a page-aligned saturation of
    // `i64`, which is not a limit either and must not read as one -- taking
    // it literally would leave 8 EiB of "headroom" and deepen everywhere.
    assert_eq!(parse_cgroup_limit("max\n"), CgroupLimit::Unlimited);
    assert_eq!(
        parse_cgroup_limit("9223372036854771712\n"),
        CgroupLimit::Unlimited
    );
    assert_eq!(
        parse_cgroup_limit("4294967296\n"),
        CgroupLimit::Bytes(4 * GIB)
    );
    assert_eq!(parse_cgroup_limit("unlimited\n"), CgroupLimit::Unparseable);
    assert_eq!(parse_cgroup_current("1073741824\n"), Some(GIB));
    assert_eq!(parse_cgroup_current("nan\n"), None);

    // `/proc/self/cgroup`: the v2 line is the one with no controllers, and
    // the v1 memory line may be co-mounted with other controllers.
    let hybrid = "12:cpu,cpuacct:/user.slice\n\
                  4:memory:/docker/abc\n\
                  0::/user.slice/user-1000.slice/session-18.scope\n";
    assert_eq!(
        cgroup_path(hybrid, None).as_deref(),
        Some("/user.slice/user-1000.slice/session-18.scope")
    );
    assert_eq!(cgroup_path(hybrid, Some("memory")).as_deref(), Some("/docker/abc"));
    // A co-mounted memory controller must not be missed by a prefix match.
    assert_eq!(
        cgroup_path("5:cpu,memory,pids:/kubepods/pod0\n", Some("memory")).as_deref(),
        Some("/kubepods/pod0")
    );
    assert_eq!(cgroup_path("5:cpu:/x\n", Some("memory")), None);
    assert_eq!(cgroup_path("", None), None);
}


#[test]
fn explicit_pipeline_depth_wins_over_the_automatic_choice() {
    let pinned = get_pregen_active_windows(
        &EnvValue::Text("48".to_owned()),
        Some(1024 * GIB),
        DEFAULT_PREGEN_WINDOW_SIZE,
        None,
    );
    assert_eq!(
        pinned,
        Ok(PregenDepth { active_windows: 48, basis: PregenDepthBasis::Explicit })
    );
    let automatic = get_pregen_active_windows(
        &EnvValue::NotPresent,
        Some(1024 * GIB),
        DEFAULT_PREGEN_WINDOW_SIZE,
        None,
    )
    .expect("no setting is a valid setting");
    assert_ne!(automatic.basis, PregenDepthBasis::Explicit);
    assert_eq!(automatic.active_windows, DEEP_PREGEN_ACTIVE_WINDOWS);
}

fn text(value: &str) -> EnvValue {
    EnvValue::Text(value.to_owned())
}

#[test]
fn settings_say_what_is_wrong_with_them() {
    assert_eq!(get_pregen_size(&EnvValue::NotPresent), Ok(None));
    assert_eq!(
        get_pregen_size(&EnvValue::NotUnicode),
        Err("PREGEN_SIZE must be valid unicode".to_owned())
    );
    let garbled = get_pregen_size(&text("wide")).expect_err("not a number");
    assert!(garbled.starts_with("PREGEN_SIZE must be 0 or a positive odd integer: "), "{garbled}");
    assert!(garbled.ends_with("wide".parse::<i32>().expect_err("not a number").to_string().as_str()));
    assert_eq!(
        get_pregen_size(&text("+9")),
        Ok(Some(PregenSize { side_length: 9, radius: 4 }))
    );
    assert!(get_pregen_window_size(&text("0")).is_err());
    assert_eq!(get_pregen_window_size(&EnvValue::NotPresent), Ok(DEFAULT_PREGEN_WINDOW_SIZE));
    assert_eq!(get_pregen_unload_backpressure_override(&text("20000")), Ok(Some(20000)));
    assert!(get_pregen_unload_backpressure_override(&text("0")).is_err());
    assert!(get_pregen_unload_backpressure_override(&EnvValue::NotUnicode).is_err());
}

#[test]
fn number_faults_read_as_the_standard_ones() {
    for value in ["", "-", "+", "12x", "99999999999", "-99999999999"] {
        let stated = value.parse::<i32>().expect_err("no number").to_string();
        let said = get_pregen_size(&text(value)).expect_err("no number");
        assert!(said.ends_with(&stated), "{value:?}: {said}");
    }
    for value in ["", "-", "+", "-1", "99999999999999999999"] {
        let stated = value.parse::<usize>().expect_err("no number").to_string();
        let said = parse_pregen_active_windows(value).expect_err("no number");
        assert!(said.ends_with(&stated), "{value:?}: {said}");
    }
}

#[test]
fn a_plan_takes_every_setting() {
    let settings = PregenSettings {
        size: text("101"),
        window_size: text("16"),
        unload_backpressure: text("10000"),
        active_windows: text("8"),
    };
    let plan = plan_spawn_area(&settings, None).expect("valid").expect("an area");
    assert_eq!(plan.size, PregenSize { side_length: 101, radius: 50 });
    assert_eq!(plan.window_size, 16);
    assert_eq!(plan.backpressure, UnloadBackpressure { high: 10000, low: 5000 });
    assert_eq!(plan.depth.active_windows, 8);

    let too_deep = PregenSettings {
        size: text("101"),
        window_size: text("16"),
        unload_backpressure: text("1000"),
        active_windows: text("8"),
    };
    let error = plan_spawn_area(&too_deep, None).expect_err("2048 chunks in flight");
    assert_eq!(
        error,
        "PREGEN_WINDOW_SIZE of 16 must keep 8 active windows within the 1000-chunk \
         unload-backpressure budget (raise PREGEN_UNLOAD_BACKPRESSURE to allow a deeper pipeline)"
    );
    let off = PregenSettings {
        size: EnvValue::NotPresent,
        window_size: text("junk"),
        unload_backpressure: EnvValue::NotPresent,
        active_windows: EnvValue::NotPresent,
    };
    assert_eq!(plan_spawn_area(&off, None), Ok(None));
}

#[test]
fn an_explicit_plan_defaults_to_the_floor() {
    let plan = plan_area(7, None, None).expect("valid").expect("an area");
    assert_eq!(plan.depth.active_windows, DEFAULT_PREGEN_ACTIVE_WINDOWS);
    assert_eq!(plan.window_size, DEFAULT_PREGEN_WINDOW_SIZE);
    assert_eq!(
        plan_area(7, None, Some(0)),
        Err("active window limit must be a positive integer".to_owned())
    );
    assert!(plan_area(0, None, None).is_err());
    assert!(plan_area(-7, None, None).is_err());
    assert!(plan_area(8, None, None).is_err());
}

#[test]
fn small_areas_are_centered_on_the_spawn() {
    assert_eq!(pregen_center(7, -1, 33), ChunkPos::new(-1, 2));
    assert_eq!(pregen_center(9, -1, 33), ChunkPos::new(0, 0));
}

fn level(limit: Option<&str>, current: Option<&str>) -> CgroupLevel {
    let file = |text: Option<&str>| match text {
        Some(text) => CgroupFile::Text(text.to_owned()),
        None => CgroupFile::Absent,
    };
    CgroupLevel { limit: file(limit), current: file(current) }
}

#[test]
fn a_hierarchy_is_as_tight_as_its_tightest_level() {
    let levels = vec![
        level(Some("max\n"), Some("5\n")),
        level(Some("1000\n"), Some("400\n")),
        level(None, None),
        level(Some("900\n"), Some("500\n")),
    ];
    assert_eq!(cgroup_hierarchy_headroom(&levels), CgroupHeadroom::Limited(400));
    let legacy = vec![level(Some("300\n"), Some("0\n"))];
    assert_eq!(cgroup_headroom(&Some(levels), &Some(legacy)), CgroupHeadroom::Limited(300));
    assert_eq!(cgroup_headroom(&None, &None), CgroupHeadroom::Unlimited);
    let broken = vec![level(Some("12 apples"), Some("0"))];
    assert_eq!(cgroup_hierarchy_headroom(&broken), CgroupHeadroom::Unreadable);
}

#[test]
fn a_limit_that_cannot_be_read_is_not_overlooked() {
    let refused = CgroupLevel {
        limit: CgroupFile::Unreadable,
        current: CgroupFile::Text("5\n".to_owned()),
    };
    let levels = vec![level(Some("1000\n"), Some("400\n")), refused];
    assert_eq!(cgroup_hierarchy_headroom(&levels), CgroupHeadroom::Unreadable);
    assert_eq!(cgroup_headroom(&Some(levels), &None), CgroupHeadroom::Unreadable);
    let uncharged = CgroupLevel {
        limit: CgroupFile::Text("1000\n".to_owned()),
        current: CgroupFile::Unreadable,
    };
    assert_eq!(cgroup_hierarchy_headroom(&vec![uncharged]), CgroupHeadroom::Unreadable);
}

#[test]
fn every_depth_has_its_words() {
    let unknown = describe_pregen_depth(PregenDepth {
        active_windows: 16,
        basis: PregenDepthBasis::MemoryUnknown,
    });
    assert!(unknown.contains("depth 16 windows"), "{unknown}");
    let tight = describe_pregen_depth(PregenDepth {
        active_windows: 16,
        basis: PregenDepthBasis::BudgetTooTight { watermark: 20000 },
    });
    assert!(tight.contains("20000"), "{tight}");
}

#[test]
fn the_unified_line_has_the_id_zero() {
    let lines = "7::/stray\n0::/user.slice\n";
    assert_eq!(cgroup_path(lines, None).as_deref(), Some("/user.slice"));
    assert_eq!(cgroup_path("7::/stray\n", None), None);
}

#[test]
fn no_amount_of_memory_affords_a_projection_beyond_counting() {
    let depth = choose_pregen_active_windows(Some(u64::MAX), 100_000_000, Some(usize::MAX));
    assert_eq!(depth.active_windows, DEFAULT_PREGEN_ACTIVE_WINDOWS);
    let enough = choose_pregen_active_windows(Some(16 * GIB), 32, None);
    assert_eq!(enough.active_windows, DEEP_PREGEN_ACTIVE_WINDOWS);
    let short = choose_pregen_active_windows(Some(16 * GIB - 1), 32, None);
    assert_eq!(short.active_windows, DEFAULT_PREGEN_ACTIVE_WINDOWS);
}
