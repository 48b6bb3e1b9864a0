//! Surface rules and the analyses of density functions.

use rand::rngs::StdRng;
use rand::{RngExt, SeedableRng};
use steel::density::bounds::{
    blended_reach, combine_reach, compute_bounds, density_nonpositive_when_first_channel_nonpositive,
    has_blended_noise, is_finite_valued, spline_is_finite, zeroing_gradient_at_or_above,
    BlendedReach, BoundsPlan,
};
use steel::density::functions::{
    at_least, is_finite, is_zero, CubicSpline, DensityFunction, DensityRegistry, MappedType,
    MarkerType, NamedFunction, SplinePoint, SplineValue, TwoArgType,
};
use steel::density::magnitude::{product_at_least, product_at_most, sum_at_least, sum_at_most};
use steel::density::surface_rules::{
    condition_uses_preliminary_surface, generate_surface_rule_function, reads_scan_state,
    rule_uses_preliminary_surface, BiomeIdJson, BoolCode, Cond, ContextField, IntCode,
    ResultStateJson, SingleOrList, SurfaceCode, SurfaceConditionJson, SurfaceRuleJson,
    SurfaceRuleTranspiler, VerticalAnchorJson,
};

fn block(name: &str) -> SurfaceRuleJson {
    SurfaceRuleJson::Block { result_state: ResultStateJson { name: name.to_owned() } }
}

fn when(if_true: SurfaceConditionJson, then_run: SurfaceRuleJson) -> SurfaceRuleJson {
    SurfaceRuleJson::Condition { if_true, then_run: Box::new(then_run) }
}

fn absolute(absolute: i32) -> VerticalAnchorJson {
    VerticalAnchorJson::Absolute { absolute }
}

fn gradient(random_name: &str, low: i32, high: i32) -> SurfaceConditionJson {
    SurfaceConditionJson::VerticalGradient {
        random_name: random_name.to_owned(),
        true_at_and_below: absolute(low),
        false_at_and_above: absolute(high),
    }
}

fn biomes(names: &[&str]) -> SurfaceConditionJson {
    SurfaceConditionJson::BiomeIs {
        biome_is: SingleOrList::List(
            names.iter().map(|name| BiomeIdJson((*name).to_owned())).collect(),
        ),
    }
}

fn not(condition: SurfaceConditionJson) -> SurfaceConditionJson {
    SurfaceConditionJson::Not { invert: Box::new(condition) }
}

#[test]
fn a_sequence_is_lowered_in_order() {
    let rule = SurfaceRuleJson::Sequence {
        sequence: vec![
            when(gradient("minecraft:bedrock_floor", -64, -59), block("minecraft:bedrock")),
            block("minecraft:stone"),
        ],
    };
    let made = generate_surface_rule_function(&rule, -64, 384);
    assert_eq!(made.gradient_ids, ["minecraft:bedrock_floor"]);
    assert_eq!(made.block_state_names, ["minecraft:bedrock", "minecraft:stone"]);
    assert!(made.noise_ids.is_empty());
    assert!(!made.uses_biome);
    assert!(made.deep_band.is_none());
    match made.functions.body {
        SurfaceCode::Then(first, second) => {
            assert!(matches!(
                *first,
                SurfaceCode::If {
                    cond: BoolCode::Gradient { gradient: 0, true_y: -64, false_y: -59 },
                    ..
                }
            ));
            assert!(matches!(*second, SurfaceCode::ReturnBlock(1)));
        }
        _ => panic!("two statements"),
    }
}

#[test]
fn names_are_listed_once() {
    let threshold = |low: f64, high: f64| SurfaceConditionJson::NoiseThreshold {
        noise: "minecraft:surface".to_owned(),
        is_3d: false,
        min_threshold: low.to_bits(),
        max_threshold: high.to_bits(),
    };
    let rule = SurfaceRuleJson::Sequence {
        sequence: vec![
            when(threshold(-0.5, 0.0), block("minecraft:dirt")),
            when(threshold(0.1, 0.2), block("minecraft:dirt")),
            when(biomes(&["minecraft:Desert", "other:mesa"]), block("minecraft:sand")),
        ],
    };
    let made = generate_surface_rule_function(&rule, -64, 384);
    assert_eq!(made.noise_ids, ["minecraft:surface"]);
    assert_eq!(made.block_state_names, ["minecraft:dirt", "minecraft:sand"]);
    // Without the default namespace, in upper case.
    assert_eq!(made.biome_idents, ["DESERT", "OTHER:MESA"]);
    assert!(made.uses_biome);
}

#[test]
fn anchors_resolve_against_the_extent() {
    let transpiler = SurfaceRuleTranspiler::new(-64, 384, false);
    assert_eq!(transpiler.resolve_anchor(&absolute(12)), 12);
    assert_eq!(
        transpiler.resolve_anchor(&VerticalAnchorJson::AboveBottom { above_bottom: 5 }),
        -59
    );
    assert_eq!(transpiler.resolve_anchor(&VerticalAnchorJson::BelowTop { below_top: 0 }), 319);
}

#[test]
fn conditions_compare_what_they_read() {
    let mut transpiler = SurfaceRuleTranspiler::new(-64, 384, false);
    let above = SurfaceConditionJson::YAbove {
        anchor: absolute(62),
        surface_depth_multiplier: 0,
        add_stone_depth: false,
    };
    match transpiler.transpile_condition(&above) {
        Cond::Expr(BoolCode::AtLeast(left, right)) => {
            assert!(matches!(left, IntCode::Field(ContextField::BlockY)));
            match right {
                IntCode::Plus(level, slope) => {
                    assert!(matches!(*level, IntCode::Literal(62)));
                    match *slope {
                        IntCode::Times(depth, factor) => {
                            assert!(matches!(*depth, IntCode::Field(ContextField::SurfaceDepth)));
                            assert!(matches!(*factor, IntCode::Literal(0)));
                        }
                        _ => panic!("the depth times its multiplier"),
                    }
                }
                _ => panic!("a level that follows the surface depth"),
            }
        }
        _ => panic!("a comparison of the height"),
    }
    let _ = transpiler.transpile_condition(&SurfaceConditionJson::Steep {});
    assert!(transpiler.uses_steep);
    let _ = transpiler.transpile_condition(&SurfaceConditionJson::Temperature {});
    assert!(transpiler.uses_biome);
}

#[test]
fn the_depth_bound_only_widens() {
    let mut transpiler = SurfaceRuleTranspiler::new(-64, 384, false);
    assert_eq!(transpiler.stone_depth_below_bound, Some(0));
    transpiler.note_stone_depth_below_bound(Some(4));
    transpiler.note_stone_depth_below_bound(Some(2));
    assert_eq!(transpiler.stone_depth_below_bound, Some(4));
    transpiler.note_stone_depth_below_bound(None);
    transpiler.note_stone_depth_below_bound(Some(9));
    assert_eq!(transpiler.stone_depth_below_bound, None);
}

#[test]
fn the_deep_band_drops_what_is_above() {
    let rule = SurfaceRuleJson::Sequence {
        sequence: vec![
            when(gradient("minecraft:bedrock_floor", -64, -59), block("minecraft:bedrock")),
            when(SurfaceConditionJson::AbovePreliminarySurface {}, block("minecraft:grass_block")),
            when(biomes(&["minecraft:badlands"]), block("minecraft:terracotta")),
            when(gradient("minecraft:deepslate", 0, 8), block("minecraft:deepslate")),
        ],
    };
    assert!(rule_uses_preliminary_surface(&rule));
    let made = generate_surface_rule_function(&rule, -64, 384);
    assert!(made.uses_preliminary_surface);
    let band = made.deep_band.expect("the rule admits a deep band");
    assert_eq!(band.write_ceiling, 8);
    assert_eq!(band.required_absent_biomes, ["minecraft:badlands"]);
    assert!(made.functions.deep_body.is_some());
}

#[test]
fn facts_fold_conditions_away() {
    let mut transpiler = SurfaceRuleTranspiler::new(-64, 384, true);
    transpiler.facts.above_preliminary_surface = Some(false);
    transpiler.facts.absent_biomes = vec!["minecraft:badlands".to_owned()];
    let above = SurfaceConditionJson::AbovePreliminarySurface {};
    assert_eq!(transpiler.const_condition(&above), Some(false));
    assert_eq!(transpiler.const_condition(&not(above)), Some(true));
    assert_eq!(transpiler.const_condition(&biomes(&["minecraft:badlands"])), Some(false));
    assert_eq!(
        transpiler.const_condition(&biomes(&["minecraft:badlands", "minecraft:desert"])),
        None
    );
    assert_eq!(
        transpiler.condition_false_at_and_above(&gradient("minecraft:deepslate", 0, 8)),
        Some(8)
    );
    assert_eq!(
        transpiler.write_ceiling(&when(
            gradient("minecraft:deepslate", 0, 8),
            block("minecraft:deepslate")
        )),
        Some(8)
    );
    assert_eq!(transpiler.write_ceiling(&block("minecraft:stone")), None);
    assert!(condition_uses_preliminary_surface(&not(
        SurfaceConditionJson::AbovePreliminarySurface {}
    )));
    assert!(!condition_uses_preliminary_surface(&SurfaceConditionJson::Hole {}));
}

fn constant(value: f64) -> DensityFunction {
    DensityFunction::Constant { value: value.to_bits() }
}

fn two(op: TwoArgType, a: DensityFunction, b: DensityFunction) -> DensityFunction {
    DensityFunction::TwoArgumentSimple {
        op,
        argument1: Box::new(a),
        argument2: Box::new(b),
        nonzero1: false,
        nonzero2: false,
    }
}

fn mapped(mapping: MappedType, input: DensityFunction) -> DensityFunction {
    DensityFunction::Mapped { mapping, input: Box::new(input) }
}

fn interpolated(wrapped: DensityFunction) -> DensityFunction {
    DensityFunction::Marker { kind: MarkerType::Interpolated, wrapped: Box::new(wrapped) }
}

fn reference(id: &str) -> DensityFunction {
    DensityFunction::Reference { id: id.to_owned() }
}

fn registry(entries: Vec<(&str, DensityFunction)>) -> DensityRegistry {
    DensityRegistry {
        entries: entries
            .into_iter()
            .map(|(id, function)| NamedFunction { id: id.to_owned(), function })
            .collect(),
    }
}

#[test]
fn bit_patterns_compare_like_their_values() {
    let values =
        [f64::NEG_INFINITY, -2.5, -0.0, 0.0, 1e-300, 1.0, f64::MAX, f64::INFINITY, f64::NAN];
    for a in values {
        assert_eq!(is_finite(a.to_bits()), a.is_finite());
        assert_eq!(is_zero(a.to_bits()), a == 0.0);
        for b in values {
            assert_eq!(at_least(a.to_bits(), b.to_bits()), a >= b, "{a} {b}");
        }
    }
}

#[test]
fn bounds_follow_the_tree() {
    let named = registry(vec![("a", two(TwoArgType::Add, constant(1.0), reference("a")))]);
    match compute_bounds(&reference("a"), &named) {
        BoundsPlan::Sum(one, cycle) => {
            assert!(matches!(*one, BoundsPlan::Between(low, high)
                if low == 1.0f64.to_bits() && high == low));
            assert!(matches!(*cycle, BoundsPlan::Unbounded));
        }
        _ => panic!("a sum"),
    }
    let none = registry(vec![]);
    assert!(matches!(compute_bounds(&DensityFunction::EndIslands, &none),
        BoundsPlan::Between(low, high)
            if low == (-100.0f64).to_bits() && high == 80.0f64.to_bits()));
    assert!(matches!(compute_bounds(&reference("missing"), &none), BoundsPlan::Unbounded));
    let clamped = DensityFunction::Clamp {
        input: Box::new(DensityFunction::BlendedNoise),
        min: (-1.0f64).to_bits(),
        max: 1.0f64.to_bits(),
    };
    assert!(matches!(compute_bounds(&clamped, &none), BoundsPlan::Between(_, _)));
}

#[test]
fn the_density_follows_its_first_channel_only_through_sign_keeping_operations() {
    let none = registry(vec![]);
    let follows = |function: &DensityFunction| {
        density_nonpositive_when_first_channel_nonpositive(function, &none)
    };
    assert!(follows(&mapped(MappedType::Squeeze, interpolated(constant(0.0)))));
    assert!(follows(&two(
        TwoArgType::Min,
        mapped(MappedType::Squeeze, interpolated(constant(0.0))),
        constant(1.0)
    )));
    assert!(!follows(&mapped(MappedType::Abs, interpolated(constant(0.0)))));
    assert!(!follows(&two(TwoArgType::Add, interpolated(constant(0.0)), constant(1.0))));
    assert!(!follows(&constant(-1.0)));
}

#[test]
fn a_gradient_that_slides_to_zero_is_recognized() {
    let none = registry(vec![]);
    let level = |from_y: i32, to_y: i32, from: f64, to: f64| {
        let gradient = DensityFunction::YClampedGradient {
            from_y,
            to_y,
            from_value: from.to_bits(),
            to_value: to.to_bits(),
        };
        zeroing_gradient_at_or_above(&gradient, &none, &mut vec![])
    };
    assert_eq!(level(240, 256, 1.0, 0.0), Some(256));
    assert_eq!(level(240, 256, 1.0, -0.0), Some(256));
    assert_eq!(level(240, 256, 1.0, 0.5), None);
    assert_eq!(level(256, 240, 1.0, 0.0), None);
    assert_eq!(level(240, 256, f64::INFINITY, 0.0), None);
}

#[test]
fn finiteness_and_blended_noise_are_found_through_references() {
    let named = registry(vec![("noisy", two(TwoArgType::Add, constant(2.0), DensityFunction::BlendedNoise))]);
    assert!(has_blended_noise(&reference("noisy"), &named, &mut vec![]));
    assert!(!has_blended_noise(&constant(1.0), &named, &mut vec![]));
    assert!(is_finite_valued(&reference("noisy"), &named, &mut vec![]));
    assert!(!is_finite_valued(&constant(f64::NAN), &named, &mut vec![]));
    assert!(!is_finite_valued(&mapped(MappedType::Invert, constant(1.0)), &named, &mut vec![]));
    let spline = DensityFunction::Spline {
        spline: CubicSpline {
            coordinate: Box::new(reference("noisy")),
            points: vec![SplinePoint {
                location: 0.0f64.to_bits(),
                derivative: 0.0f64.to_bits(),
                value: SplineValue::Constant(1.0f64.to_bits()),
            }],
        },
    };
    assert!(has_blended_noise(&spline, &named, &mut vec![]));
}

#[test]
fn reaches_combine_to_the_higher_level() {
    use_reaches(&[], BlendedReach::Absent);
    use_reaches(
        &[BlendedReach::NeutralAtOrAbove(3), BlendedReach::Absent, BlendedReach::NeutralAtOrAbove(9)],
        BlendedReach::NeutralAtOrAbove(9),
    );
    use_reaches(&[BlendedReach::SignedZeroAtOrAbove(3)], BlendedReach::Live);
    use_reaches(&[BlendedReach::NeutralAtOrAbove(3), BlendedReach::Live], BlendedReach::Live);
}

fn use_reaches(children: &[BlendedReach], expected: BlendedReach) {
    assert_eq!(combine_reach(children), expected);
}

#[test]
fn only_the_first_channel_is_followed() {
    let none = registry(vec![]);
    let follows = |function: &DensityFunction| {
        density_nonpositive_when_first_channel_nonpositive(function, &none)
    };
    let second_bounds = two(
        TwoArgType::Min,
        mapped(MappedType::Abs, interpolated(constant(0.0))),
        interpolated(constant(1.0)),
    );
    assert!(!follows(&second_bounds));
    let first_bounds = two(
        TwoArgType::Min,
        interpolated(constant(0.0)),
        mapped(MappedType::Abs, interpolated(constant(1.0))),
    );
    assert!(follows(&first_bounds));
}

#[test]
fn a_product_too_large_to_hold_is_not_finite() {
    let none = registry(vec![]);
    let finite =
        |function: &DensityFunction| is_finite_valued(function, &none, &mut vec![]);
    assert!(finite(&constant(1e200)));
    assert!(finite(&two(TwoArgType::Mul, constant(1e200), constant(2.0))));
    assert!(!finite(&two(TwoArgType::Mul, constant(1e200), constant(1e200))));
    assert!(!finite(&mapped(MappedType::Cube, constant(1e150))));
    assert!(!finite(&constant(f64::INFINITY)));
}

#[test]
fn large_values_that_stay_in_range_are_finite() {
    let none = registry(vec![]);
    let finite =
        |function: &DensityFunction| is_finite_valued(function, &none, &mut vec![]);
    let sum = |a: f64, b: f64| two(TwoArgType::Add, constant(a), constant(b));
    let product = |a: f64, b: f64| two(TwoArgType::Mul, constant(a), constant(b));
    for (a, b) in [
        (f64::MAX, -f64::MAX),
        (f64::MAX, 1.0),
        (f64::MAX, f64::MAX),
        (-f64::MAX, -f64::MAX),
        (1e308, 5e307),
        (1e308, 1e308),
        (f64::MAX, 9e291),
        (f64::MAX, 1e292),
        (f64::MIN_POSITIVE, 5e-324),
    ] {
        assert_eq!(finite(&sum(a, b)), (a + b).is_finite());
    }
    for (a, b) in [
        (1e200, 1e108),
        (1e200, 1e109),
        (-1e154, 1e154),
        (-1e155, -1e154),
        (f64::MAX, 1.0),
        (f64::MAX, -1.0),
        (f64::MAX, 1.0 + f64::EPSILON),
        (f64::MAX, 1e-300),
        (f64::MAX, 0.0),
        (5e-324, 5e-324),
    ] {
        assert_eq!(finite(&product(a, b)), (a * b).is_finite());
    }
    assert!(finite(&mapped(MappedType::Square, constant(1.3e154))));
    assert!(!finite(&mapped(MappedType::Square, constant(1.4e154))));
    assert!(finite(&mapped(MappedType::Cube, constant(-5e102))));
    assert!(!finite(&mapped(MappedType::Cube, constant(-6e102))));
    let noise = || DensityFunction::BlendedNoise;
    let mut noises = noise();
    for _ in 0..16 {
        noises = two(TwoArgType::Mul, noises, noise());
    }
    assert!(finite(&noises));
    let huge = SplinePoint {
        location: 0.0f64.to_bits(),
        derivative: 0.0f64.to_bits(),
        value: SplineValue::Constant(f64::MAX.to_bits()),
    };
    let spline = CubicSpline { coordinate: Box::new(constant(f64::MAX)), points: vec![huge] };
    assert!(spline_is_finite(&spline, &none, &mut vec![]));
    assert!(finite(&DensityFunction::Spline { spline }));
}

#[test]
fn bounds_are_the_neighbouring_values() {
    let sum = |a: f64, b: f64| {
        (
            sum_at_least(a.to_bits(), b.to_bits()).map(f64::from_bits),
            sum_at_most(a.to_bits(), b.to_bits()).map(f64::from_bits),
        )
    };
    let product = |a: f64, b: f64| {
        (
            product_at_least(a.to_bits(), b.to_bits()).map(f64::from_bits),
            product_at_most(a.to_bits(), b.to_bits()).map(f64::from_bits),
        )
    };
    let exactly = |value: f64| (Some(value), Some(value));
    assert_eq!(sum(1.5, 2.25), exactly(3.75));
    assert_eq!(sum(1.5, -2.25), exactly(-0.75));
    assert_eq!(sum(-1.5, 2.25), exactly(0.75));
    assert_eq!(sum(-1.5, -2.25), exactly(-3.75));
    assert_eq!(sum(0.0, -0.0), exactly(0.0));
    assert_eq!(sum(f64::MAX, -f64::MAX), exactly(0.0));
    assert_eq!(sum(5e-324, 5e-324), exactly(1e-323));
    assert_eq!(sum(1.0, 1e-300), (Some(1.0), Some(1.0 + f64::EPSILON)));
    assert_eq!(sum(-1e-300, 1.0), (Some(1.0 - f64::EPSILON / 2.0), Some(1.0)));
    assert_eq!(sum(1e-300, -1.0), (Some(-1.0), Some(-1.0 + f64::EPSILON / 2.0)));
    assert_eq!(sum(f64::MAX, 1.0), exactly(f64::MAX));
    assert_eq!(sum(f64::MAX, f64::MAX), (Some(f64::MAX), None));
    assert_eq!(sum(-f64::MAX, -f64::MAX), (None, Some(-f64::MAX)));
    assert_eq!(product(1.5, 2.5), exactly(3.75));
    assert_eq!(product(-1.5, 2.5), exactly(-3.75));
    assert_eq!(product(-0.0, f64::MAX), exactly(0.0));
    assert_eq!(product(5e-324, 5e-324), (Some(0.0), Some(5e-324)));
    let tiny = f64::from_bits(493 << 52);
    let more = f64::from_bits((493 << 52) + 1);
    assert_eq!(product(tiny, tiny), exactly(f64::from_bits(1 << 14)));
    assert_eq!(
        product(-tiny, more),
        (Some(-f64::from_bits((1 << 14) + 1)), Some(-f64::from_bits(1 << 14)))
    );
    assert_eq!(product(f64::MAX, 0.5), exactly(f64::MAX / 2.0));
    assert_eq!(product(f64::MAX, 2.0), (Some(f64::MAX), None));
    let mut rng = StdRng::seed_from_u64(11);
    for _ in 0..2_000 {
        let (a, b) = (any_value(&mut rng), any_value(&mut rng));
        for ((low, high), rounded) in [(sum(a, b), a + b), (product(a, b), a * b)] {
            assert_eq!(low.is_some() && high.is_some(), rounded.is_finite());
            if let (Some(low), Some(high)) = (low, high) {
                assert!(low <= rounded && rounded <= high);
                assert!(low == high || low.next_up() == high);
            }
        }
    }
}

/// A value of any size.
fn any_value(rng: &mut StdRng) -> f64 {
    loop {
        let value = f64::from_bits(rng.random_range(0..=u64::MAX));
        if value.is_finite() {
            return value;
        }
    }
}

/// An expression of constants, with its value unless a step overflows.
fn expression(rng: &mut StdRng, depth: usize) -> (DensityFunction, Option<f64>) {
    let finite = |value: f64| Some(value).filter(|value| value.is_finite());
    if depth == 0 {
        let value = any_value(rng);
        return (constant(value), Some(value));
    }
    let (first, a) = expression(rng, depth - 1);
    let choice = rng.random_range(0..9);
    if choice < 4 {
        let less = rng.random_range(0..depth);
        let (second, b) = expression(rng, less);
        let value = a.zip(b).and_then(|(a, b)| {
            finite(match choice {
                0 => a + b,
                1 => a * b,
                2 => a.min(b),
                _ => a.max(b),
            })
        });
        let op = match choice {
            0 => TwoArgType::Add,
            1 => TwoArgType::Mul,
            2 => TwoArgType::Min,
            _ => TwoArgType::Max,
        };
        return (two(op, first, second), value);
    }
    let negative = |a: f64, factor: f64| if a > 0.0 { a } else { a * factor };
    let (mapping, value) = match choice {
        4 => (MappedType::Abs, a.map(f64::abs)),
        5 => (MappedType::Square, a.and_then(|a| finite(a * a))),
        6 => (MappedType::Cube, a.and_then(|a| finite(finite(a * a)? * a))),
        7 => (MappedType::HalfNegative, a.map(|a| negative(a, 0.5))),
        _ => (MappedType::QuarterNegative, a.map(|a| negative(a, 0.25))),
    };
    (mapped(mapping, first), value)
}

#[test]
fn arithmetic_on_constants_is_finite_unless_it_overflows() {
    let none = registry(vec![]);
    let mut rng = StdRng::seed_from_u64(13);
    let mut overflowed = 0;
    for _ in 0..2_000 {
        let (function, value) = expression(&mut rng, 4);
        assert_eq!(is_finite_valued(&function, &none, &mut vec![]), value.is_some());
        overflowed += usize::from(value.is_none());
    }
    assert!((200..1_800).contains(&overflowed));
    let nothing = two(TwoArgType::Add, constant(f64::MAX), constant(-f64::MAX));
    let doubled = two(TwoArgType::Mul, nothing, constant(2.0));
    assert!(is_finite_valued(&doubled, &none, &mut vec![]));
    let clamped = |value: f64| DensityFunction::Clamp {
        input: Box::new(constant(value)),
        min: 0.0f64.to_bits(),
        max: 1e300f64.to_bits(),
    };
    for (value, finite) in [(-1.0, true), (1.0, true), (1e301, false)] {
        let function = two(TwoArgType::Mul, clamped(value), constant(1e300));
        assert_eq!(is_finite_valued(&function, &none, &mut vec![]), finite);
    }
}

#[test]
fn a_product_without_blended_noise_has_no_reach() {
    let none = registry(vec![]);
    let gradient = || DensityFunction::YClampedGradient {
        from_y: 240,
        to_y: 256,
        from_value: 1.0f64.to_bits(),
        to_value: 0.0f64.to_bits(),
    };
    let reach = |function: &DensityFunction| blended_reach(function, &none, &mut vec![]);
    assert_eq!(
        reach(&two(TwoArgType::Mul, gradient(), constant(2.0))),
        BlendedReach::Absent
    );
    assert_eq!(
        reach(&two(TwoArgType::Mul, gradient(), DensityFunction::BlendedNoise)),
        BlendedReach::SignedZeroAtOrAbove(256)
    );
}

#[test]
fn a_dropped_branch_does_not_bar_the_deep_band() {
    let rule = SurfaceRuleJson::Sequence {
        sequence: vec![
            when(SurfaceConditionJson::AbovePreliminarySurface {}, block("minecraft:stone")),
            when(
                SurfaceConditionJson::StoneDepth {
                    offset: 0,
                    add_surface_depth: false,
                    secondary_depth_range: 0,
                    surface_type: "floor".to_owned(),
                },
                when(biomes(&["minecraft:plains"]), block("minecraft:grass_block")),
            ),
        ],
    };
    let made = generate_surface_rule_function(&rule, -64, 384);
    let band = made.deep_band.expect("what reads the scan is dropped with its biome");
    assert_eq!(band.required_absent_biomes, ["minecraft:plains"]);
    assert_eq!(band.write_ceiling, i32::MIN);
    let body = made.functions.deep_body.expect("a band has a body");
    assert!(matches!(body, SurfaceCode::Empty), "nothing is left to write");
    assert!(!reads_scan_state(&body));
}
