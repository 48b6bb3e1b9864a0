//! What the static analyses of density functions promise of sampled values.

use crate::density::bounds;
use crate::density::bounds::{BlendedReach, PointReach, Spread};
use crate::density::functions;
use crate::density::functions::{
    CubicSpline, DensityFunction, DensityRegistry, MappedType, MarkerType, SplinePoint, SplineValue,
    TwoArgType,
};
use vstd::prelude::*;

verus! {

/// The value, as a bit pattern, that each subtree takes at one position.
pub type Sampling = spec_fn(DensityFunction) -> u64;

/// The subtrees under consideration.
pub type Domain = spec_fn(DensityFunction) -> bool;

/// The domain holds the operands of what it holds, and what references in it
/// resolve to.
pub open spec fn closed_domain(domain: Domain, reg: DensityRegistry) -> bool {
    forall|df: DensityFunction| #[trigger] domain(df) ==> operands_in(df, domain, reg)
}

/// The operands that the analyses descend into lie in the domain.
pub open spec fn operands_in(df: DensityFunction, domain: Domain, reg: DensityRegistry) -> bool {
    match df {
        DensityFunction::Marker { kind, wrapped } => domain(*wrapped),
        DensityFunction::BlendDensity { input } => domain(*input),
        DensityFunction::Clamp { input, min, max } => domain(*input),
        DensityFunction::Mapped { mapping, input } => domain(*input),
        DensityFunction::WeirdScaledSampler { input } => domain(*input),
        DensityFunction::ShiftedNoise { noise, shift_x, shift_y, shift_z } => domain(*shift_x)
            && domain(*shift_y) && domain(*shift_z),
        DensityFunction::RangeChoice { input, when_in_range, when_out_of_range } => domain(*input)
            && domain(*when_in_range) && domain(*when_out_of_range),
        DensityFunction::IntervalSelect { input, functions } => domain(*input) && forall|i: int|
            0 <= i < functions@.len() ==> domain(#[trigger] functions@[i]),
        DensityFunction::TwoArgumentSimple { op, argument1, argument2, nonzero1, nonzero2 } =>
            domain(*argument1) && domain(*argument2),
        DensityFunction::FindTopSurface { density, upper_bound, lower_bound } => domain(*density)
            && domain(*upper_bound),
        DensityFunction::Spline { spline } => domain(*spline.coordinate) && forall|i: int|
            0 <= i < spline.points@.len() ==> match (#[trigger] spline.points@[i]).value {
                SplineValue::Constant(v) => true,
                SplineValue::Nested(nested) => domain(DensityFunction::Spline { spline: *nested }),
            },
        DensityFunction::Reference { id } => match functions::resolved(reg@, id@) {
            Some(i) => domain(reg@[i].function),
            None => true,
        },
        _ => true,
    }
}

/// `sampled` gives the subtrees of the domain their values as the samplers
/// compute them at height `y`:
///
/// - markers, density blending and references are transparent;
/// - a gradient that slides to zero is a zero at and above its upper end;
/// - a zero times a finite value is a zero;
/// - a zero plus a finite, non-zero value is that value;
/// - leaves, and single operations on values of known spreads, stay within the
///   spreads that rounding to the nearest representable value gives them;
/// - what is flagged as finite and non-zero is.
pub open spec fn sampled_at(
    sampled: Sampling,
    domain: Domain,
    y: int,
    reg: DensityRegistry,
) -> bool {
    &&& forall|df: DensityFunction| #[trigger] domain(df) ==> transparent(df, sampled, reg)
    &&& forall|df: DensityFunction| #[trigger] domain(df) ==> arithmetic(df, sampled, y)
    &&& forall|df: DensityFunction| #[trigger] domain(df) ==> sized(df, sampled)
}

/// The value lies within the spread, if there is one.
pub open spec fn has_spread(bits: u64, spread: Option<Spread>) -> bool {
    spread is Some ==> spread->0.holds(bits)
}

/// The value is finite and its magnitude is at most so large.
pub open spec fn reaches(bits: u64, most: u64) -> bool {
    functions::finite_bits(bits) && functions::magnitude(bits) <= most
}

/// The points' data have the given reach.
pub open spec fn points_within(
    points: Seq<SplinePoint>,
    sampled: Sampling,
    reach: PointReach,
) -> bool {
    forall|i: int|
        0 <= i < points.len() ==> {
            &&& reaches((#[trigger] points[i]).location, reach.location)
            &&& reaches(points[i].derivative, reach.derivative)
            &&& reaches(point_value(points[i], sampled), reach.value)
        }
}

/// The value at a point.
pub open spec fn point_value(point: SplinePoint, sampled: Sampling) -> u64 {
    match point.value {
        SplineValue::Constant(v) => v,
        SplineValue::Nested(nested) => sampled(DensityFunction::Spline { spline: *nested }),
    }
}

/// The spread of a leaf, or of one operation's result: that of a value that is at
/// most so large, rounded to the nearest representable one.
pub open spec fn sized(df: DensityFunction, sampled: Sampling) -> bool {
    let result = sampled(df);
    let noise_spread = bounds::evenly(bounds::NOISE_MAGNITUDE);
    match df {
        DensityFunction::Constant { value } => result == value,
        DensityFunction::YClampedGradient { from_y, to_y, from_value, to_value } => from_y != to_y
            ==> has_spread(
            result,
            bounds::either_spread(
                bounds::constant_spread(from_value),
                bounds::constant_spread(to_value),
            ),
        ),
        DensityFunction::Noise { noise } => noise_spread.holds(result),
        DensityFunction::ShiftA { noise } => noise_spread.holds(result),
        DensityFunction::ShiftB { noise } => noise_spread.holds(result),
        DensityFunction::Shift { noise } => noise_spread.holds(result),
        DensityFunction::BlendedNoise => noise_spread.holds(result),
        DensityFunction::EndIslands => bounds::evenly(bounds::HUNDRED).holds(result),
        DensityFunction::BlendAlpha => bounds::evenly(bounds::ONE).holds(result),
        DensityFunction::BlendOffset => bounds::evenly(0).holds(result),
        DensityFunction::ShiftedNoise { noise, shift_x, shift_y, shift_z } => (
        functions::finite_bits(sampled(*shift_x)) && functions::finite_bits(sampled(*shift_y))
            && functions::finite_bits(sampled(*shift_z))) ==> noise_spread.holds(result),
        DensityFunction::Clamp { input, min, max } => forall|a: Spread| #[trigger]
            a.holds(sampled(*input)) ==> has_spread(result, bounds::clamped_spread(a, min, max)),
        DensityFunction::Mapped { mapping, input } => forall|a: Spread| #[trigger]
            a.holds(sampled(*input)) ==> has_spread(result, bounds::mapped_spread(mapping, a)),
        DensityFunction::TwoArgumentSimple { op, argument1, argument2, nonzero1, nonzero2 } =>
            forall|a: Spread, b: Spread| #[trigger]
            a.holds(sampled(*argument1)) && #[trigger] b.holds(sampled(*argument2)) ==> has_spread(
                result,
                bounds::two_argument_spread(op, a, b),
            ),
        DensityFunction::RangeChoice { input, when_in_range, when_out_of_range } => result
            == sampled(*when_in_range) || result == sampled(*when_out_of_range),
        DensityFunction::IntervalSelect { input, functions } => exists|i: int|
            0 <= i < functions@.len() && result == sampled(#[trigger] functions@[i]),
        DensityFunction::WeirdScaledSampler { input } => functions::finite_bits(sampled(*input))
            ==> bounds::evenly(bounds::SCALED_NOISE_MAGNITUDE).holds(result),
        DensityFunction::FindTopSurface { density, upper_bound, lower_bound } => forall|
            upper: Spread,
        | #[trigger]
            upper.holds(sampled(*upper_bound)) ==> has_spread(
                result,
                bounds::either_spread(Some(upper), Some(bounds::evenly(bounds::LEVEL_MAGNITUDE))),
            ),
        DensityFunction::Spline { spline } => forall|c: Spread, reach: PointReach|
            #![trigger c.holds(sampled(*spline.coordinate)), points_within(spline.points@, sampled, reach)]
            c.holds(sampled(*spline.coordinate)) && points_within(spline.points@, sampled, reach)
                && bounds::increasing_locations(spline.points@) ==> bounds::cubic_spread(
                c,
                reach,
            ).holds(result),
        _ => true,
    }
}

/// Nodes that pass a value through.
pub open spec fn transparent(df: DensityFunction, sampled: Sampling, reg: DensityRegistry) -> bool {
    match df {
        DensityFunction::Marker { kind, wrapped } => sampled(df) == sampled(*wrapped),
        DensityFunction::BlendDensity { input } => sampled(df) == sampled(*input),
        DensityFunction::Reference { id } => match functions::resolved(reg@, id@) {
            Some(i) => sampled(df) == sampled(reg@[i].function),
            None => true,
        },
        _ => true,
    }
}

/// A finite value other than zero.
pub open spec fn nonzero_finite(bits: u64) -> bool {
    functions::finite_bits(bits) && !functions::zero_bits(bits)
}

/// Nodes whose arithmetic at zero matters.
pub open spec fn arithmetic(df: DensityFunction, sampled: Sampling, y: int) -> bool {
    match df {
        DensityFunction::YClampedGradient { from_y, to_y, from_value, to_value } => (
        functions::zero_bits(to_value) && from_y < to_y && functions::finite_bits(from_value) && y
            >= to_y) ==> functions::zero_bits(sampled(df)),
        DensityFunction::TwoArgumentSimple { op, argument1, argument2, nonzero1, nonzero2 } => {
            let a = sampled(*argument1);
            let b = sampled(*argument2);
            &&& nonzero1 ==> nonzero_finite(a)
            &&& nonzero2 ==> nonzero_finite(b)
            &&& op == TwoArgType::Mul ==> {
                &&& functions::zero_bits(a) && functions::finite_bits(b) ==> functions::zero_bits(
                    sampled(df),
                )
                &&& functions::zero_bits(b) && functions::finite_bits(a) ==> functions::zero_bits(
                    sampled(df),
                )
            }
            &&& op == TwoArgType::Add ==> {
                &&& functions::zero_bits(a) && nonzero_finite(b) ==> sampled(df) == b
                &&& functions::zero_bits(b) && nonzero_finite(a) ==> sampled(df) == a
            }
        },
        _ => true,
    }
}

/// Two samplings at one position that differ at most through the value of the
/// blended noise: every other node is a function of its operands, and a subtree
/// without blended noise has one value.
pub open spec fn differ_in_blended_noise(
    one: Sampling,
    other: Sampling,
    reg: DensityRegistry,
) -> bool {
    &&& forall|df: DensityFunction| #[trigger]
        one(df) == one(df) && operands_agree(df, one, other) ==> one(df) == other(df)
    &&& forall|df: DensityFunction| #[trigger]
        one(df) == one(df) && !bounds::holds_blended(df, reg, Seq::empty()) ==> one(df) == other(df)
}

/// The operands of a node (other than a leaf of blended noise, a spline, a
/// top-surface search or a reference) have the same values.
pub open spec fn operands_agree(df: DensityFunction, one: Sampling, other: Sampling) -> bool {
    match df {
        DensityFunction::Constant { value } => true,
        DensityFunction::YClampedGradient { from_y, to_y, from_value, to_value } => true,
        DensityFunction::Noise { noise } => true,
        DensityFunction::ShiftA { noise } => true,
        DensityFunction::ShiftB { noise } => true,
        DensityFunction::Shift { noise } => true,
        DensityFunction::EndIslands => true,
        DensityFunction::BlendAlpha => true,
        DensityFunction::BlendOffset => true,
        DensityFunction::Marker { kind, wrapped } => one(*wrapped) == other(*wrapped),
        DensityFunction::BlendDensity { input } => one(*input) == other(*input),
        DensityFunction::Clamp { input, min, max } => one(*input) == other(*input),
        DensityFunction::Mapped { mapping, input } => one(*input) == other(*input),
        DensityFunction::WeirdScaledSampler { input } => one(*input) == other(*input),
        DensityFunction::ShiftedNoise { noise, shift_x, shift_y, shift_z } => one(*shift_x)
            == other(*shift_x) && one(*shift_y) == other(*shift_y) && one(*shift_z) == other(
            *shift_z,
        ),
        DensityFunction::RangeChoice { input, when_in_range, when_out_of_range } => one(*input)
            == other(*input) && one(*when_in_range) == other(*when_in_range) && one(
            *when_out_of_range,
        ) == other(*when_out_of_range),
        DensityFunction::IntervalSelect { input, functions } => one(*input) == other(*input)
            && forall|i: int|
            0 <= i < functions@.len() ==> one(#[trigger] functions@[i]) == other(functions@[i]),
        DensityFunction::TwoArgumentSimple { op, argument1, argument2, nonzero1, nonzero2 } => one(
            *argument1,
        ) == other(*argument1) && one(*argument2) == other(*argument2),
        _ => false,
    }
}

/// What a reach claims of two samplings at height `y`.
pub open spec fn claimed(reach: BlendedReach, a: u64, b: u64, y: int) -> bool {
    match reach {
        BlendedReach::Absent => a == b,
        BlendedReach::NeutralAtOrAbove(level) => y >= level ==> a == b,
        BlendedReach::SignedZeroAtOrAbove(level) => y >= level ==> functions::zero_bits(a)
            && functions::zero_bits(b),
        BlendedReach::Live => true,
    }
}

proof fn lemma_constant_spread(bits: u64)
    ensures
        has_spread(bits, bounds::constant_spread(bits)),
{
}

/// A value within one of two spreads lies within that of either.
proof fn lemma_either_spread(bits: u64, a: Option<Spread>, b: Option<Spread>)
    requires
        bounds::either_spread(a, b) is Some,
        a->0.holds(bits) || b->0.holds(bits),
    ensures
        bounds::either_spread(a, b)->0.holds(bits),
{
}

proof fn lemma_list_within(
    list: Seq<DensityFunction>,
    reg: DensityRegistry,
    visiting: Seq<usize>,
    n: nat,
    sampled: Sampling,
    domain: Domain,
    y: int,
)
    requires
        closed_domain(domain, reg),
        forall|i: int| 0 <= i < n ==> domain(#[trigger] list[i]),
        sampled_at(sampled, domain, y, reg),
        n <= list.len(),
        bounds::list_spread(list, reg, visiting, n) is Some,
    ensures
        forall|i: int|
            0 <= i < n ==> bounds::list_spread(list, reg, visiting, n)->0.holds(
                sampled(#[trigger] list[i]),
            ),
    decreases functions::unvisited(visiting, reg@.len()), list, n,
{
    if n > 0 {
        let before = bounds::list_spread(list, reg, visiting, (n - 1) as nat);
        let last = bounds::spread_of(list[n - 1], reg, visiting);
        lemma_list_within(list, reg, visiting, (n - 1) as nat, sampled, domain, y);
        an_accepted_value_lies_within_its_spread(list[n - 1], reg, visiting, sampled, domain, y);
        assert forall|i: int| 0 <= i < n implies bounds::list_spread(
            list,
            reg,
            visiting,
            n,
        )->0.holds(sampled(#[trigger] list[i])) by {
            if n > 1 {
                lemma_either_spread(sampled(list[i]), before, last);
            }
        }
    }
}

/// A value within a spread is no larger than the spread reaches.
proof fn lemma_reach(bits: u64, spread: Spread)
    requires
        spread.holds(bits),
    ensures
        reaches(bits, spread.reach()),
{
}

/// One point more widens the reach by its own data.
proof fn lemma_point_added(
    points: Seq<SplinePoint>,
    n: nat,
    sampled: Sampling,
    before: PointReach,
    location: Spread,
    derivative: Spread,
    value: Spread,
)
    requires
        1 <= n <= points.len(),
        points_within(points.subrange(0, n - 1), sampled, before),
        location.holds(points[n - 1].location),
        derivative.holds(points[n - 1].derivative),
        value.holds(point_value(points[n - 1], sampled)),
    ensures
        points_within(
            points.subrange(0, n as int),
            sampled,
            before.with(location, derivative, value),
        ),
{
    let all = before.with(location, derivative, value);
    let last = points[n - 1];
    lemma_reach(last.location, location);
    lemma_reach(last.derivative, derivative);
    lemma_reach(point_value(last, sampled), value);
    let shorter = points.subrange(0, n - 1);
    let longer = points.subrange(0, n as int);
    assert forall|i: int| 0 <= i < longer.len() implies {
        &&& reaches((#[trigger] longer[i]).location, all.location)
        &&& reaches(longer[i].derivative, all.derivative)
        &&& reaches(point_value(longer[i], sampled), all.value)
    } by {
        if i < n - 1 {
            assert(longer[i] == shorter[i]);
            assert(reaches(shorter[i].location, before.location));
        } else {
            assert(longer[i] == last);
        }
    }
}

proof fn lemma_points_within(
    points: Seq<SplinePoint>,
    reg: DensityRegistry,
    visiting: Seq<usize>,
    n: nat,
    sampled: Sampling,
    domain: Domain,
    y: int,
)
    requires
        closed_domain(domain, reg),
        forall|i: int|
            0 <= i < n ==> match (#[trigger] points[i]).value {
                SplineValue::Constant(v) => true,
                SplineValue::Nested(nested) => domain(DensityFunction::Spline { spline: *nested }),
            },
        sampled_at(sampled, domain, y, reg),
        n <= points.len(),
        bounds::point_reach(points, reg, visiting, n) is Some,
    ensures
        points_within(
            points.subrange(0, n as int),
            sampled,
            bounds::point_reach(points, reg, visiting, n)->0,
        ),
    decreases functions::unvisited(visiting, reg@.len()), points, n,
{
    if n > 0 {
        let before = bounds::point_reach(points, reg, visiting, (n - 1) as nat);
        let last = points[n - 1];
        assert(before is Some);
        lemma_points_within(points, reg, visiting, (n - 1) as nat, sampled, domain, y);
        lemma_constant_spread(last.location);
        lemma_constant_spread(last.derivative);
        let location = bounds::constant_spread(last.location)->0;
        let derivative = bounds::constant_spread(last.derivative)->0;
        match last.value {
            SplineValue::Constant(v) => {
                lemma_constant_spread(v);
                let value = bounds::constant_spread(v)->0;
                lemma_point_added(points, n, sampled, before->0, location, derivative, value);
            },
            SplineValue::Nested(nested) => {
                assert(decreases_to!(points => points[n - 1]));
                assert(decreases_to!(points[n - 1] => points[n - 1].value));
                assert(decreases_to!(points => *nested));
                lemma_spline_within(*nested, reg, visiting, sampled, domain, y);
                let value = bounds::spline_spread(*nested, reg, visiting)->0;
                lemma_point_added(points, n, sampled, before->0, location, derivative, value);
            },
        }
    }
}

proof fn lemma_spline_within(
    spline: CubicSpline,
    reg: DensityRegistry,
    visiting: Seq<usize>,
    sampled: Sampling,
    domain: Domain,
    y: int,
)
    requires
        closed_domain(domain, reg),
        domain(DensityFunction::Spline { spline }),
        sampled_at(sampled, domain, y, reg),
    ensures
        has_spread(
            sampled(DensityFunction::Spline { spline }),
            bounds::spline_spread(spline, reg, visiting),
        ),
    decreases functions::unvisited(visiting, reg@.len()), spline, 0nat,
{
    let df = DensityFunction::Spline { spline };
    if bounds::spline_spread(spline, reg, visiting) is Some {
        assert(operands_in(df, domain, reg));
        an_accepted_value_lies_within_its_spread(
            *spline.coordinate,
            reg,
            visiting,
            sampled,
            domain,
            y,
        );
        lemma_points_within(
            spline.points@,
            reg,
            visiting,
            spline.points@.len(),
            sampled,
            domain,
            y,
        );
        assert(spline.points@.subrange(0, spline.points@.len() as int) =~= spline.points@);
        assert(sized(df, sampled));
    }
}

/// Where the finiteness analysis finds a spread, the value is finite and lies
/// within it.
pub proof fn an_accepted_value_lies_within_its_spread(
    df: DensityFunction,
    reg: DensityRegistry,
    visiting: Seq<usize>,
    sampled: Sampling,
    domain: Domain,
    y: int,
)
    requires
        closed_domain(domain, reg),
        domain(df),
        sampled_at(sampled, domain, y, reg),
    ensures
        has_spread(sampled(df), bounds::spread_of(df, reg, visiting)),
        bounds::spread_of(df, reg, visiting) is Some ==> functions::finite_bits(sampled(df)),
    decreases functions::unvisited(visiting, reg@.len()), df, 0nat,
{
    assert(operands_in(df, domain, reg));
    assert(transparent(df, sampled, reg));
    assert(sized(df, sampled));
    match df {
        DensityFunction::Constant { value } => {
            lemma_constant_spread(value);
        },
        DensityFunction::ShiftedNoise { noise, shift_x, shift_y, shift_z } => {
            an_accepted_value_lies_within_its_spread(*shift_x, reg, visiting, sampled, domain, y);
            an_accepted_value_lies_within_its_spread(*shift_y, reg, visiting, sampled, domain, y);
            an_accepted_value_lies_within_its_spread(*shift_z, reg, visiting, sampled, domain, y);
        },
        DensityFunction::Marker { kind, wrapped } => {
            an_accepted_value_lies_within_its_spread(*wrapped, reg, visiting, sampled, domain, y);
        },
        DensityFunction::BlendDensity { input } => {
            an_accepted_value_lies_within_its_spread(*input, reg, visiting, sampled, domain, y);
        },
        DensityFunction::Clamp { input, min, max } => {
            an_accepted_value_lies_within_its_spread(*input, reg, visiting, sampled, domain, y);
        },
        DensityFunction::Mapped { mapping, input } => {
            an_accepted_value_lies_within_its_spread(*input, reg, visiting, sampled, domain, y);
        },
        DensityFunction::WeirdScaledSampler { input } => {
            an_accepted_value_lies_within_its_spread(*input, reg, visiting, sampled, domain, y);
        },
        DensityFunction::TwoArgumentSimple { op, argument1, argument2, nonzero1, nonzero2 } => {
            an_accepted_value_lies_within_its_spread(*argument1, reg, visiting, sampled, domain, y);
            an_accepted_value_lies_within_its_spread(*argument2, reg, visiting, sampled, domain, y);
        },
        DensityFunction::RangeChoice { input, when_in_range, when_out_of_range } => {
            an_accepted_value_lies_within_its_spread(*when_in_range, reg, visiting, sampled, domain, y);
            an_accepted_value_lies_within_its_spread(*when_out_of_range, reg, visiting, sampled, domain, y);
        },
        DensityFunction::IntervalSelect { input, functions } => {
            if bounds::list_spread(functions@, reg, visiting, functions@.len()) is Some {
                lemma_list_within(
                    functions@,
                    reg,
                    visiting,
                    functions@.len(),
                    sampled,
                    domain,
                    y,
                );
            }
        },
        DensityFunction::FindTopSurface { density, upper_bound, lower_bound } => {
            an_accepted_value_lies_within_its_spread(*upper_bound, reg, visiting, sampled, domain, y);
        },
        DensityFunction::Spline { spline } => {
            lemma_spline_within(spline, reg, visiting, sampled, domain, y);
        },
        DensityFunction::Reference { id } => {
            if let Some(i) = functions::resolved(reg@, id@) {
                if !visiting.contains(i as usize) {
                    bounds::lemma_descend(reg, visiting, id@);
                    an_accepted_value_lies_within_its_spread(
                        reg@[i].function,
                        reg,
                        visiting.push(i as usize),
                        sampled,
                        domain,
                        y,
                    );
                }
            }
        },
        _ => {},
    }
}

/// A subtree that is shown to be a gradient slid down to zero is a zero at and
/// above the shown level.
pub proof fn a_zeroing_gradient_is_zero_from_its_level(
    df: DensityFunction,
    reg: DensityRegistry,
    visiting: Seq<usize>,
    sampled: Sampling,
    domain: Domain,
    y: int,
)
    requires
        closed_domain(domain, reg),
        domain(df),
        sampled_at(sampled, domain, y, reg),
        bounds::zeroing_level(df, reg, visiting) is Some,
        y >= bounds::zeroing_level(df, reg, visiting)->0,
    ensures
        functions::zero_bits(sampled(df)),
    decreases functions::unvisited(visiting, reg@.len()), df,
{
    match df {
        DensityFunction::Marker { kind, wrapped } => {
            a_zeroing_gradient_is_zero_from_its_level(*wrapped, reg, visiting, sampled, domain, y);
        },
        DensityFunction::Reference { id } => {
            let i = functions::resolved(reg@, id@)->0;
            bounds::lemma_descend(reg, visiting, id@);
            a_zeroing_gradient_is_zero_from_its_level(
                reg@[i].function,
                reg,
                visiting.push(i as usize),
                sampled,
                domain,
                y,
            );
        },
        _ => {},
    }
}

proof fn lemma_list_reach(
    acc: BlendedReach,
    list: Seq<DensityFunction>,
    reg: DensityRegistry,
    visiting: Seq<usize>,
    n: nat,
    one: Sampling,
    other: Sampling,
    domain: Domain,
    y: int,
)
    requires
        closed_domain(domain, reg),
        forall|i: int| 0 <= i < n ==> domain(#[trigger] list[i]),
        sampled_at(one, domain, y, reg),
        sampled_at(other, domain, y, reg),
        differ_in_blended_noise(one, other, reg),
        n <= list.len(),
        bounds::settled(bounds::reach_of_list(acc, list, reg, visiting, n)),
        bounds::reach_of_list(acc, list, reg, visiting, n) is NeutralAtOrAbove ==> y
            >= bounds::reach_of_list(acc, list, reg, visiting, n)->NeutralAtOrAbove_0,
    ensures
        bounds::settled(acc),
        acc is NeutralAtOrAbove ==> y >= acc->NeutralAtOrAbove_0,
        forall|i: int| 0 <= i < n ==> one(#[trigger] list[i]) == other(list[i]),
    decreases functions::unvisited(visiting, reg@.len()), list, n,
{
    if n > 0 {
        lemma_list_reach(acc, list, reg, visiting, (n - 1) as nat, one, other, domain, y);
        blended_reach_claims_hold(list[n - 1], reg, visiting, one, other, domain, y);
    }
}

/// What the reach analysis says of a subtree holds of its values: whatever the
/// blended noise is, the value is the same (absent, or neutral at and above a
/// level), or a zero of either sign (at and above a level).
pub proof fn blended_reach_claims_hold(
    df: DensityFunction,
    reg: DensityRegistry,
    visiting: Seq<usize>,
    one: Sampling,
    other: Sampling,
    domain: Domain,
    y: int,
)
    requires
        closed_domain(domain, reg),
        domain(df),
        sampled_at(one, domain, y, reg),
        sampled_at(other, domain, y, reg),
        differ_in_blended_noise(one, other, reg),
    ensures
        claimed(bounds::reach_of(df, reg, visiting), one(df), other(df), y),
    decreases functions::unvisited(visiting, reg@.len()), df, 0nat,
{
    assert(one(df) == one(df));
    assert(domain(df));
    match df {
        DensityFunction::Marker { kind, wrapped } => {
            blended_reach_claims_hold(*wrapped, reg, visiting, one, other, domain, y);
        },
        DensityFunction::BlendDensity { input } => {
            blended_reach_claims_hold(*input, reg, visiting, one, other, domain, y);
        },
        DensityFunction::Clamp { input, min, max } => {
            blended_reach_claims_hold(*input, reg, visiting, one, other, domain, y);
        },
        DensityFunction::Mapped { mapping, input } => {
            blended_reach_claims_hold(*input, reg, visiting, one, other, domain, y);
        },
        DensityFunction::WeirdScaledSampler { input } => {
            blended_reach_claims_hold(*input, reg, visiting, one, other, domain, y);
        },
        DensityFunction::ShiftedNoise { noise, shift_x, shift_y, shift_z } => {
            blended_reach_claims_hold(*shift_x, reg, visiting, one, other, domain, y);
            blended_reach_claims_hold(*shift_y, reg, visiting, one, other, domain, y);
            blended_reach_claims_hold(*shift_z, reg, visiting, one, other, domain, y);
        },
        DensityFunction::RangeChoice { input, when_in_range, when_out_of_range } => {
            blended_reach_claims_hold(*input, reg, visiting, one, other, domain, y);
            blended_reach_claims_hold(*when_in_range, reg, visiting, one, other, domain, y);
            blended_reach_claims_hold(*when_out_of_range, reg, visiting, one, other, domain, y);
        },
        DensityFunction::IntervalSelect { input, functions } => {
            blended_reach_claims_hold(*input, reg, visiting, one, other, domain, y);
            let acc = bounds::combined(
                BlendedReach::Absent,
                bounds::reach_of(*input, reg, visiting),
            );
            let reach = bounds::reach_of_list(
                acc,
                functions@,
                reg,
                visiting,
                functions@.len(),
            );
            if bounds::settled(reach) && (reach is NeutralAtOrAbove ==> y
                >= reach->NeutralAtOrAbove_0) {
                lemma_list_reach(
                    acc,
                    functions@,
                    reg,
                    visiting,
                    functions@.len(),
                    one,
                    other,
                    domain,
                    y,
                );
                assert(operands_agree(df, one, other));
            } else {
                lemma_list_never_signed(acc, functions@, reg, visiting, functions@.len());
            }
        },
        DensityFunction::TwoArgumentSimple { op, argument1, argument2, nonzero1, nonzero2 } => {
            blended_reach_claims_hold(*argument1, reg, visiting, one, other, domain, y);
            blended_reach_claims_hold(*argument2, reg, visiting, one, other, domain, y);
            if op == TwoArgType::Mul {
                let level1 = bounds::zeroing_level(*argument1, reg, visiting);
                let level2 = bounds::zeroing_level(*argument2, reg, visiting);
                if level1 is Some && y >= level1->0 {
                    a_zeroing_gradient_is_zero_from_its_level(*argument1, reg, visiting, one, domain, y);
                    a_zeroing_gradient_is_zero_from_its_level(*argument1, reg, visiting, other, domain, y);
                }
                if level2 is Some && y >= level2->0 {
                    a_zeroing_gradient_is_zero_from_its_level(*argument2, reg, visiting, one, domain, y);
                    a_zeroing_gradient_is_zero_from_its_level(*argument2, reg, visiting, other, domain, y);
                }
                an_accepted_value_lies_within_its_spread(*argument1, reg, visiting, one, domain, y);
                an_accepted_value_lies_within_its_spread(*argument1, reg, visiting, other, domain, y);
                an_accepted_value_lies_within_its_spread(*argument2, reg, visiting, one, domain, y);
                an_accepted_value_lies_within_its_spread(*argument2, reg, visiting, other, domain, y);
            }
        },
        DensityFunction::Reference { id } => {
            if let Some(i) = functions::resolved(reg@, id@) {
                if !visiting.contains(i as usize) {
                    bounds::lemma_descend(reg, visiting, id@);
                    blended_reach_claims_hold(
                        reg@[i].function,
                        reg,
                        visiting.push(i as usize),
                        one,
                        other,
                        domain,
                        y,
                    );
                }
            }
        },
        _ => {},
    }
}

/// Every reference in the subtree resolves, and none leads back to itself.
pub open spec fn settles(df: DensityFunction, reg: DensityRegistry, visiting: Seq<usize>) -> bool
    decreases functions::unvisited(visiting, reg@.len()), df, 0nat,
{
    match df {
        DensityFunction::ShiftedNoise { noise, shift_x, shift_y, shift_z } => settles(
            *shift_x,
            reg,
            visiting,
        ) && settles(*shift_y, reg, visiting) && settles(*shift_z, reg, visiting),
        DensityFunction::Marker { kind, wrapped } => settles(*wrapped, reg, visiting),
        DensityFunction::BlendDensity { input } => settles(*input, reg, visiting),
        DensityFunction::Clamp { input, min, max } => settles(*input, reg, visiting),
        DensityFunction::Mapped { mapping, input } => settles(*input, reg, visiting),
        DensityFunction::WeirdScaledSampler { input } => settles(*input, reg, visiting),
        DensityFunction::TwoArgumentSimple { op, argument1, argument2, nonzero1, nonzero2 } =>
            settles(*argument1, reg, visiting) && settles(*argument2, reg, visiting),
        DensityFunction::RangeChoice { input, when_in_range, when_out_of_range } => settles(
            *input,
            reg,
            visiting,
        ) && settles(*when_in_range, reg, visiting) && settles(*when_out_of_range, reg, visiting),
        DensityFunction::IntervalSelect { input, functions } => settles(*input, reg, visiting)
            && list_settles(functions@, reg, visiting, functions@.len()),
        DensityFunction::FindTopSurface { density, upper_bound, lower_bound } => settles(
            *density,
            reg,
            visiting,
        ) && settles(*upper_bound, reg, visiting),
        DensityFunction::Spline { spline } => spline_settles(spline, reg, visiting),
        DensityFunction::Reference { id } => match functions::resolved(reg@, id@) {
            Some(i) => if visiting.contains(i as usize) {
                false
            } else {
                proof {
                    bounds::lemma_descend(reg, visiting, id@);
                }
                settles(reg@[i].function, reg, visiting.push(i as usize))
            },
            None => false,
        },
        _ => true,
    }
}

/// The first `n` functions settle.
pub open spec fn list_settles(
    list: Seq<DensityFunction>,
    reg: DensityRegistry,
    visiting: Seq<usize>,
    n: nat,
) -> bool
    decreases functions::unvisited(visiting, reg@.len()), list, n,
{
    n == 0 || n > list.len() || (list_settles(list, reg, visiting, (n - 1) as nat) && settles(
        list[n - 1],
        reg,
        visiting,
    ))
}

/// The coordinates of a spline and of nested ones settle.
pub open spec fn spline_settles(
    spline: CubicSpline,
    reg: DensityRegistry,
    visiting: Seq<usize>,
) -> bool
    decreases functions::unvisited(visiting, reg@.len()), spline, 0nat,
{
    settles(*spline.coordinate, reg, visiting) && points_settle(
        spline.points@,
        reg,
        visiting,
        spline.points@.len(),
    )
}

/// What the first `n` points nest settles.
pub open spec fn points_settle(
    points: Seq<SplinePoint>,
    reg: DensityRegistry,
    visiting: Seq<usize>,
    n: nat,
) -> bool
    decreases functions::unvisited(visiting, reg@.len()), points, n,
{
    n == 0 || n > points.len() || (points_settle(points, reg, visiting, (n - 1) as nat)
        && match points[n - 1].value {
        SplineValue::Constant(v) => true,
        SplineValue::Nested(nested) => spline_settles(*nested, reg, visiting),
    })
}

/// What `fewer` holds, `more` holds too.
pub open spec fn among(fewer: Seq<usize>, more: Seq<usize>) -> bool {
    forall|k: int| 0 <= k < fewer.len() ==> more.contains(#[trigger] fewer[k])
}

proof fn lemma_among_pushed(fewer: Seq<usize>, more: Seq<usize>, entry: usize)
    requires
        among(fewer, more),
    ensures
        among(fewer.push(entry), more.push(entry)),
        !more.contains(entry) ==> !fewer.contains(entry),
{
    let longer = more.push(entry);
    assert forall|k: int| 0 <= k < fewer.push(entry).len() implies longer.contains(
        #[trigger] fewer.push(entry)[k],
    ) by {
        if k < fewer.len() {
            let j = choose|j: int| 0 <= j < more.len() && more[j] == fewer[k];
            assert(longer[j] == fewer[k]);
        } else {
            assert(longer[more.len() as int] == entry);
        }
    }
}

/// In a subtree that settles, what is being visited does not matter.
proof fn lemma_visited_does_not_matter(
    df: DensityFunction,
    reg: DensityRegistry,
    more: Seq<usize>,
    fewer: Seq<usize>,
)
    requires
        among(fewer, more),
        settles(df, reg, more),
    ensures
        settles(df, reg, fewer),
        bounds::holds_blended(df, reg, more) == bounds::holds_blended(df, reg, fewer),
    decreases functions::unvisited(more, reg@.len()), df, 0nat,
{
    match df {
        DensityFunction::ShiftedNoise { noise, shift_x, shift_y, shift_z } => {
            lemma_visited_does_not_matter(*shift_x, reg, more, fewer);
            lemma_visited_does_not_matter(*shift_y, reg, more, fewer);
            lemma_visited_does_not_matter(*shift_z, reg, more, fewer);
        },
        DensityFunction::Marker { kind, wrapped } => {
            lemma_visited_does_not_matter(*wrapped, reg, more, fewer);
        },
        DensityFunction::BlendDensity { input } => {
            lemma_visited_does_not_matter(*input, reg, more, fewer);
        },
        DensityFunction::Clamp { input, min, max } => {
            lemma_visited_does_not_matter(*input, reg, more, fewer);
        },
        DensityFunction::Mapped { mapping, input } => {
            lemma_visited_does_not_matter(*input, reg, more, fewer);
        },
        DensityFunction::WeirdScaledSampler { input } => {
            lemma_visited_does_not_matter(*input, reg, more, fewer);
        },
        DensityFunction::TwoArgumentSimple { op, argument1, argument2, nonzero1, nonzero2 } => {
            lemma_visited_does_not_matter(*argument1, reg, more, fewer);
            lemma_visited_does_not_matter(*argument2, reg, more, fewer);
        },
        DensityFunction::RangeChoice { input, when_in_range, when_out_of_range } => {
            lemma_visited_does_not_matter(*input, reg, more, fewer);
            lemma_visited_does_not_matter(*when_in_range, reg, more, fewer);
            lemma_visited_does_not_matter(*when_out_of_range, reg, more, fewer);
        },
        DensityFunction::IntervalSelect { input, functions } => {
            lemma_visited_does_not_matter(*input, reg, more, fewer);
            lemma_visited_does_not_matter_to_lists(functions@, reg, more, fewer, functions@.len());
        },
        DensityFunction::FindTopSurface { density, upper_bound, lower_bound } => {
            lemma_visited_does_not_matter(*density, reg, more, fewer);
            lemma_visited_does_not_matter(*upper_bound, reg, more, fewer);
        },
        DensityFunction::Spline { spline } => {
            lemma_visited_does_not_matter_to_splines(spline, reg, more, fewer);
        },
        DensityFunction::Reference { id } => {
            let i = functions::resolved(reg@, id@)->0;
            bounds::lemma_descend(reg, more, id@);
            lemma_among_pushed(fewer, more, i as usize);
            lemma_visited_does_not_matter(
                reg@[i].function,
                reg,
                more.push(i as usize),
                fewer.push(i as usize),
            );
        },
        _ => {},
    }
}

proof fn lemma_visited_does_not_matter_to_lists(
    list: Seq<DensityFunction>,
    reg: DensityRegistry,
    more: Seq<usize>,
    fewer: Seq<usize>,
    n: nat,
)
    requires
        among(fewer, more),
        list_settles(list, reg, more, n),
        n <= list.len(),
    ensures
        list_settles(list, reg, fewer, n),
        bounds::any_blended(list, reg, more, n) == bounds::any_blended(list, reg, fewer, n),
    decreases functions::unvisited(more, reg@.len()), list, n,
{
    if n > 0 {
        lemma_visited_does_not_matter_to_lists(list, reg, more, fewer, (n - 1) as nat);
        lemma_visited_does_not_matter(list[n - 1], reg, more, fewer);
    }
}

proof fn lemma_visited_does_not_matter_to_splines(
    spline: CubicSpline,
    reg: DensityRegistry,
    more: Seq<usize>,
    fewer: Seq<usize>,
)
    requires
        among(fewer, more),
        spline_settles(spline, reg, more),
    ensures
        spline_settles(spline, reg, fewer),
        bounds::spline_blended(spline, reg, more) == bounds::spline_blended(spline, reg, fewer),
    decreases functions::unvisited(more, reg@.len()), spline, 0nat,
{
    lemma_visited_does_not_matter(*spline.coordinate, reg, more, fewer);
    lemma_visited_does_not_matter_to_points(
        spline.points@,
        reg,
        more,
        fewer,
        spline.points@.len(),
    );
}

proof fn lemma_visited_does_not_matter_to_points(
    points: Seq<SplinePoint>,
    reg: DensityRegistry,
    more: Seq<usize>,
    fewer: Seq<usize>,
    n: nat,
)
    requires
        among(fewer, more),
        points_settle(points, reg, more, n),
        n <= points.len(),
    ensures
        points_settle(points, reg, fewer, n),
        bounds::points_blended(points, reg, more, n) == bounds::points_blended(
            points,
            reg,
            fewer,
            n,
        ),
    decreases functions::unvisited(more, reg@.len()), points, n,
{
    if n > 0 {
        lemma_visited_does_not_matter_to_points(points, reg, more, fewer, (n - 1) as nat);
        if let SplineValue::Nested(nested) = points[n - 1].value {
            assert(decreases_to!(points => points[n - 1]));
            assert(decreases_to!(points[n - 1] => points[n - 1].value));
            assert(decreases_to!(points => *nested));
            lemma_visited_does_not_matter_to_splines(*nested, reg, more, fewer);
        }
    }
}

proof fn lemma_list_absent(
    acc: BlendedReach,
    list: Seq<DensityFunction>,
    reg: DensityRegistry,
    visiting: Seq<usize>,
    n: nat,
)
    requires
        n <= list.len(),
        list_settles(list, reg, visiting, n),
    ensures
        bounds::reach_of_list(acc, list, reg, visiting, n) is Absent <==> acc is Absent
            && !bounds::any_blended(list, reg, visiting, n),
    decreases functions::unvisited(visiting, reg@.len()), list, n,
{
    if n > 0 {
        lemma_list_absent(acc, list, reg, visiting, (n - 1) as nat);
        blended_noise_is_absent_where_none_occurs(list[n - 1], reg, visiting);
    }
}

/// The reach is absent exactly where no blended noise occurs in the subtree.
/// A reference that does not resolve, or leads back to itself, proves nothing
/// either way, so every reference has to settle.
pub proof fn blended_noise_is_absent_where_none_occurs(
    df: DensityFunction,
    reg: DensityRegistry,
    visiting: Seq<usize>,
)
    requires
        settles(df, reg, visiting),
    ensures
        bounds::reach_of(df, reg, visiting) is Absent <==> !bounds::holds_blended(
            df,
            reg,
            visiting,
        ),
    decreases functions::unvisited(visiting, reg@.len()), df, 0nat,
{
    match df {
        DensityFunction::ShiftedNoise { noise, shift_x, shift_y, shift_z } => {
            blended_noise_is_absent_where_none_occurs(*shift_x, reg, visiting);
            blended_noise_is_absent_where_none_occurs(*shift_y, reg, visiting);
            blended_noise_is_absent_where_none_occurs(*shift_z, reg, visiting);
        },
        DensityFunction::Marker { kind, wrapped } => {
            blended_noise_is_absent_where_none_occurs(*wrapped, reg, visiting);
        },
        DensityFunction::BlendDensity { input } => {
            blended_noise_is_absent_where_none_occurs(*input, reg, visiting);
        },
        DensityFunction::Clamp { input, min, max } => {
            blended_noise_is_absent_where_none_occurs(*input, reg, visiting);
        },
        DensityFunction::Mapped { mapping, input } => {
            blended_noise_is_absent_where_none_occurs(*input, reg, visiting);
        },
        DensityFunction::WeirdScaledSampler { input } => {
            blended_noise_is_absent_where_none_occurs(*input, reg, visiting);
        },
        DensityFunction::TwoArgumentSimple { op, argument1, argument2, nonzero1, nonzero2 } => {
            blended_noise_is_absent_where_none_occurs(*argument1, reg, visiting);
            blended_noise_is_absent_where_none_occurs(*argument2, reg, visiting);
        },
        DensityFunction::RangeChoice { input, when_in_range, when_out_of_range } => {
            blended_noise_is_absent_where_none_occurs(*input, reg, visiting);
            blended_noise_is_absent_where_none_occurs(*when_in_range, reg, visiting);
            blended_noise_is_absent_where_none_occurs(*when_out_of_range, reg, visiting);
        },
        DensityFunction::IntervalSelect { input, functions } => {
            blended_noise_is_absent_where_none_occurs(*input, reg, visiting);
            lemma_list_absent(
                bounds::combined(BlendedReach::Absent, bounds::reach_of(*input, reg, visiting)),
                functions@,
                reg,
                visiting,
                functions@.len(),
            );
        },
        DensityFunction::FindTopSurface { density, upper_bound, lower_bound } => {
            lemma_visited_does_not_matter(*density, reg, visiting, Seq::empty());
            lemma_visited_does_not_matter(*upper_bound, reg, visiting, Seq::empty());
        },
        DensityFunction::Spline { spline } => {
            lemma_visited_does_not_matter_to_splines(spline, reg, visiting, Seq::empty());
        },
        DensityFunction::Reference { id } => {
            let i = functions::resolved(reg@, id@)->0;
            bounds::lemma_descend(reg, visiting, id@);
            blended_noise_is_absent_where_none_occurs(
                reg@[i].function,
                reg,
                visiting.push(i as usize),
            );
        },
        _ => {},
    }
}

proof fn lemma_list_never_signed(
    acc: BlendedReach,
    list: Seq<DensityFunction>,
    reg: DensityRegistry,
    visiting: Seq<usize>,
    n: nat,
)
    requires
        !(acc is SignedZeroAtOrAbove),
    ensures
        !(bounds::reach_of_list(acc, list, reg, visiting, n) is SignedZeroAtOrAbove),
    decreases n,
{
    if n > 0 && n <= list.len() {
        lemma_list_never_signed(acc, list, reg, visiting, (n - 1) as nat);
    }
}

proof fn lemma_level_covers(inners: Seq<DensityFunction>, reg: DensityRegistry, n: nat, i: int)
    requires
        0 <= i < n <= inners.len(),
        bounds::reach_of(inners[i], reg, Seq::empty()) is NeutralAtOrAbove,
    ensures
        bounds::irrelevance_level(inners, reg, n) is Some,
        bounds::irrelevance_level(inners, reg, n)->0 >= bounds::reach_of(
            inners[i],
            reg,
            Seq::empty(),
        )->NeutralAtOrAbove_0,
    decreases n,
{
    if i < n - 1 {
        lemma_level_covers(inners, reg, (n - 1) as nat, i);
    }
}

/// At and above the level that is found for a set of channels, no channel's
/// value depends on the blended noise.
pub proof fn blended_noise_is_irrelevant_from_the_level(
    inners: Seq<DensityFunction>,
    reg: DensityRegistry,
    one: Sampling,
    other: Sampling,
    domain: Domain,
    y: int,
)
    requires
        closed_domain(domain, reg),
        forall|i: int| 0 <= i < inners.len() ==> domain(#[trigger] inners[i]),
        sampled_at(one, domain, y, reg),
        sampled_at(other, domain, y, reg),
        differ_in_blended_noise(one, other, reg),
        forall|i: int|
            0 <= i < inners.len() ==> bounds::settled(
                bounds::reach_of(#[trigger] inners[i], reg, Seq::empty()),
            ),
        bounds::irrelevance_level(inners, reg, inners.len()) is Some,
        y >= bounds::irrelevance_level(inners, reg, inners.len())->0,
    ensures
        forall|i: int| 0 <= i < inners.len() ==> one(#[trigger] inners[i]) == other(inners[i]),
{
    assert forall|i: int| 0 <= i < inners.len() implies one(#[trigger] inners[i]) == other(
        inners[i],
    ) by {
        blended_reach_claims_hold(inners[i], reg, Seq::empty(), one, other, domain, y);
        if bounds::reach_of(inners[i], reg, Seq::empty()) is NeutralAtOrAbove {
            lemma_level_covers(inners, reg, inners.len(), i);
        }
    }
}

// ---------------------------------------------------------------------------
// Sign of the density
// ---------------------------------------------------------------------------
/// A number that is zero or less.
pub open spec fn nonpositive(bits: u64) -> bool {
    !functions::nan_bits(bits) && functions::numeric_rank(bits) <= 0
}

/// Squeezing keeps a value non-positive, and a minimum is at most each side.
pub open spec fn keeps_sign(sampled: Sampling, domain: Domain) -> bool {
    forall|df: DensityFunction| #[trigger]
        domain(df) ==> match df {
            DensityFunction::Mapped { mapping, input } => mapping == MappedType::Squeeze
                && nonpositive(sampled(*input)) ==> nonpositive(sampled(df)),
            DensityFunction::TwoArgumentSimple { op, argument1, argument2, nonzero1, nonzero2 } =>
                op == TwoArgType::Min && (nonpositive(sampled(*argument1)) || nonpositive(
                sampled(*argument2),
            )) ==> nonpositive(sampled(df)),
            _ => true,
        }
}

/// While the first channel is still to come, the subtrees passed over hold
/// none, and only it can show anything.
proof fn lemma_first_channel_to_come(
    df: DensityFunction,
    reg: DensityRegistry,
    visiting: Seq<usize>,
    first_marker: bool,
)
    ensures
        bounds::nonpositive_of(df, reg, visiting, first_marker).0 ==> first_marker
            && !bounds::nonpositive_of(df, reg, visiting, first_marker).1,
        bounds::nonpositive_of(df, reg, visiting, first_marker).1 ==> first_marker
            && bounds::first_channel(df, reg, visiting) is None,
    decreases functions::unvisited(visiting, reg@.len()), df,
{
    match df {
        DensityFunction::Marker { kind, wrapped } => {
            if kind != MarkerType::Interpolated {
                lemma_first_channel_to_come(*wrapped, reg, visiting, first_marker);
            }
        },
        DensityFunction::Mapped { mapping, input } => {
            lemma_first_channel_to_come(*input, reg, visiting, first_marker);
        },
        DensityFunction::TwoArgumentSimple { op, argument1, argument2, nonzero1, nonzero2 } => {
            lemma_first_channel_to_come(*argument1, reg, visiting, first_marker);
            let after = bounds::nonpositive_of(*argument1, reg, visiting, first_marker).1;
            lemma_first_channel_to_come(*argument2, reg, visiting, after);
        },
        DensityFunction::Reference { id } => {
            if let Some(i) = functions::resolved(reg@, id@) {
                if !visiting.contains(i as usize) {
                    bounds::lemma_descend(reg, visiting, id@);
                    lemma_first_channel_to_come(
                        reg@[i].function,
                        reg,
                        visiting.push(i as usize),
                        first_marker,
                    );
                }
            }
        },
        _ => {},
    }
}

/// Where the sign analysis accepts a density, the density has a first
/// interpolated channel, and a non-positive value of that channel makes the
/// density non-positive.
pub proof fn an_accepted_density_follows_its_first_channel(
    df: DensityFunction,
    reg: DensityRegistry,
    visiting: Seq<usize>,
    sampled: Sampling,
    domain: Domain,
    y: int,
)
    requires
        closed_domain(domain, reg),
        domain(df),
        sampled_at(sampled, domain, y, reg),
        keeps_sign(sampled, domain),
        bounds::nonpositive_of(df, reg, visiting, true).0,
    ensures
        bounds::first_channel(df, reg, visiting) is Some,
        bounds::first_channel(df, reg, visiting)->0 is Marker,
        (bounds::first_channel(df, reg, visiting)->0)->kind == MarkerType::Interpolated,
        nonpositive(sampled(bounds::first_channel(df, reg, visiting)->0)) ==> nonpositive(
            sampled(df),
        ),
    decreases functions::unvisited(visiting, reg@.len()), df,
{
    match df {
        DensityFunction::Marker { kind, wrapped } => {
            if kind != MarkerType::Interpolated {
                an_accepted_density_follows_its_first_channel(
                    *wrapped,
                    reg,
                    visiting,
                    sampled,
                    domain,
                    y,
                );
            }
        },
        DensityFunction::Mapped { mapping, input } => {
            an_accepted_density_follows_its_first_channel(
                *input,
                reg,
                visiting,
                sampled,
                domain,
                y,
            );
        },
        DensityFunction::TwoArgumentSimple { op, argument1, argument2, nonzero1, nonzero2 } => {
            let first = bounds::nonpositive_of(*argument1, reg, visiting, true);
            if first.0 {
                an_accepted_density_follows_its_first_channel(
                    *argument1,
                    reg,
                    visiting,
                    sampled,
                    domain,
                    y,
                );
            } else {
                lemma_first_channel_to_come(*argument1, reg, visiting, true);
                lemma_first_channel_to_come(*argument2, reg, visiting, first.1);
                an_accepted_density_follows_its_first_channel(
                    *argument2,
                    reg,
                    visiting,
                    sampled,
                    domain,
                    y,
                );
            }
        },
        DensityFunction::Reference { id } => {
            let i = functions::resolved(reg@, id@)->0;
            bounds::lemma_descend(reg, visiting, id@);
            an_accepted_density_follows_its_first_channel(
                reg@[i].function,
                reg,
                visiting.push(i as usize),
                sampled,
                domain,
                y,
            );
        },
        _ => {},
    }
}

} // verus!
